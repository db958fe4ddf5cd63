use dprint_paths::paths::expanded_include_pattern_for;
use dprint_paths::environment::AssociationMatcher;
use dprint_paths::environment::Environment;
use dprint_paths::environment::GlobMatchesDetail;
use dprint_paths::name_resolution::PluginMatching;
use dprint_paths::name_resolution::PluginNameResolutionMaps;
use dprint_paths::paths::get_cli_search_base;
use dprint_paths::paths::derived_config_includes;
use dprint_paths::paths::git_filter;
use dprint_paths::paths::glob_start_dir;
use dprint_paths::paths::GitFilter;
use dprint_paths::paths::get_file_paths_by_plugins;
use dprint_paths::paths::get_plugin_patterns;
use dprint_paths::paths::expand_directory_include_pattern;
use dprint_paths::paths::expand_directory_include_patterns;
use dprint_paths::paths::ConfigPattern;
use dprint_paths::paths::FileToFormat;
use dprint_paths::paths::IncludePatternArg;
use dprint_paths::paths::IncludePatternBase;
use dprint_paths::paths::PluginFilePatterns;
use dprint_paths::paths::PluginNames;
use indexmap::IndexMap;
use std::cell::RefCell;
use std::collections::HashMap;

struct NoMatcher;

impl AssociationMatcher for NoMatcher {
  fn matches(&self, _file_path: &str) -> bool {
    false
  }

  fn matches_detail(&self, _file_path: &str) -> GlobMatchesDetail {
    GlobMatchesDetail::NotMatched
  }
}

#[derive(Default)]
struct TestEnvironment {
  files: HashMap<String, Vec<u8>>,
  dirs: Vec<String>,
  reads: RefCell<Vec<String>>,
  read_sizes: RefCell<Vec<usize>>,
}

impl Environment for TestEnvironment {
  fn cwd(&self) -> String {
    "/work".to_string()
  }

  fn is_absolute_path(&self, path: &str) -> bool {
    path.starts_with('/')
  }

  fn fs_is_dir_no_err(&self, path: &str) -> bool {
    self.dirs.iter().any(|d| d == path)
  }

  fn read_file_start_bytes(&self, file_path: &str, max_bytes: usize) -> Option<Vec<u8>> {
    self.reads.borrow_mut().push(file_path.to_string());
    self.read_sizes.borrow_mut().push(max_bytes);
    self.files.get(file_path).map(|b| b[..b.len().min(max_bytes)].to_vec())
  }

  fn get_cache_dir(&self) -> String {
    "/cache".to_string()
  }

  fn mk_dir_all(&self, _path: &str) -> bool {
    true
  }
}

fn maps() -> PluginNameResolutionMaps<NoMatcher> {
  let mut hashbangs = IndexMap::new();
  hashbangs.insert("#!/usr/bin/env node".to_string(), "js".to_string());
  PluginNameResolutionMaps::from_plugins(
    vec![
      PluginMatching { name: "ts".to_string(), file_extensions: vec!["ts".to_string(), "js".to_string()], file_names: vec![], association_matcher: None },
      PluginMatching { name: "md".to_string(), file_extensions: vec!["md".to_string()], file_names: vec![], association_matcher: None },
    ],
    &hashbangs,
  )
}

#[test]
fn plugin_names_round_trip() {
  let names = vec!["dprint-plugin-typescript".to_string(), "dprint-plugin-json".to_string()];
  let key = PluginNames::from_plugin_names(&names);
  assert_eq!(key.names(), names);
  assert_eq!(PluginNames::from_plugin_names(&["a".to_string()]).names(), vec!["a"]);
  assert_eq!(PluginNames::from_plugin_names(&["".to_string(), "".to_string()]).names(), vec!["", ""]);
  // a name ending in `~` does not come back as it was
  assert_eq!(PluginNames::from_plugin_names(&["a~".to_string(), "b".to_string()]).names(), vec!["a", "~b"]);
  assert_eq!(PluginNames::from_plugin_names(&[]).names(), vec![""]);
}

#[test]
fn format_path_appends_the_mapped_extension() {
  let plain = FileToFormat { path: "/a/b.ts".to_string(), format_ext: None };
  assert_eq!(plain.format_path(), "/a/b.ts");
  let routed = FileToFormat { path: "/bin/tool".to_string(), format_ext: Some("js".to_string()) };
  assert_eq!(routed.format_path(), "/bin/tool.js");
}

#[test]
fn groups_files_by_plugins() {
  let mut env = TestEnvironment::default();
  env.files.insert("/bin/tool".to_string(), b"#!/usr/bin/env node\nx".to_vec());
  env.files.insert("/bin/other".to_string(), b"#!/bin/sh\n".to_vec());
  let maps = maps();
  let paths = vec!["/a/x.ts", "/a/y.md", "/bin/tool", "/a/z.txt", "/a/w.js", "/bin/other", "/bin/missing", "/a/q.md"];
  let result = get_file_paths_by_plugins(&maps, paths.iter().map(|s| s.to_string()).collect(), &env);
  assert!(!result.is_empty());
  assert!(result.ensure_not_empty("/a").is_ok());
  assert_eq!(result.all_file_paths(), vec!["/a/x.ts", "/bin/tool", "/a/w.js", "/a/y.md", "/a/q.md"]);
  // only extensionless files without a plugin are read
  assert_eq!(*env.reads.borrow(), vec!["/bin/tool", "/bin/other", "/bin/missing"]);
  let groups = result.into_vec();
  assert_eq!(groups.len(), 2);
  assert_eq!(groups[0].0.names(), vec!["ts"]);
  assert_eq!(groups[0].1.len(), 3);
  assert_eq!(groups[0].1[1].path, "/bin/tool");
  assert_eq!(groups[0].1[1].format_ext.as_deref(), Some("js"));
  assert_eq!(groups[0].1[1].format_path(), "/bin/tool.js");
  assert_eq!(groups[0].1[0].format_ext, None);
  assert_eq!(groups[1].0.names(), vec!["md"]);
}

#[test]
fn reports_when_no_file_is_found() {
  let env = TestEnvironment::default();
  let maps = maps();
  let result = get_file_paths_by_plugins(&maps, vec!["/a/z.txt".to_string()], &env);
  assert!(result.is_empty());
  let err = result.ensure_not_empty("/base").err().unwrap();
  assert_eq!(err.base_path, "/base");
  assert!(err.message().starts_with("No files found to format with the specified plugins at /base."));
  assert!(result.all_file_paths().is_empty());
  assert!(result.into_vec().is_empty());
}

#[test]
fn search_base_widens_to_including_directories() {
  let pattern = |dir: &str, negated: bool| IncludePatternBase { base_dir: dir.to_string(), is_negated: negated };
  assert_eq!(get_cli_search_base("/work/sub", &None), "/work/sub");
  assert_eq!(get_cli_search_base("/work/sub", &Some(vec![pattern("/work", false)])), "/work");
  // negated patterns and unrelated directories are ignored
  assert_eq!(get_cli_search_base("/work/sub", &Some(vec![pattern("/", true), pattern("/other", false)])), "/work/sub");
  // a deeper base later does not narrow a wider one
  assert_eq!(get_cli_search_base("/work/sub/deep", &Some(vec![pattern("/work", false), pattern("/work/sub", false)])), "/work");
  assert_eq!(get_cli_search_base("/work/sub/deep", &Some(vec![pattern("/work/sub", false), pattern("/work", false)])), "/work");
}

#[test]
fn plugin_patterns_from_extensions_names_and_associations() {
  let plugins = vec![
    PluginFilePatterns { file_names: vec![], file_extensions: vec!["ts".to_string(), "js".to_string()], associations: None },
    PluginFilePatterns {
      file_names: vec!["Dockerfile".to_string()],
      file_extensions: vec!["ts".to_string(), "json".to_string()],
      associations: Some(vec![
        ConfigPattern { pattern: "**/*.jsonc".to_string(), is_negated: false },
        ConfigPattern { pattern: "!**/skip.jsonc".to_string(), is_negated: true },
      ]),
    },
  ];
  assert_eq!(get_plugin_patterns(&plugins), vec!["**/*.{ts,js,json}", "**/{Dockerfile}", "**/*.jsonc"]);
  assert!(get_plugin_patterns(&vec![]).is_empty());
}

#[test]
fn expands_directory_include_patterns() {
  let mut env = TestEnvironment::default();
  env.dirs.push("/work/src".to_string());
  env.dirs.push("/abs/dir/".to_string());
  assert_eq!(expand_directory_include_pattern("src", false, &env), vec!["src", "src/**/*"]);
  assert_eq!(expand_directory_include_pattern("src", true, &env), vec!["src"]);
  assert_eq!(expand_directory_include_pattern(".", false, &env), vec!["."]);
  assert_eq!(expand_directory_include_pattern("\\abs\\dir\\", false, &env), vec!["/abs/dir/", "/abs/dir/**/*"]);
  assert_eq!(expand_directory_include_pattern("lib", false, &env), vec!["lib"]);
  let args = vec![
    IncludePatternArg { pattern: "src".to_string(), is_glob: false },
    IncludePatternArg { pattern: "**/*.ts".to_string(), is_glob: true },
  ];
  assert_eq!(expand_directory_include_patterns(&args, &env), vec!["src", "src/**/*", "**/*.ts"]);
}

#[test]
fn search_base_holds_the_working_directory() {
  let pattern = |dir: &str| IncludePatternBase { base_dir: dir.to_string(), is_negated: false };
  let cwd = "/work/a/b";
  for patterns in [vec![pattern("/work/a")], vec![pattern("/"), pattern("/work")], vec![pattern("/work/a/b/c")]] {
    let base = get_cli_search_base(cwd, &Some(patterns));
    assert!(dprint_paths::file_path_utils::starts_with_path(cwd, &base));
  }
}

#[test]
fn expansion_for_each_directory_answer() {
  assert_eq!(expanded_include_pattern_for("a\\b//", false, true), vec!["a/b//", "a/b/**/*"]);
  assert_eq!(expanded_include_pattern_for("a\\b//", false, false), vec!["a\\b//"]);
  assert_eq!(expanded_include_pattern_for("a/b", true, true), vec!["a/b"]);
  assert_eq!(expanded_include_pattern_for(".", false, true), vec!["."]);
}

#[test]
fn no_files_found_message() {
  let err = dprint_paths::paths::NoFilesFoundError { base_path: "/my/project".to_string() };
  assert_eq!(
    err.message(),
    "No files found to format with the specified plugins at /my/project. You may want to try using `dprint output-file-paths` to see which files it's finding or run with `--allow-no-files`."
  );
}

#[test]
fn staged_files_win_over_dirty_ones() {
  assert_eq!(git_filter(true, true), GitFilter::Staged);
  assert_eq!(git_filter(true, false), GitFilter::Staged);
  assert_eq!(git_filter(false, true), GitFilter::Dirty);
  assert_eq!(git_filter(false, false), GitFilter::NoFilter);
}

#[test]
fn derived_includes_collect_extensionless_files_with_hashbangs() {
  let plugins = vec![PluginFilePatterns { file_names: vec![], file_extensions: vec!["ts".to_string()], associations: None }];
  assert_eq!(derived_config_includes(false, &plugins), vec!["**/*.{ts}"]);
  assert_eq!(derived_config_includes(true, &plugins), vec!["**/*.{ts}", "**/*"]);
  assert_eq!(derived_config_includes(true, &vec![]), vec!["**/*"]);
  assert!(derived_config_includes(false, &vec![]).is_empty());
}

#[test]
fn search_starts_in_the_base_unless_inside_it() {
  let pattern = |dir: &str| IncludePatternBase { base_dir: dir.to_string(), is_negated: false };
  // the working directory is the base path
  assert_eq!(glob_start_dir("/work", "/work", &Some(vec![pattern("/")])), "/work");
  assert_eq!(glob_start_dir("/work/", "/work", &None), "/work");
  // the working directory is outside the base path
  assert_eq!(glob_start_dir("/other", "/work", &None), "/work");
  // the working directory is inside the base path: the command-line search base
  assert_eq!(glob_start_dir("/work/sub", "/work", &None), "/work/sub");
  assert_eq!(glob_start_dir("/work/sub/deep", "/work", &Some(vec![pattern("/work/sub")])), "/work/sub");
  assert_eq!(glob_start_dir("/work/sub", "/work", &Some(vec![pattern("/")])), "/");
}

#[test]
fn formatting_resolves_collected_files_alike() {
  let mut env = TestEnvironment::default();
  env.files.insert("/bin/tool".to_string(), b"#!/usr/bin/env node\nx".to_vec());
  env.files.insert("/bin/other".to_string(), b"#!/bin/sh\n".to_vec());
  // only the start of a long file is read while collecting
  let mut long = b"#!/usr/bin/env node\n".to_vec();
  long.extend(std::iter::repeat(b'x').take(3000));
  env.files.insert("/bin/long".to_string(), long);
  let maps = maps();
  let paths = vec!["/a/x.ts", "/bin/tool", "/bin/other", "/a/y.md", "/bin/long"];
  let result = get_file_paths_by_plugins(&maps, paths.iter().map(|s| s.to_string()).collect(), &env);
  let mut count = 0;
  for (key, files) in result.into_vec() {
    for file in files {
      let bytes = env.files.get(&file.path).cloned().unwrap_or_default();
      let (names, path) = maps.resolve_for_format(&file.path, &bytes);
      assert_eq!(PluginNames::from_plugin_names(&names).names(), key.names());
      assert_eq!(path, file.format_path());
      count += 1;
    }
  }
  assert_eq!(count, 4);
}

#[test]
fn shebangs_are_read_from_the_start_of_the_file() {
  let mut env = TestEnvironment::default();
  env.files.insert("/bin/tool".to_string(), b"#!/usr/bin/env node\n".to_vec());
  let maps = maps();
  let result = get_file_paths_by_plugins(&maps, vec!["/bin/tool".to_string(), "/a/x.ts".to_string()], &env);
  assert_eq!(result.all_file_paths(), vec!["/bin/tool", "/a/x.ts"]);
  assert_eq!(*env.reads.borrow(), vec!["/bin/tool"]);
  assert_eq!(*env.read_sizes.borrow(), vec![1024]);
}

#[test]
fn an_unreadable_file_changes_no_other_group() {
  let mut env = TestEnvironment::default();
  env.files.insert("/bin/tool".to_string(), b"#!/usr/bin/env node\n".to_vec());
  let maps = maps();
  let with: Vec<String> = ["/a/x.ts", "/bin/missing", "/bin/tool", "/a/y.md"].iter().map(|s| s.to_string()).collect();
  let without: Vec<String> = ["/a/x.ts", "/bin/tool", "/a/y.md"].iter().map(|s| s.to_string()).collect();
  let a = get_file_paths_by_plugins(&maps, with, &env).into_vec();
  let b = get_file_paths_by_plugins(&maps, without, &env).into_vec();
  assert_eq!(a.len(), b.len());
  for ((ka, fa), (kb, fb)) in a.iter().zip(b.iter()) {
    assert_eq!(ka.names(), kb.names());
    assert_eq!(fa.iter().map(|f| f.format_path()).collect::<Vec<_>>(), fb.iter().map(|f| f.format_path()).collect::<Vec<_>>());
  }
}
