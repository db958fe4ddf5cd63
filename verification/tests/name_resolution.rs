use dprint_paths::environment::AssociationMatcher;
use dprint_paths::environment::GlobMatchesDetail;
use dprint_paths::name_resolution::PluginMatching;
use dprint_paths::name_resolution::PluginNameResolutionMaps;
use indexmap::IndexMap;

/// Matches paths by suffix; a leading `!` excludes.
struct SuffixMatcher {
  includes: Vec<&'static str>,
  excludes: Vec<&'static str>,
}

impl AssociationMatcher for SuffixMatcher {
  fn matches(&self, file_path: &str) -> bool {
    self.matches_detail(file_path) == GlobMatchesDetail::Matched
  }

  fn matches_detail(&self, file_path: &str) -> GlobMatchesDetail {
    if self.excludes.iter().any(|e| file_path.ends_with(e)) {
      GlobMatchesDetail::Excluded
    } else if self.includes.iter().any(|i| file_path.ends_with(i)) {
      GlobMatchesDetail::Matched
    } else {
      GlobMatchesDetail::NotMatched
    }
  }
}

fn plugin(name: &str, exts: &[&str], names: &[&str], matcher: Option<SuffixMatcher>) -> PluginMatching<SuffixMatcher> {
  PluginMatching {
    name: name.to_string(),
    file_extensions: exts.iter().map(|s| s.to_string()).collect(),
    file_names: names.iter().map(|s| s.to_string()).collect(),
    association_matcher: matcher,
  }
}

fn hashbangs(entries: &[(&str, &str)]) -> IndexMap<String, String> {
  let mut map = IndexMap::new();
  for (k, v) in entries {
    map.insert(k.to_string(), v.to_string());
  }
  map
}

fn maps() -> PluginNameResolutionMaps<SuffixMatcher> {
  PluginNameResolutionMaps::from_plugins(
    vec![
      plugin("typescript", &["ts", "JS"], &[], None),
      plugin("json", &["json"], &["tsconfig.json"], Some(SuffixMatcher { includes: vec![".jsonc"], excludes: vec!["package.json"] })),
      plugin("dockerfile", &[], &["Dockerfile"], None),
      plugin("prettier", &["ts"], &[], Some(SuffixMatcher { includes: vec![".special.ts"], excludes: vec![] })),
    ],
    &hashbangs(&[
      ("#!/usr/bin/env node", "js"),
      ("#!/usr/bin/env -S deno run", "ts"),
      ("#!/bin/sh", "sh"),
    ]),
  )
}

#[test]
fn resolves_by_extension_file_name_and_association() {
  let maps = maps();
  assert_eq!(maps.get_plugin_names_from_file_path("/a/b.ts"), vec!["typescript"]);
  // extensions are lower-cased both when registered and when looked up
  assert_eq!(maps.get_plugin_names_from_file_path("/a/b.Js"), vec!["typescript"]);
  assert_eq!(maps.get_plugin_names_from_file_path("/a/DOCKERFILE"), vec!["dockerfile"]);
  assert_eq!(maps.get_plugin_names_from_file_path("/a/tsconfig.json"), vec!["json"]);
  // every matching association wins over file names and extensions
  assert_eq!(maps.get_plugin_names_from_file_path("/a/b.jsonc"), vec!["json"]);
  assert_eq!(maps.get_plugin_names_from_file_path("/a/b.special.ts"), vec!["prettier"]);
  // a negated association excludes the plugin's default matching
  assert!(maps.get_plugin_names_from_file_path("/a/package.json").is_empty());
  assert!(maps.get_plugin_names_from_file_path("/a/b.md").is_empty());
}

#[test]
fn longest_hashbang_prefix_wins() {
  let maps = PluginNameResolutionMaps::<SuffixMatcher>::from_plugins(
    vec![],
    &hashbangs(&[("#!/usr/bin/env", "a"), ("#!/usr/bin/env deno run", "c"), ("#!/usr/bin/env deno", "b")]),
  );
  assert!(maps.has_hashbangs());
  assert_eq!(maps.resolve_hashbang_extension("#!/usr/bin/env   deno run -A"), Some("c"));
  assert_eq!(maps.resolve_hashbang_extension("#!/usr/bin/env deno fmt"), Some("b"));
  assert_eq!(maps.resolve_hashbang_extension("#!/usr/bin/env node"), Some("a"));
  assert_eq!(maps.resolve_hashbang_extension("#!/usr/bin/envy"), None);
  assert_eq!(maps.resolve_hashbang_extension("#!/bin/sh"), None);
}

#[test]
fn equal_length_hashbang_keys_keep_their_order() {
  let maps = PluginNameResolutionMaps::<SuffixMatcher>::from_plugins(vec![], &hashbangs(&[("#!/x", "first"), ("#!/x", "dup"), ("#!/y", "second")]));
  assert_eq!(maps.resolve_hashbang_extension("#!/x"), Some("dup"));
  let maps = PluginNameResolutionMaps::<SuffixMatcher>::from_plugins(vec![], &hashbangs(&[("#!/aa", "first"), ("#!/bb", "second")]));
  assert_eq!(maps.resolve_hashbang_extension("#!/bb"), Some("second"));
}

#[test]
fn without_hashbangs() {
  let maps = PluginNameResolutionMaps::<SuffixMatcher>::from_plugins(vec![], &IndexMap::new());
  assert!(!maps.has_hashbangs());
  assert_eq!(maps.resolve_hashbang_extension("#!/bin/sh"), None);
  let (names, path) = maps.resolve_for_format("/x/script", b"#!/bin/sh\n");
  assert!(names.is_empty());
  assert_eq!(path, "/x/script");
}

#[test]
fn resolves_for_format_by_shebang() {
  let maps = maps();
  let (names, path) = maps.resolve_for_format("/bin/tool", b"#!/usr/bin/env  node --harmony\nconsole.log(1)");
  assert_eq!(names, vec!["typescript"]);
  assert_eq!(path, "/bin/tool.js");
  // a file with a plugin keeps its own path
  let (names, path) = maps.resolve_for_format("/a/b.ts", b"#!/usr/bin/env node\n");
  assert_eq!(names, vec!["typescript"]);
  assert_eq!(path, "/a/b.ts");
  // a file with an extension is not routed by its shebang
  let (names, path) = maps.resolve_for_format("/a/b.md", b"#!/usr/bin/env node\n");
  assert!(names.is_empty());
  assert_eq!(path, "/a/b.md");
  // a mapped extension no plugin formats leaves the file unrouted
  let (names, path) = maps.resolve_for_format("/bin/run", b"#!/bin/sh\n");
  assert!(names.is_empty());
  assert_eq!(path, "/bin/run");
  // no shebang
  let (names, path) = maps.resolve_for_format("/bin/run", b"echo hi\n");
  assert!(names.is_empty());
  assert_eq!(path, "/bin/run");
}

#[test]
fn association_results_decide() {
  let maps = maps();
  let results = maps.association_results("/a/b.jsonc");
  assert_eq!(results.matched, vec![true, false]);
  assert_eq!(maps.plugin_names_from_association_results("/a/b.jsonc", &results), vec!["json"]);
}

#[test]
fn hashbang_keys_are_normalized() {
  let maps = PluginNameResolutionMaps::<SuffixMatcher>::from_plugins(vec![], &hashbangs(&[("#!/usr/bin/env  node", "js")]));
  assert_eq!(maps.resolve_hashbang_extension("#!/usr/bin/env node"), Some("js"));
  assert_eq!(maps.resolve_hashbang_extension("  #!/usr/bin/env\tnode  --flag"), Some("js"));
  let maps = PluginNameResolutionMaps::<SuffixMatcher>::from_plugins(
    vec![],
    &hashbangs(&[(" #!/bin/sh ", "sh"), ("#!/bin/sh   -e", "she")]),
  );
  assert_eq!(maps.resolve_hashbang_extension("#!/bin/sh -e"), Some("she"));
  assert_eq!(maps.resolve_hashbang_extension("#!/bin/sh"), Some("sh"));
  assert_eq!(maps.resolve_hashbang_extension("#!/bin/shx"), None);
}

#[test]
fn default_maps_resolve_nothing() {
  let maps = PluginNameResolutionMaps::<SuffixMatcher>::default();
  assert!(!maps.has_hashbangs());
  assert_eq!(maps.resolve_hashbang_extension("#!/bin/sh"), None);
  assert!(maps.get_plugin_names_from_file_path("/a/b.ts").is_empty());
  let (names, path) = maps.resolve_for_format("/bin/tool", b"#!/bin/sh\n");
  assert!(names.is_empty());
  assert_eq!(path, "/bin/tool");
}
