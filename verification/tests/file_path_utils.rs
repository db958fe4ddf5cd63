use dprint_paths::file_path_utils::append_extension;
use dprint_paths::file_path_utils::components_of;
use dprint_paths::file_path_utils::get_lowercase_file_extension;
use dprint_paths::file_path_utils::get_lowercase_file_name;
use dprint_paths::file_path_utils::join_path;
use dprint_paths::file_path_utils::starts_with_path;

#[test]
fn test_get_lowercase_file_extension() {
  assert_eq!(get_lowercase_file_extension("test.txt").unwrap(), "txt");
  assert_eq!(get_lowercase_file_extension("test.txT").unwrap(), "txt");
  assert_eq!(get_lowercase_file_extension(".txt").unwrap(), "txt");
  assert_eq!(get_lowercase_file_extension(".Txt").unwrap(), "txt");
  assert!(get_lowercase_file_extension("txt").is_none());
  assert!(get_lowercase_file_extension("/path/.txt").is_none());
  assert_eq!(get_lowercase_file_extension("/path/test.txt").unwrap(), "txt");
}

#[test]
fn test_append_extension() {
  assert_eq!(append_extension("temp-mean", "ts"), "temp-mean.ts");
  // only appends; the dot in the parent directory is untouched
  assert_eq!(append_extension("/a.b/temp-mean", "ts"), "/a.b/temp-mean.ts");
}

#[test]
fn lowercase_file_extension_edge_cases() {
  // the last dot decides
  assert_eq!(get_lowercase_file_extension("archive.tar.GZ").unwrap(), "gz");
  // a trailing dot gives an empty extension
  assert_eq!(get_lowercase_file_extension("name.").unwrap(), "");
  // a dot in a directory is not an extension
  assert!(get_lowercase_file_extension("/a.b/c").is_none());
  // trailing separators and inner `.` components are skipped
  assert_eq!(get_lowercase_file_extension("dir/file.JS/").unwrap(), "js");
  assert_eq!(get_lowercase_file_extension("dir/./file.md/.").unwrap(), "md");
  // `..` has no file name
  assert!(get_lowercase_file_extension("..").is_none());
  assert!(get_lowercase_file_extension("").is_none());
  // a single `.` component counts as one component whose text after the dot is kept
  assert_eq!(get_lowercase_file_extension(".").unwrap(), "");
}

#[test]
fn lowercase_file_name_cases() {
  assert_eq!(get_lowercase_file_name("/path/To/Dockerfile").unwrap(), "dockerfile");
  assert_eq!(get_lowercase_file_name("README.MD").unwrap(), "readme.md");
  assert_eq!(get_lowercase_file_name("dir/").unwrap(), "dir");
  assert!(get_lowercase_file_name("/").is_none());
  assert!(get_lowercase_file_name("a/..").is_none());
  assert!(get_lowercase_file_name(".").is_none());
}

#[test]
fn path_components_and_prefixes() {
  assert_eq!(components_of("/a//b/./c/"), vec!["/", "a", "b", "c"]);
  assert_eq!(components_of("./x/../y"), vec![".", "x", "..", "y"]);
  assert!(starts_with_path("/a/b/c", "/a/b"));
  assert!(starts_with_path("/a/b/c", "/a/b/"));
  assert!(!starts_with_path("/a/bc", "/a/b"));
  assert!(!starts_with_path("/a", "/a/b"));
  assert!(starts_with_path("/a", "/"));
}

#[test]
fn joining_paths() {
  assert_eq!(join_path("/home/user", "src"), "/home/user/src");
  assert_eq!(join_path("/home/user/", "src"), "/home/user/src");
  assert_eq!(join_path("/home/user", "/abs"), "/abs");
  assert_eq!(join_path("", "rel"), "rel");
}

#[test]
fn appended_extension_is_the_extension() {
  for (path, ext) in [("/bin/tool", "JS"), (".", "ts"), ("a/..", "md"), ("dir/name.old", "json"), ("x", "Ü")] {
    let appended = append_extension(path, ext);
    assert_eq!(get_lowercase_file_extension(&appended).unwrap(), ext.to_lowercase());
  }
  // a path ending in a separator gets a hidden file instead
  assert!(get_lowercase_file_extension(&append_extension("/dir/", "ts")).is_none());
}
