use dprint_paths::incremental::incremental_file_inputs;
use dprint_paths::environment::Environment;
use dprint_paths::incremental::get_incremental_file;
use indexmap::IndexMap;

struct CacheEnvironment {
  can_create: bool,
  made: std::cell::RefCell<Vec<String>>,
}

impl Environment for CacheEnvironment {
  fn cwd(&self) -> String {
    "/".to_string()
  }

  fn is_absolute_path(&self, path: &str) -> bool {
    path.starts_with('/')
  }

  fn fs_is_dir_no_err(&self, _path: &str) -> bool {
    false
  }

  fn read_file_start_bytes(&self, _file_path: &str, _max_bytes: usize) -> Option<Vec<u8>> {
    None
  }

  fn get_cache_dir(&self) -> String {
    "/home/me/.cache/dprint".to_string()
  }

  fn mk_dir_all(&self, path: &str) -> bool {
    self.made.borrow_mut().push(path.to_string());
    self.can_create
  }
}

#[test]
fn incremental_settings() {
  let env = CacheEnvironment { can_create: true, made: Default::default() };
  let mut hashbangs = IndexMap::new();
  hashbangs.insert("#!/usr/bin/env node".to_string(), "js".to_string());
  hashbangs.insert("#!/bin/sh".to_string(), "sh".to_string());
  // the command line wins over the configuration
  assert!(get_incremental_file(Some(false), Some(true), "/project", 7, true, &hashbangs, &env).is_none());
  assert!(get_incremental_file(None, Some(false), "/project", 7, true, &hashbangs, &env).is_none());
  let inputs = get_incremental_file(Some(true), Some(false), "/project", 7, true, &hashbangs, &env).unwrap();
  assert_eq!(inputs.dir, "/home/me/.cache/dprint/incremental");
  assert_eq!(inputs.base_path, "/project");
  assert_eq!(inputs.plugins_hash, 7);
  assert_eq!(inputs.hashbang_state, vec!["#!/usr/bin/env node", "js", "#!/bin/sh", "sh"]);
  let inputs = get_incremental_file(None, None, "/project", 7, false, &hashbangs, &env).unwrap();
  assert!(inputs.hashbang_state.is_empty());
  let failing = CacheEnvironment { can_create: false, made: Default::default() };
  assert!(get_incremental_file(None, None, "/project", 7, true, &hashbangs, &failing).is_none());
}

#[test]
fn different_mappings_give_different_state() {
  let env = CacheEnvironment { can_create: true, made: Default::default() };
  let mut a = IndexMap::new();
  a.insert("#!/x".to_string(), "ts".to_string());
  let mut b = IndexMap::new();
  b.insert("#!/xt".to_string(), "s".to_string());
  let state_a = get_incremental_file(None, None, "/p", 1, true, &a, &env).unwrap().hashbang_state;
  let state_b = get_incremental_file(None, None, "/p", 1, true, &b, &env).unwrap().hashbang_state;
  assert_ne!(state_a, state_b);
  assert_eq!(state_a, vec!["#!/x", "ts"]);
}

#[test]
fn inputs_once_the_directory_is_made() {
  let mut hashbangs = IndexMap::new();
  hashbangs.insert("#!/bin/sh".to_string(), "sh".to_string());
  assert!(incremental_file_inputs("/c", false, "/base", 3, true, &hashbangs).is_none());
  let inputs = incremental_file_inputs("/c/", true, "/base", 3, true, &hashbangs).unwrap();
  assert_eq!(inputs.dir, "/c/incremental");
  assert_eq!(inputs.base_path, "/base");
  assert_eq!(inputs.plugins_hash, 3);
  assert_eq!(inputs.hashbang_state, vec!["#!/bin/sh", "sh"]);
}

#[test]
fn the_incremental_directory_is_made_in_the_cache() {
  let env = CacheEnvironment { can_create: true, made: Default::default() };
  let hashbangs = IndexMap::new();
  assert!(get_incremental_file(Some(false), None, "/p", 1, true, &hashbangs, &env).is_none());
  assert!(env.made.borrow().is_empty());
  let inputs = get_incremental_file(None, None, "/p", 1, true, &hashbangs, &env).unwrap();
  assert_eq!(*env.made.borrow(), vec![inputs.dir.clone()]);
  assert_eq!(inputs.dir, "/home/me/.cache/dprint/incremental");
}
