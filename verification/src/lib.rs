//! Routing of files to formatting plugins: path utilities, shebang handling,
//! plugin name resolution and grouping of files by the plugins that format them.

pub mod text;
pub mod shebang;
pub mod file_path_utils;
pub mod paths;
pub mod environment;
pub mod index_map;
pub mod name_resolution;
pub mod incremental;
