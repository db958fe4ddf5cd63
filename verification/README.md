# dprint_paths

The part of dprint that decides which plugins format which files, written in
Verus and verified:

- `shebang`: reading a shebang line from the start of a file, normalizing its
  whitespace, and matching it against configured keys at a token boundary.
- `file_path_utils`: paths as text, read as a Unix `std::path::Path` reads them:
  components, file names, lower-cased extensions, joining and prefixes.
- `name_resolution`: the maps from extensions, file names, association patterns
  and shebang prefixes to plugins, and the resolution of a file's plugins.
- `paths`: grouping files by the plugins that format them, plugin-name keys, the
  include patterns derived from plugins and the command line, where the file
  search starts and which git restriction applies.
- `incremental`: whether incremental formatting is used and what its cache state
  depends on.
- `environment`: the traits through which the library reaches the file system
  and each plugin's compiled association patterns. Nothing is assumed of what an
  implementation answers; the contracts say which call, with which arguments,
  gave each answer that a result is built from.
- `index_map`, `text`: the `indexmap` map and the few `std` string functions the
  library calls, with the contracts it relies on.

`app/` holds a file-system `Environment` and a copy of the error type that
displays its message.
