use dprint_paths::shebang::normalize_shebang_line;
use dprint_paths::shebang::parse_shebang_line;
use dprint_paths::shebang::shebang_line_matches_key;

#[test]
fn normalizes_whitespace() {
  assert_eq!(normalize_shebang_line("  #!/usr/bin/env   -S  deno run  "), "#!/usr/bin/env -S deno run");
  assert_eq!(normalize_shebang_line("#!/bin/sh"), "#!/bin/sh");
}

#[test]
fn parses_shebang_line() {
  assert_eq!(parse_shebang_line(b"#!/bin/sh\necho hi\n").unwrap(), "#!/bin/sh");
  assert_eq!(parse_shebang_line(b"#!/usr/bin/env  bash").unwrap(), "#!/usr/bin/env bash");
  // handles a trailing carriage return
  assert_eq!(parse_shebang_line(b"#!/bin/sh\r\n").unwrap(), "#!/bin/sh");
  assert!(parse_shebang_line(b"not a shebang").is_none());
  assert!(parse_shebang_line(b"").is_none());
}

#[test]
fn matches_key_at_boundary() {
  assert!(shebang_line_matches_key("#!/usr/bin/env -S deno run --allow-net", "#!/usr/bin/env -S deno run"));
  assert!(shebang_line_matches_key("#!/bin/sh", "#!/bin/sh"));
  // must be a whitespace boundary, not a partial token
  assert!(!shebang_line_matches_key("#!/usr/bin/env node-thing", "#!/usr/bin/env node"));
  assert!(!shebang_line_matches_key("#!/bin/sh", "#!/bin/bash"));
}

#[test]
fn normalization_is_idempotent() {
  for line in ["\t#!/usr/bin/env\u{a0} node \n", "", "   ", "a  b\u{2003}c", "#!/bin/sh"] {
    let once = normalize_shebang_line(line);
    assert_eq!(normalize_shebang_line(&once), once);
  }
}

#[test]
fn normalization_keeps_tokens() {
  let line = "\u{3000}#!/usr/bin/env\t\tpython3 \u{2028} -u ";
  let normalized = normalize_shebang_line(line);
  assert_eq!(normalized, "#!/usr/bin/env python3 -u");
  let original: Vec<&str> = line.split_whitespace().collect();
  let kept: Vec<&str> = normalized.split(' ').collect();
  assert_eq!(original, kept);
  assert_eq!(normalize_shebang_line(" \t \n"), "");
}

#[test]
fn matching_is_a_token_prefix() {
  let line = normalize_shebang_line("#!/usr/bin/env  deno   run --allow-all");
  assert!(shebang_line_matches_key(&line, &normalize_shebang_line("#!/usr/bin/env deno")));
  assert!(shebang_line_matches_key(&line, &normalize_shebang_line(" #!/usr/bin/env   deno run ")));
  assert!(!shebang_line_matches_key(&line, &normalize_shebang_line("#!/usr/bin/env den")));
  assert!(!shebang_line_matches_key(&line, &normalize_shebang_line("#!/usr/bin/env deno run --allow-all x")));
}

#[test]
fn parses_only_the_first_line_and_replaces_invalid_bytes() {
  assert_eq!(parse_shebang_line(b"#!").unwrap(), "#!");
  assert_eq!(parse_shebang_line(b"#!\nsecond").unwrap(), "#!");
  assert!(parse_shebang_line(b"#").is_none());
  assert!(parse_shebang_line(b" #!/bin/sh").is_none());
  assert_eq!(parse_shebang_line(b"#!/bin/\xffsh  x").unwrap(), "#!/bin/\u{fffd}sh x");
}

#[test]
fn parsed_lines_start_with_the_shebang_and_are_normalized() {
  for bytes in [&b"#!  /usr/bin/env   node\r\nrest"[..], &b"#!\xff\xfe x\n"[..], &b"#!/bin/sh\t-e"[..], &b"#!\x0b\x0c"[..]] {
    let line = parse_shebang_line(bytes).unwrap();
    assert!(line.starts_with("#!"));
    assert!(!line.contains('\n'));
    assert_eq!(normalize_shebang_line(&line), line);
  }
  assert_eq!(parse_shebang_line(b"#!  /usr/bin/env   node\r\nrest").unwrap(), "#! /usr/bin/env node");
}
