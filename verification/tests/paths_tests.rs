use codepacker::{
    file_basename, get_extension, has_extension, normalize_path, parent_dir, path_extension,
    path_has_parent_traversal,
};

#[test]
fn normalize_removes_dot_segments() {
    assert_eq!(normalize_path("a/./b"), "a/b");
    assert_eq!(normalize_path("./a/b"), "a/b");
}

#[test]
fn normalize_resolves_parent_segments() {
    assert_eq!(normalize_path("a/b/../c"), "a/c");
    assert_eq!(normalize_path("a/b/../../c"), "c");
}

#[test]
fn normalize_handles_backslashes() {
    assert_eq!(normalize_path("a\\b\\c"), "a/b/c");
}

#[test]
fn normalize_collapses_empty_segments() {
    assert_eq!(normalize_path("a//b///c"), "a/b/c");
}

#[test]
fn parent_dir_returns_directory() {
    assert_eq!(parent_dir("src/lib/foo.ts"), "src/lib");
}

#[test]
fn parent_dir_returns_empty_for_top_level() {
    assert_eq!(parent_dir("foo.ts"), "");
}

#[test]
fn has_extension_detects_ext() {
    assert!(has_extension("file.ts"));
    assert!(!has_extension("Makefile"));
}

#[test]
fn path_extension_extracts_lowercase() {
    assert_eq!(path_extension("file.TS"), "ts");
    assert_eq!(path_extension("file.Rs"), "rs");
    assert_eq!(path_extension("noext"), "");
}

#[test]
fn file_basename_extracts_name() {
    assert_eq!(file_basename("src/lib/foo.ts"), "foo.ts");
    assert_eq!(file_basename("README.md"), "readme.md");
}

#[test]
fn detects_parent_traversal() {
    assert!(path_has_parent_traversal("../secret"));
    assert!(path_has_parent_traversal("foo/../../etc/passwd"));
    assert!(path_has_parent_traversal("a/b/../c"));
}

#[test]
fn allows_normal_paths() {
    assert!(!path_has_parent_traversal("foo/bar/baz"));
    assert!(!path_has_parent_traversal("/absolute/path"));
    assert!(!path_has_parent_traversal("./relative"));
    assert!(!path_has_parent_traversal("file.txt"));
}

#[test]
fn get_extension_keeps_case() {
    assert_eq!(get_extension("file.TS"), "TS");
    assert_eq!(get_extension("src/lib/mod.rs"), "rs");
    assert_eq!(get_extension("noext"), "");
    assert_eq!(get_extension(".gitignore"), "");
}

#[test]
fn normalize_keeps_plain_paths() {
    assert_eq!(normalize_path("src/lib/utils.ts"), "src/lib/utils.ts");
    assert_eq!(normalize_path(""), "");
}
