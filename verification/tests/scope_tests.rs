use codepacker::{is_binary_by_extension, should_exclude_dir, ScopeState};

#[test]
fn recognizes_binary_extensions() {
    let binary_exts =
        ["png", "jpg", "jpeg", "gif", "pdf", "zip", "exe", "wasm", "mp3", "mp4", "ttf", "woff2"];
    for ext in binary_exts {
        assert!(is_binary_by_extension(ext), "expected {} to be binary", ext);
    }
}

#[test]
fn allows_text_extensions() {
    let text_exts = ["ts", "rs", "py", "go", "md", "json", "txt", "html", "css"];
    for ext in text_exts {
        assert!(!is_binary_by_extension(ext), "expected {} to be text", ext);
    }
}

#[test]
fn binary_detection_is_case_insensitive() {
    assert!(is_binary_by_extension("PNG"));
    assert!(is_binary_by_extension("Jpg"));
    assert!(is_binary_by_extension("WASM"));
}

#[test]
fn excludes_known_dirs() {
    let excluded = [
        "node_modules",
        ".git",
        "dist",
        "build",
        "target",
        "__pycache__",
        ".next",
        ".nuxt",
        "coverage",
        ".turbo",
        ".cache",
    ];
    for dir in excluded {
        assert!(should_exclude_dir(dir), "expected {} to be excluded", dir);
    }
}

#[test]
fn allows_normal_dirs() {
    assert!(!should_exclude_dir("src"));
    assert!(!should_exclude_dir("lib"));
    assert!(!should_exclude_dir("components"));
    assert!(!should_exclude_dir("tests"));
}

#[test]
fn scope_allows_paths_under_remembered_roots() {
    let mut scope = ScopeState::new();
    assert!(!scope.is_path_allowed("/home/user/project/file.txt"));
    scope.remember_project_root("/home/user/project".to_string());
    assert!(scope.is_path_allowed("/home/user/project/file.txt"));
    assert!(scope.is_path_allowed("/home/user/project"));
    assert!(!scope.is_path_allowed("/home/user/projectile"));
    assert!(!scope.is_path_allowed("/home/user/other"));
}

#[test]
fn scope_export_roots_also_allow() {
    let mut scope = ScopeState::new();
    scope.remember_export_root("/tmp/exports".to_string());
    assert!(scope.is_path_allowed("/tmp/exports/out.md"));
    assert!(!scope.is_path_allowed("/tmp/elsewhere"));
}

#[test]
fn scope_remembers_each_root_once() {
    let mut scope = ScopeState::new();
    scope.remember_project_root("/a".to_string());
    scope.remember_project_root("/a".to_string());
    assert_eq!(scope.project_roots.len(), 1);
}
