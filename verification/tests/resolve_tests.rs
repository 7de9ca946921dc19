use codepacker::resolve_module_specifier;

#[test]
fn resolve_relative_import() {
    let paths = vec!["src/lib/utils.ts".to_string()];
    let result = resolve_module_specifier("./utils", "src/lib/foo.ts", &paths);
    assert_eq!(result, Some(0));
}

#[test]
fn resolve_at_alias_import() {
    let paths = vec!["src/lib/utils.ts".to_string()];
    let result = resolve_module_specifier("@/lib/utils", "src/components/App.tsx", &paths);
    assert_eq!(result, Some(0));
}

#[test]
fn resolve_returns_none_for_external_modules() {
    let paths: Vec<String> = Vec::new();
    assert_eq!(resolve_module_specifier("react", "src/App.tsx", &paths), None);
}

#[test]
fn resolve_returns_none_for_http_urls() {
    let paths: Vec<String> = Vec::new();
    assert_eq!(
        resolve_module_specifier("https://cdn.example.com/lib.js", "src/App.tsx", &paths),
        None
    );
}

#[test]
fn resolve_returns_none_for_node_builtins() {
    let paths: Vec<String> = Vec::new();
    assert_eq!(resolve_module_specifier("node:path", "src/App.tsx", &paths), None);
}

#[test]
fn resolve_with_explicit_extension() {
    let paths = vec!["src/lib/utils.ts".to_string()];
    let result = resolve_module_specifier("@/lib/utils.ts", "src/App.tsx", &paths);
    assert_eq!(result, Some(0));
}

#[test]
fn resolve_tries_index_files() {
    let paths = vec!["src/lib/index.ts".to_string()];
    let result = resolve_module_specifier("@/lib", "src/App.tsx", &paths);
    assert_eq!(result, Some(0));
}

#[test]
fn resolve_bare_specifier_within_repo() {
    let paths = vec!["utils.ts".to_string()];
    assert_eq!(resolve_module_specifier("utils", "main.ts", &paths), Some(0));
}

#[test]
fn resolve_root_relative_specifier() {
    let paths = vec!["src/a.ts".to_string()];
    assert_eq!(resolve_module_specifier("/src/a.ts", "other.ts", &paths), Some(0));
}

#[test]
fn resolve_rejects_empty_specifier() {
    let paths = vec!["a.ts".to_string()];
    assert_eq!(resolve_module_specifier("", "a.ts", &paths), None);
}

#[test]
fn resolve_prefers_direct_file_over_index() {
    let paths = vec!["src/lib/index.ts".to_string(), "src/lib.ts".to_string()];
    assert_eq!(resolve_module_specifier("@/lib", "src/App.tsx", &paths), Some(1));
}
