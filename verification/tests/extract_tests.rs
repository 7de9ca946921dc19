use codepacker::{extract_module_specifiers, extract_quoted_segments};

#[test]
fn should_extract_closed_quoted_segments() {
    let line = r#"import foo from "./foo"; const x = require('bar');"#;
    let parts = extract_quoted_segments(line);
    assert_eq!(parts, vec!["./foo".to_string(), "bar".to_string()]);
}

#[test]
fn should_ignore_unterminated_quoted_segments() {
    let line = r#"import foo from "./foo"#;
    let parts = extract_quoted_segments(line);
    assert!(parts.is_empty());
}

#[test]
fn should_handle_escaped_quotes_in_segments() {
    let line = r#"import foo from "path/with\"quote""#;
    let parts = extract_quoted_segments(line);
    assert_eq!(parts.len(), 1);
    assert!(parts[0].contains("with"));
}

#[test]
fn extract_js_imports() {
    let content = r#"import { foo } from "./foo";
import bar from "../bar";
"#;
    let specs = extract_module_specifiers(content);
    assert!(specs.contains(&"./foo".to_string()));
    assert!(specs.contains(&"../bar".to_string()));
}

#[test]
fn extract_python_from_import() {
    let content = "from foo.bar import baz\n";
    let specs = extract_module_specifiers(content);
    assert!(specs.contains(&"foo/bar".to_string()));
}

#[test]
fn extract_python_plain_import() {
    let content = "import os, sys\n";
    let specs = extract_module_specifiers(content);
    assert!(specs.contains(&"os".to_string()));
    assert!(specs.contains(&"sys".to_string()));
}

#[test]
fn extract_rust_mod() {
    let content = "mod utils;\npub mod helpers;\n";
    let specs = extract_module_specifiers(content);
    assert!(specs.contains(&"./utils".to_string()));
    assert!(specs.contains(&"./helpers".to_string()));
}

#[test]
fn extract_skips_comments_and_blanks() {
    let content = "// import foo from 'bar';\n# comment\n\n";
    let specs = extract_module_specifiers(content);
    assert!(specs.is_empty());
}

#[test]
fn extract_rust_use_statement() {
    let content = "use \"./helper\";\n";
    let specs = extract_module_specifiers(content);
    assert!(specs.contains(&"./helper".to_string()));
}

#[test]
fn extract_dedups_repeated_specifiers() {
    let content = "import a from \"./x\";\nimport b from \"./x\";\n";
    let specs = extract_module_specifiers(content);
    assert_eq!(specs.iter().filter(|s| s.as_str() == "./x").count(), 1);
}

#[test]
fn extract_star_comment_line_ignored() {
    let content = "* import x from \"./x\";\n";
    let specs = extract_module_specifiers(content);
    assert!(specs.is_empty());
}
