use codepacker::{estimate_tokens, format_file_header, wrap_pack};

#[test]
fn estimate_tokens_basic() {
    assert_eq!(estimate_tokens("abcd"), 1);
    assert_eq!(estimate_tokens("abcdefgh"), 2);
    assert_eq!(estimate_tokens(""), 1);
}

#[test]
fn format_markdown_wraps_in_code_block() {
    let result = format_file_header("src/main.ts", "const x = 1;", "markdown");
    assert!(result.starts_with("```typescript"));
    assert!(result.contains("// src/main.ts"));
    assert!(result.contains("const x = 1;"));
    assert!(result.ends_with("```"));
}

#[test]
fn format_plaintext_uses_path_comment() {
    let result = format_file_header("src/main.ts", "const x = 1;", "plaintext");
    assert!(result.starts_with("// src/main.ts"));
    assert!(result.contains("const x = 1;"));
    assert!(!result.contains("```"));
}

#[test]
fn format_markdown_maps_extensions_to_languages() {
    let cases = vec![
        ("file.rs", "rust"),
        ("file.py", "python"),
        ("file.go", "go"),
        ("file.json", "json"),
        ("file.md", "markdown"),
        ("file.css", "css"),
        ("file.xyz", "text"),
    ];
    for (path, expected_lang) in cases {
        let result = format_file_header(path, "", "markdown");
        assert!(
            result.starts_with(&format!("```{expected_lang}")),
            "expected {expected_lang} for {path}, got: {result}"
        );
    }
}

#[test]
fn format_markdown_exact_text() {
    let result = format_file_header("src/main.ts", "const x = 1;", "markdown");
    assert_eq!(result, "```typescript\n// src/main.ts\nconst x = 1;\n```");
}

#[test]
fn format_plaintext_exact_text() {
    let result = format_file_header("a.py", "print(1)", "plaintext");
    assert_eq!(result, "// a.py\nprint(1)");
}

#[test]
fn wrap_pack_returns_content_unchanged() {
    assert_eq!(wrap_pack("joined text"), "joined text");
}

#[test]
fn estimate_tokens_rounds_down_but_never_zero() {
    assert_eq!(estimate_tokens("abc"), 1);
    assert_eq!(estimate_tokens("abcdefg"), 1);
    assert_eq!(estimate_tokens("abcdefghi"), 2);
}
