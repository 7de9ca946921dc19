use codepacker::{pack_files, FileContent, PackRequest};

fn request(files: Vec<FileContent>, num_packs: usize, format: &str) -> PackRequest {
    PackRequest {
        files,
        num_packs,
        output_format: format.to_string(),
        llm_profile_id: String::new(),
    }
}

#[test]
fn empty_file_list_gives_empty_response() {
    let resp = pack_files(request(Vec::new(), 5, "markdown")).unwrap();
    assert!(resp.packs.is_empty());
    assert_eq!(resp.total_tokens, 0);
}

#[test]
fn four_equal_files_two_packs_balance_evenly() {
    let files = vec![
        FileContent { path: "a.ts".into(), content: "a".into(), token_count: Some(100) },
        FileContent { path: "b.ts".into(), content: "b".into(), token_count: Some(100) },
        FileContent { path: "c.ts".into(), content: "c".into(), token_count: Some(100) },
        FileContent { path: "d.ts".into(), content: "d".into(), token_count: Some(100) },
    ];
    let resp = pack_files(request(files, 2, "plaintext")).unwrap();
    assert_eq!(resp.packs.len(), 2);
    assert_eq!(resp.packs[0].file_count, 2);
    assert_eq!(resp.packs[1].file_count, 2);
    assert_eq!(resp.total_tokens, 400);
}

#[test]
fn pack_token_totals_sum_to_input_total() {
    let files = vec![
        FileContent { path: "a.ts".into(), content: "aaaa".into(), token_count: Some(7) },
        FileContent { path: "b.ts".into(), content: "bbbbbbbb".into(), token_count: None },
        FileContent { path: "README.md".into(), content: "docs".into(), token_count: Some(3) },
    ];
    let resp = pack_files(request(files, 2, "markdown")).unwrap();
    let sum: usize = resp.packs.iter().map(|p| p.estimated_tokens).sum();
    assert_eq!(sum, resp.total_tokens);
    assert_eq!(resp.total_tokens, 7 + 2 + 3);
}

#[test]
fn every_path_lands_in_exactly_one_pack() {
    let files = vec![
        FileContent { path: "a.ts".into(), content: "a".into(), token_count: Some(1) },
        FileContent { path: "b.ts".into(), content: "b".into(), token_count: Some(1) },
        FileContent { path: "docs/x.md".into(), content: "x".into(), token_count: Some(1) },
    ];
    let resp = pack_files(request(files, 3, "plaintext")).unwrap();
    let mut all_paths: Vec<String> =
        resp.packs.iter().flat_map(|p| p.file_paths.clone()).collect();
    all_paths.sort();
    assert_eq!(all_paths, vec!["a.ts", "b.ts", "docs/x.md"]);
}

#[test]
fn single_file_plaintext_pack_content_exact() {
    let files = vec![
        FileContent { path: "m.py".into(), content: "print(1)".into(), token_count: None },
    ];
    let resp = pack_files(request(files, 1, "plaintext")).unwrap();
    assert_eq!(resp.packs.len(), 1);
    assert_eq!(resp.packs[0].content, "// m.py\nprint(1)");
    assert_eq!(resp.packs[0].index, 0);
    assert_eq!(resp.packs[0].file_paths, vec!["m.py"]);
}

#[test]
fn docs_packs_come_before_code_packs() {
    let files = vec![
        FileContent { path: "main.ts".into(), content: "code".into(), token_count: Some(100) },
        FileContent { path: "README.md".into(), content: "docs".into(), token_count: Some(100) },
    ];
    let resp = pack_files(request(files, 2, "plaintext")).unwrap();
    assert_eq!(resp.packs.len(), 2);
    assert_eq!(resp.packs[0].file_paths, vec!["README.md"]);
    assert_eq!(resp.packs[1].file_paths, vec!["main.ts"]);
}

#[test]
fn packs_join_files_with_blank_line() {
    let files = vec![
        FileContent { path: "a.py".into(), content: "a".into(), token_count: Some(1) },
        FileContent { path: "b.py".into(), content: "b".into(), token_count: Some(1) },
    ];
    let resp = pack_files(request(files, 1, "plaintext")).unwrap();
    assert_eq!(resp.packs.len(), 1);
    assert_eq!(resp.packs[0].content, "// a.py\na\n\n// b.py\nb");
}

#[test]
fn requested_zero_packs_is_treated_as_one() {
    let files = vec![
        FileContent { path: "a.py".into(), content: "a".into(), token_count: Some(1) },
        FileContent { path: "b.py".into(), content: "b".into(), token_count: Some(1) },
    ];
    let resp = pack_files(request(files, 0, "plaintext")).unwrap();
    assert_eq!(resp.packs.len(), 1);
    assert_eq!(resp.packs[0].file_count, 2);
}

#[test]
fn dependency_comes_first_inside_pack() {
    let files = vec![
        FileContent {
            path: "a.ts".into(),
            content: "import { b } from \"./b\";\n".into(),
            token_count: Some(1),
        },
        FileContent { path: "b.ts".into(), content: "export const b = 1;\n".into(), token_count: Some(1) },
    ];
    let resp = pack_files(request(files, 1, "plaintext")).unwrap();
    assert_eq!(resp.packs[0].file_paths, vec!["b.ts", "a.ts"]);
}
