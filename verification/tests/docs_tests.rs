use codepacker::{doc_priority, is_doc_file, split_docs_and_code, FileContent};

#[test]
fn is_doc_file_recognizes_doc_extensions() {
    assert!(is_doc_file("README.md"));
    assert!(is_doc_file("guide.mdx"));
    assert!(is_doc_file("notes.txt"));
    assert!(is_doc_file("spec.rst"));
    assert!(is_doc_file("help.adoc"));
}

#[test]
fn is_doc_file_rejects_code_files() {
    assert!(!is_doc_file("main.ts"));
    assert!(!is_doc_file("lib.rs"));
    assert!(!is_doc_file("config.json"));
}

#[test]
fn doc_priority_readme_first() {
    let (bucket, _) = doc_priority("README.md");
    assert_eq!(bucket, 0);
}

#[test]
fn doc_priority_architecture_docs_second() {
    for name in &["OVERVIEW.md", "architecture.md", "design.md", "specification.md", "CONTRIBUTING.md"] {
        let (bucket, _) = doc_priority(name);
        assert_eq!(bucket, 1, "expected bucket 1 for {}", name);
    }
}

#[test]
fn doc_priority_docs_folder_third() {
    let (bucket, _) = doc_priority("docs/guide.md");
    assert_eq!(bucket, 2);
}

#[test]
fn doc_priority_other_docs_last() {
    let (bucket, _) = doc_priority("random-notes.md");
    assert_eq!(bucket, 3);
}

#[test]
fn split_docs_and_code_separates_correctly() {
    let files = vec![
        FileContent { path: "README.md".into(), content: "doc".into(), token_count: None },
        FileContent { path: "main.ts".into(), content: "code".into(), token_count: None },
        FileContent { path: "guide.txt".into(), content: "doc".into(), token_count: None },
    ];
    let ordered: Vec<usize> = (0..3).collect();
    let (docs, code) = split_docs_and_code(&ordered, &files);

    assert_eq!(docs.len(), 2);
    assert_eq!(code.len(), 1);
    assert!(docs.contains(&0));
    assert!(docs.contains(&2));
    assert!(code.contains(&1));
}

#[test]
fn split_docs_places_readme_first() {
    let files = vec![
        FileContent { path: "guide.md".into(), content: "".into(), token_count: None },
        FileContent { path: "README.md".into(), content: "".into(), token_count: None },
    ];
    let ordered = vec![0, 1];
    let (docs, _) = split_docs_and_code(&ordered, &files);
    assert_eq!(docs[0], 1, "README should come first");
}

#[test]
fn split_sorts_docs_by_bucket_then_path() {
    let files = vec![
        FileContent { path: "zz-notes.md".into(), content: "".into(), token_count: None },
        FileContent { path: "docs/guide.md".into(), content: "".into(), token_count: None },
        FileContent { path: "design.md".into(), content: "".into(), token_count: None },
        FileContent { path: "readme.md".into(), content: "".into(), token_count: None },
    ];
    let ordered: Vec<usize> = (0..4).collect();
    let (docs, code) = split_docs_and_code(&ordered, &files);
    assert_eq!(docs, vec![3, 2, 1, 0]);
    assert!(code.is_empty());
}
