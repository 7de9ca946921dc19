use codepacker::{distribute_files, distribute_with_doc_strategy};

#[test]
fn distribute_single_pack() {
    let indices = vec![0, 1, 2];
    let tokens = vec![100, 200, 300];
    let bins = distribute_files(&indices, 1, &tokens);
    assert_eq!(bins.len(), 1);
    assert_eq!(bins[0], vec![0, 1, 2]);
}

#[test]
fn distribute_empty_input() {
    let indices: Vec<usize> = Vec::new();
    let tokens: Vec<usize> = Vec::new();
    let bins = distribute_files(&indices, 3, &tokens);
    assert!(bins.is_empty());
}

#[test]
fn distribute_two_equal_packs() {
    let indices = vec![0, 1, 2, 3];
    let tokens = vec![100, 100, 100, 100];
    let bins = distribute_files(&indices, 2, &tokens);
    assert_eq!(bins.len(), 2);
    let total: usize = bins.iter().map(|b| b.len()).sum();
    assert_eq!(total, 4);
}

#[test]
fn distribute_more_packs_than_files_clamps() {
    let indices = vec![0, 1];
    let tokens = vec![200, 100];
    let bins = distribute_files(&indices, 10, &tokens);
    assert_eq!(bins.len(), 2);
    assert_eq!(bins[0], vec![0]);
    assert_eq!(bins[1], vec![1]);
}

#[test]
fn distribute_preserves_order() {
    let indices = vec![0, 1, 2, 3, 4, 5];
    let tokens = vec![10, 10, 10, 10, 10, 10];
    let bins = distribute_files(&indices, 3, &tokens);
    let flattened: Vec<usize> = bins.into_iter().flatten().collect();
    assert_eq!(flattened, vec![0, 1, 2, 3, 4, 5]);
}

#[test]
fn distribute_four_equal_files_two_packs_balance() {
    let indices = vec![0, 1, 2, 3];
    let tokens = vec![100, 100, 100, 100];
    let bins = distribute_files(&indices, 2, &tokens);
    assert_eq!(bins.len(), 2);
    assert_eq!(bins[0], vec![0, 1]);
    assert_eq!(bins[1], vec![2, 3]);
}

#[test]
fn distribute_front_loads_heavy_prefix() {
    let indices = vec![0, 1, 2];
    let tokens = vec![500, 10, 10];
    let bins = distribute_files(&indices, 2, &tokens);
    assert_eq!(bins, vec![vec![0], vec![1, 2]]);
}

#[test]
fn doc_strategy_merges_when_one_side_empty() {
    let docs: Vec<usize> = Vec::new();
    let code = vec![0, 1];
    let tokens = vec![50, 50];
    let bins = distribute_with_doc_strategy(&docs, &code, 2, &tokens);
    assert_eq!(bins.len(), 2);
    assert_eq!(bins[0], vec![0]);
    assert_eq!(bins[1], vec![1]);
}

#[test]
fn doc_strategy_keeps_docs_packs_first() {
    let docs = vec![0];
    let code = vec![1, 2];
    let tokens = vec![100, 100, 100];
    let bins = distribute_with_doc_strategy(&docs, &code, 3, &tokens);
    assert_eq!(bins, vec![vec![0], vec![1], vec![2]]);
}

#[test]
fn doc_strategy_single_pack_concatenates() {
    let docs = vec![0];
    let code = vec![1];
    let tokens = vec![10, 10];
    let bins = distribute_with_doc_strategy(&docs, &code, 1, &tokens);
    assert_eq!(bins, vec![vec![0, 1]]);
}

#[test]
fn distribute_six_equal_files_three_packs_exact() {
    let indices = vec![0, 1, 2, 3, 4, 5];
    let tokens = vec![10, 10, 10, 10, 10, 10];
    let bins = distribute_files(&indices, 3, &tokens);
    assert_eq!(bins, vec![vec![0, 1], vec![2, 3], vec![4, 5]]);
}

#[test]
fn doc_strategy_may_return_fewer_packs_than_requested() {
    let docs = vec![0];
    let code = vec![1];
    let tokens = vec![300, 100];
    let bins = distribute_with_doc_strategy(&docs, &code, 4, &tokens);
    assert_eq!(bins, vec![vec![0], vec![1]]);
}
