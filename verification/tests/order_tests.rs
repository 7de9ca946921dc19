use codepacker::{
    build_related_adjacency, compute_dependency_order, group_code_by_related_components,
    FileContent,
};

#[test]
fn dependency_order_respects_imports() {
    let files = vec![
        FileContent {
            path: "a.ts".into(),
            content: "import { b } from \"./b\";\n".into(),
            token_count: None,
        },
        FileContent { path: "b.ts".into(), content: "export const b = 1;\n".into(), token_count: None },
    ];
    let order = compute_dependency_order(&files);
    let pos_a = order.iter().position(|&i| i == 0).unwrap();
    let pos_b = order.iter().position(|&i| i == 1).unwrap();
    assert!(pos_b < pos_a, "b.ts (dependency) should appear before a.ts");
}

#[test]
fn dependency_order_handles_single_file() {
    let files = vec![
        FileContent { path: "only.ts".into(), content: "const x = 1;\n".into(), token_count: None },
    ];
    let order = compute_dependency_order(&files);
    assert_eq!(order, vec![0]);
}

#[test]
fn dependency_order_handles_empty() {
    let files: Vec<FileContent> = Vec::new();
    let order = compute_dependency_order(&files);
    assert!(order.is_empty());
}

#[test]
fn grouping_keeps_connected_files_adjacent() {
    let files = vec![
        FileContent {
            path: "a.ts".into(),
            content: "import { b } from \"./b\";\n".into(),
            token_count: None,
        },
        FileContent { path: "b.ts".into(), content: "export const b = 1;\n".into(), token_count: None },
        FileContent { path: "c.ts".into(), content: "const c = 1;\n".into(), token_count: None },
    ];
    let order = compute_dependency_order(&files);
    let related = build_related_adjacency(&files);
    let grouped = group_code_by_related_components(&order, &related);
    assert_eq!(grouped.len(), 3);

    let pos_a = grouped.iter().position(|&i| i == 0).unwrap();
    let pos_b = grouped.iter().position(|&i| i == 1).unwrap();
    let distance = if pos_a > pos_b { pos_a - pos_b } else { pos_b - pos_a };
    assert_eq!(distance, 1, "a and b should be adjacent since they're connected");
}

#[test]
fn dependency_order_two_file_example_exact() {
    let files = vec![
        FileContent {
            path: "a.ts".into(),
            content: "import { b } from \"./b\";\n".into(),
            token_count: None,
        },
        FileContent { path: "b.ts".into(), content: "export const b = 1;\n".into(), token_count: None },
    ];
    let order = compute_dependency_order(&files);
    assert_eq!(order, vec![1, 0]);
}

#[test]
fn dependency_order_two_cycle_terminates_with_both_once() {
    let files = vec![
        FileContent {
            path: "a.ts".into(),
            content: "import { b } from \"./b\";\n".into(),
            token_count: None,
        },
        FileContent {
            path: "b.ts".into(),
            content: "import { a } from \"./a\";\n".into(),
            token_count: None,
        },
    ];
    let order = compute_dependency_order(&files);
    assert_eq!(order.len(), 2);
    assert!(order.contains(&0));
    assert!(order.contains(&1));
    // cycle fallback appends in normalized path order
    assert_eq!(order, vec![0, 1]);
}

#[test]
fn dependency_order_breaks_ties_by_path() {
    let files = vec![
        FileContent { path: "z.ts".into(), content: "const z = 1;\n".into(), token_count: None },
        FileContent { path: "a.ts".into(), content: "const a = 1;\n".into(), token_count: None },
    ];
    let order = compute_dependency_order(&files);
    assert_eq!(order, vec![1, 0]);
}

#[test]
fn related_adjacency_is_symmetric() {
    let files = vec![
        FileContent {
            path: "a.ts".into(),
            content: "import { b } from \"./b\";\n".into(),
            token_count: None,
        },
        FileContent { path: "b.ts".into(), content: "export const b = 1;\n".into(), token_count: None },
    ];
    let related = build_related_adjacency(&files);
    assert!(related[0].contains(&1));
    assert!(related[1].contains(&0));
}

#[test]
fn cycle_fallback_is_sorted_by_path_not_index() {
    let files = vec![
        FileContent {
            path: "b.ts".into(),
            content: "import { a } from \"./a\";\n".into(),
            token_count: None,
        },
        FileContent {
            path: "a.ts".into(),
            content: "import { b } from \"./b\";\n".into(),
            token_count: None,
        },
    ];
    let order = compute_dependency_order(&files);
    assert_eq!(order, vec![1, 0]);
}

#[test]
fn grouping_pulls_component_members_together() {
    let code_order = vec![0, 2, 1];
    let related = vec![vec![1], vec![0], vec![]];
    let grouped = group_code_by_related_components(&code_order, &related);
    assert_eq!(grouped, vec![0, 1, 2]);
}
