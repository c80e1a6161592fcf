use unsafe_parser::report::{aggregate, classify_file, FsTree, Output};
use unsafe_parser::ScanError;

fn sample_file() -> String {
    [
        "fn main() {",
        "    let mut x = 0;",
        "    unsafe {",
        "        x += 1;",
        "    }",
        "    x += 2;",
        "    let y = 3;",
        "",
        "    show(x);",
        "    helper(y);",
        "}",
        "",
        "// end",
        "fn helper(v: u64) {}",
    ]
    .join("\n")
}

fn two_files_and_a_stranger() -> FsTree {
    FsTree::Dir {
        path: "proj".to_string(),
        entries: vec![
            FsTree::File { path: "proj/a.rs".to_string(), content: Some(sample_file()) },
            FsTree::File { path: "proj/notes.txt".to_string(), content: Some("todo\n".to_string()) },
            FsTree::File { path: "proj/b.rs".to_string(), content: Some(sample_file()) },
        ],
    }
}

#[test]
fn test_output_node_operations() {
    let mut root = Output::default("root".to_string());
    assert_eq!(root.path().as_str(), "root");
    assert_eq!(root.unsafe_lines(), 0);
    assert_eq!(root.all_lines(), 0);
    assert!(root.children().is_empty());

    let leaf = Output::new("root/a.rs".to_string(), 3, 14);
    assert_eq!(leaf.unsafe_lines(), 3);
    assert_eq!(leaf.all_lines(), 14);

    root.add_child(leaf);
    root.set_unsafe_lines(3);
    root.set_all_lines(14);
    assert_eq!(root.children().len(), 1);
    assert_eq!(root.unsafe_lines(), 3);
    assert_eq!(root.all_lines(), 14);
}

#[test]
fn test_directory_with_two_source_files() {
    let tree = two_files_and_a_stranger();
    let report = aggregate(&tree, true).unwrap();
    assert_eq!(report.unsafe_lines(), 6);
    assert_eq!(report.all_lines(), 28);
    assert_eq!(report.children().len(), 2);
    assert_eq!(report.children()[0].path().as_str(), "proj/a.rs");
    assert_eq!(report.children()[0].unsafe_lines(), 3);
    assert_eq!(report.children()[0].all_lines(), 14);
    assert_eq!(report.children()[1].path().as_str(), "proj/b.rs");
    assert_eq!(report.children()[1].unsafe_lines(), 3);
    assert_eq!(report.children()[1].all_lines(), 14);
}

#[test]
fn test_nested_directories_propagate_counts() {
    let inner = two_files_and_a_stranger();
    let tree = FsTree::Dir {
        path: "top".to_string(),
        entries: vec![
            FsTree::File { path: "top/readme.md".to_string(), content: Some("hi".to_string()) },
            inner,
        ],
    };
    let report = aggregate(&tree, true).unwrap();
    assert_eq!(report.unsafe_lines(), 6);
    assert_eq!(report.all_lines(), 28);
    assert_eq!(report.children().len(), 1);
    let dir_node = &report.children()[0];
    assert_eq!(dir_node.path().as_str(), "proj");
    assert_eq!(dir_node.unsafe_lines(), 6);
    assert_eq!(dir_node.all_lines(), 28);
    assert_eq!(dir_node.children().len(), 2);
}

#[test]
fn test_empty_directory() {
    let tree = FsTree::Dir { path: "empty".to_string(), entries: vec![] };
    let report = aggregate(&tree, true).unwrap();
    assert_eq!(report.unsafe_lines(), 0);
    assert_eq!(report.all_lines(), 0);
    assert!(report.children().is_empty());
}

#[test]
fn test_missing_directory_fails_not_found() {
    let tree = FsTree::Missing { path: "gone".to_string() };
    assert_eq!(aggregate(&tree, true).err(), Some(ScanError::NotFound));
}

#[test]
fn test_unlistable_directory_fails_permission() {
    let tree = FsTree::Dir {
        path: "top".to_string(),
        entries: vec![FsTree::UnlistableDir { path: "top/locked".to_string() }],
    };
    assert_eq!(aggregate(&tree, true).err(), Some(ScanError::PermissionError));
}

#[test]
fn test_unreadable_file_aborts_traversal() {
    let tree = FsTree::Dir {
        path: "top".to_string(),
        entries: vec![FsTree::File { path: "top/bad.rs".to_string(), content: None }],
    };
    assert_eq!(aggregate(&tree, true).err(), Some(ScanError::ReadError));
}

#[test]
fn test_aggregate_twice_is_identical() {
    let tree = two_files_and_a_stranger();
    let first = aggregate(&tree, true).unwrap();
    let second = aggregate(&tree, true).unwrap();
    assert_eq!(first.unsafe_lines(), second.unsafe_lines());
    assert_eq!(first.all_lines(), second.all_lines());
    assert_eq!(first.children().len(), second.children().len());
    for (a, b) in first.children().iter().zip(second.children().iter()) {
        assert_eq!(a.path(), b.path());
        assert_eq!(a.unsafe_lines(), b.unsafe_lines());
        assert_eq!(a.all_lines(), b.all_lines());
    }
}

#[test]
fn test_interior_counts_are_sums_of_children() {
    let tree = two_files_and_a_stranger();
    let report = aggregate(&tree, true).unwrap();
    let marked_sum: u64 = report.children().iter().map(|c| c.unsafe_lines()).sum();
    let total_sum: u64 = report.children().iter().map(|c| c.all_lines()).sum();
    assert_eq!(report.unsafe_lines(), marked_sum);
    assert_eq!(report.all_lines(), total_sum);
}

#[test]
fn test_classify_file_checks_the_suffix_first() {
    let not_rust = FsTree::File { path: "a.txt".to_string(), content: Some("x\n".to_string()) };
    assert_eq!(classify_file(&not_rust, true), Err(ScanError::InvalidInput));

    let unreadable = FsTree::File { path: "a.rs".to_string(), content: None };
    assert_eq!(classify_file(&unreadable, true), Err(ScanError::ReadError));

    let missing = FsTree::Missing { path: "a.rs".to_string() };
    assert_eq!(classify_file(&missing, true), Err(ScanError::NotFound));

    let fine = FsTree::File { path: "a.rs".to_string(), content: Some(sample_file()) };
    assert_eq!(classify_file(&fine, true), Ok((3, 14)));
}

#[test]
fn test_aggregate_rejects_a_stray_file_root() {
    let tree = FsTree::File { path: "notes.txt".to_string(), content: Some("x".to_string()) };
    assert_eq!(aggregate(&tree, true).err(), Some(ScanError::InvalidInput));
}
