use atomic_runtime::edits::{
    check_append_child, check_child_args, check_html_length, check_outer_html_target, check_insert_before, check_no_ancestor_inserted, check_remove,
    check_remove_child, check_replace_child, ChildArg, EditError,
};
use atomic_runtime::tree::{ElementData, NodeTree, TreeNode};

fn node(parent: Option<usize>, children: &[usize]) -> TreeNode {
    TreeNode {
        parent,
        children: children.to_vec(),
        element: Some(ElementData { tag: "div".to_string(), attributes: Vec::new() }),
    }
}

/// 0 root; 1 under 0; 2 and 3 under 1; 4 detached.
fn sample() -> NodeTree {
    NodeTree {
        nodes: vec![
            node(None, &[1]),
            node(Some(0), &[2, 3]),
            node(Some(1), &[]),
            node(Some(1), &[]),
            node(None, &[]),
        ],
    }
}

#[test]
fn append_child_checks() {
    let t = sample();
    assert_eq!(check_append_child(&t, 2, 4), Ok(()));
    assert_eq!(check_append_child(&t, 2, 1), Err(EditError::AncestorInsert));
    assert_eq!(check_append_child(&t, 2, 2), Err(EditError::AncestorInsert));
    assert_eq!(check_append_child(&t, 9, 2), Err(EditError::Detached));
    assert_eq!(check_append_child(&t, 2, 9), Err(EditError::Detached));
}

#[test]
fn insert_before_checks() {
    let t = sample();
    assert_eq!(check_insert_before(&t, 1, 4, 3), Ok(()));
    assert_eq!(check_insert_before(&t, 1, 4, 1), Err(EditError::NotAChild));
    assert_eq!(check_insert_before(&t, 1, 0, 2), Err(EditError::AncestorInsert));
    assert_eq!(check_insert_before(&t, 1, 4, 9), Err(EditError::Detached));
}

#[test]
fn remove_child_checks() {
    let t = sample();
    assert_eq!(check_remove_child(&t, 1, 2), Ok(()));
    assert_eq!(check_remove_child(&t, 0, 2), Err(EditError::NotAChild));
    assert_eq!(check_remove_child(&t, 0, 7), Err(EditError::Detached));
}

#[test]
fn replace_child_checks() {
    let t = sample();
    assert_eq!(check_replace_child(&t, 1, 4, 3), Ok(()));
    assert_eq!(check_replace_child(&t, 1, 4, 0), Err(EditError::NotAChild));
    assert_eq!(check_replace_child(&t, 1, 0, 0), Err(EditError::AncestorInsert));
    assert_eq!(check_replace_child(&t, 1, 4, 8), Err(EditError::Detached));
}

#[test]
fn remove_checks() {
    let t = sample();
    assert_eq!(check_remove(&t, 0, 3), Ok(true));
    assert_eq!(check_remove(&t, 0, 0), Err(EditError::RootRemoval));
    assert_eq!(check_remove(&t, 0, 12), Ok(false));
}

#[test]
fn child_argument_checks() {
    let t = sample();
    let ok = vec![ChildArg::Text("hi".to_string()), ChildArg::Node(4)];
    assert_eq!(check_child_args(&t, &ok), Ok(()));
    let long = vec![ChildArg::Node(4), ChildArg::Text("x".repeat(16385)), ChildArg::Other];
    assert_eq!(check_child_args(&t, &long), Err(EditError::TextTooLong));
    let exact = vec![ChildArg::Text("é".repeat(8192))];
    assert_eq!(check_child_args(&t, &exact), Ok(()));
    let other = vec![ChildArg::Other, ChildArg::Node(40)];
    assert_eq!(check_child_args(&t, &other), Err(EditError::NotANode));
    let gone = vec![ChildArg::Node(40), ChildArg::Other];
    assert_eq!(check_child_args(&t, &gone), Err(EditError::Detached));
    let many: Vec<ChildArg> = (0..257).map(|_| ChildArg::Node(4)).collect();
    assert_eq!(check_child_args(&t, &many), Err(EditError::TooManyArguments));
    let most: Vec<ChildArg> = (0..256).map(|_| ChildArg::Node(4)).collect();
    assert_eq!(check_child_args(&t, &most), Ok(()));
}

#[test]
fn ancestors_are_not_inserted() {
    let t = sample();
    assert_eq!(check_no_ancestor_inserted(&t, 2, &vec![4, 3]), Ok(()));
    assert_eq!(check_no_ancestor_inserted(&t, 2, &vec![4, 0]), Err(EditError::AncestorInsert));
    assert_eq!(check_no_ancestor_inserted(&t, 2, &vec![]), Ok(()));
}

#[test]
fn markup_checks() {
    assert_eq!(check_html_length(&"a".repeat(65536)), Ok(()));
    assert_eq!(check_html_length(&"a".repeat(65537)), Err(EditError::HtmlTooLong));
    assert_eq!(check_html_length(&"é".repeat(32769)), Err(EditError::HtmlTooLong));
    let t = sample();
    assert_eq!(check_outer_html_target(&t, 0, 2), Ok(()));
    assert_eq!(check_outer_html_target(&t, 0, 0), Err(EditError::RootReplacement));
    assert_eq!(check_outer_html_target(&t, 0, 4), Err(EditError::NoParent));
    assert_eq!(check_outer_html_target(&t, 0, 5), Err(EditError::Detached));
}
