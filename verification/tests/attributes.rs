use atomic_runtime::attributes::{attribute_names, lex_le_exec, sorted_names, stale_indices};
use atomic_runtime::tree::{ElementData, NodeTree, TreeNode};

fn chars(s: &str) -> Vec<char> {
    s.chars().collect()
}

#[test]
fn code_point_comparison_matches_str() {
    let words = ["", "a", "ab", "b", "B", "é", "z", "aé", "a\u{10000}", "\u{FFFF}"];
    for x in words {
        for y in words {
            assert_eq!(lex_le_exec(&chars(x), &chars(y)), x <= y, "{x:?} {y:?}");
        }
    }
}

#[test]
fn names_are_sorted_like_sort_unstable() {
    let input: Vec<String> = ["value", "id", "Class", "é", "data-x", "data", "aria-label"]
        .iter()
        .map(|s| s.to_string())
        .collect();
    let mut expected = input.clone();
    expected.sort_unstable();
    assert_eq!(sorted_names(input), expected);
    assert_eq!(sorted_names(Vec::new()), Vec::<String>::new());
    assert_eq!(
        sorted_names(vec!["b".to_string(), "a".to_string(), "b".to_string()]),
        vec!["a".to_string(), "b".to_string(), "b".to_string()]
    );
}

#[test]
fn attribute_names_of_an_element() {
    let t = NodeTree {
        nodes: vec![
            TreeNode {
                parent: None,
                children: vec![],
                element: Some(ElementData {
                    tag: "input".to_string(),
                    attributes: vec![
                        ("type".to_string(), "text".to_string()),
                        ("id".to_string(), "x".to_string()),
                        ("class".to_string(), "a".to_string()),
                    ],
                }),
            },
            TreeNode { parent: None, children: vec![], element: None },
        ],
    };
    assert_eq!(attribute_names(&t, 0), vec!["class", "id", "type"]);
    assert_eq!(attribute_names(&t, 1), Vec::<String>::new());
    assert_eq!(attribute_names(&t, 5), Vec::<String>::new());
}

#[test]
fn stale_map_indices() {
    assert_eq!(stale_indices(2, 5), vec![2, 3, 4]);
    assert_eq!(stale_indices(5, 2), Vec::<usize>::new());
    assert_eq!(stale_indices(3, 3), Vec::<usize>::new());
}
