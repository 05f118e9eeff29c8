use atomic_runtime::tree::{
    attribute, build_ancestor_chain, descendants_matching_tags, elements_by_class_name,
    elements_by_tag_name, end_child, is_ancestor, labels, named_item, search, selected_option,
    sibling, collection_has, collection_key, first_by_tag, resolve_live, title_target, CollectionKey,
    LiveQuery, TitleTarget, closest, elements_matching, matches_selector, selector_fits, ElementData, NodeTree, SearchError, TreeNode, Wanted, MAX_SEARCH_RESULTS,
    MAX_SEARCH_VISITS,
};

fn element(tag: &str, attrs: &[(&str, &str)]) -> Option<ElementData> {
    Some(ElementData {
        tag: tag.to_string(),
        attributes: attrs.iter().map(|(n, v)| (n.to_string(), v.to_string())).collect(),
    })
}

fn node(parent: Option<usize>, children: &[usize], el: Option<ElementData>) -> TreeNode {
    TreeNode { parent, children: children.to_vec(), element: el }
}

/// 0 document
///   1 html
///     2 body
///       3 form
///         4 label for=name
///         5 input id=name class="a b"
///         6 label
///           7 input class="b"
///         8 text
///       9 select
///         10 option
///         11 option selected
///         12 option selected
fn sample() -> NodeTree {
    NodeTree {
        nodes: vec![
            node(None, &[1], None),
            node(Some(0), &[2], element("html", &[])),
            node(Some(1), &[3, 9], element("body", &[])),
            node(Some(2), &[4, 5, 6, 8], element("form", &[])),
            node(Some(3), &[], element("label", &[("for", "name")])),
            node(Some(3), &[], element("input", &[("id", "name"), ("class", "a b"), ("name", "user")])),
            node(Some(3), &[7], element("label", &[])),
            node(Some(6), &[], element("input", &[("class", " b ")])),
            node(Some(3), &[], None),
            node(Some(2), &[10, 11, 12], element("select", &[])),
            node(Some(9), &[], element("option", &[])),
            node(Some(9), &[], element("option", &[("selected", "")])),
            node(Some(9), &[], element("option", &[("selected", "")])),
        ],
    }
}

#[test]
fn parents_and_ancestry() {
    let t = sample();
    assert_eq!(t.parent(7), Some(6));
    assert_eq!(t.parent(0), None);
    assert_eq!(t.parent(99), None);
    assert!(is_ancestor(&t, 3, 7));
    assert!(is_ancestor(&t, 7, 7));
    assert!(!is_ancestor(&t, 9, 7));
    assert!(!is_ancestor(&t, 7, 3));
}

#[test]
fn ancestor_chain_is_the_propagation_path() {
    let t = sample();
    assert_eq!(build_ancestor_chain(&t, 7), Some(vec![7, 6, 3, 2, 1, 0]));
    assert_eq!(build_ancestor_chain(&t, 0), Some(vec![0]));
}

#[test]
fn ancestor_chain_too_deep_is_refused() {
    let mut nodes = Vec::new();
    for i in 0..200usize {
        let parent = if i == 0 { None } else { Some(i - 1) };
        nodes.push(node(parent, &[i + 1], element("div", &[])));
    }
    let t = NodeTree { nodes };
    assert_eq!(build_ancestor_chain(&t, 199), None);
    assert_eq!(build_ancestor_chain(&t, 127).map(|c| c.len()), Some(128));
    assert_eq!(build_ancestor_chain(&t, 128), None);
}

#[test]
fn siblings_and_end_children() {
    let t = sample();
    assert_eq!(sibling(&t, 5, true), Some(6));
    assert_eq!(sibling(&t, 5, false), Some(4));
    assert_eq!(sibling(&t, 4, false), None);
    assert_eq!(sibling(&t, 8, true), None);
    assert_eq!(sibling(&t, 0, true), None);
    assert_eq!(end_child(&t, 3, true), Some(4));
    assert_eq!(end_child(&t, 3, false), Some(8));
    assert_eq!(end_child(&t, 4, true), None);
    assert_eq!(end_child(&t, 50, false), None);
}

#[test]
fn attributes_are_read_by_name() {
    let t = sample();
    assert_eq!(attribute(&t, 5, "class"), Some("a b".to_string()));
    assert_eq!(attribute(&t, 5, "Class"), None);
    assert_eq!(attribute(&t, 8, "class"), None);
    assert_eq!(attribute(&t, 40, "class"), None);
}

#[test]
fn descendants_in_document_order() {
    let t = sample();
    let tags = vec!["input", "select", "textarea"];
    assert_eq!(descendants_matching_tags(&t, 2, &tags, MAX_SEARCH_VISITS), vec![5, 7, 9]);
    assert_eq!(descendants_matching_tags(&t, 5, &tags, MAX_SEARCH_VISITS), Vec::<usize>::new());
    let options = vec!["option"];
    assert_eq!(descendants_matching_tags(&t, 9, &options, 4096), vec![10, 11, 12]);
    // More than `max_results` found stops the walk.
    assert_eq!(descendants_matching_tags(&t, 9, &options, 1), vec![10, 11]);
    assert_eq!(descendants_matching_tags(&t, 9, &options, 0), vec![10]);
}

#[test]
fn tag_search() {
    let t = sample();
    assert_eq!(elements_by_tag_name(&t, 0, "input", false), Ok(vec![5, 7]));
    assert_eq!(elements_by_tag_name(&t, 0, "label", false), Ok(vec![4, 6]));
    assert_eq!(elements_by_tag_name(&t, 3, "*", false), Ok(vec![4, 5, 6, 7]));
    assert_eq!(elements_by_tag_name(&t, 3, "*", true), Ok(vec![3, 4, 5, 6, 7]));
    assert_eq!(elements_by_tag_name(&t, 0, "INPUT", false), Ok(vec![]));
    assert_eq!(elements_by_tag_name(&t, 0, "div.x", false), Ok(vec![]));
}

#[test]
fn class_search() {
    let t = sample();
    assert_eq!(elements_by_class_name(&t, 0, "b", false), Ok(vec![5, 7]));
    assert_eq!(elements_by_class_name(&t, 0, " b  a ", false), Ok(vec![5]));
    assert_eq!(elements_by_class_name(&t, 0, "c", false), Ok(vec![]));
    assert_eq!(elements_by_class_name(&t, 0, "   ", false), Ok(vec![]));
    assert_eq!(elements_by_class_name(&t, 5, "a", true), Ok(vec![5]));
    assert_eq!(elements_by_class_name(&t, 5, "a", false), Ok(vec![]));
}

#[test]
fn search_fails_on_a_missing_node() {
    let t = NodeTree { nodes: vec![node(None, &[1, 5], element("div", &[])), node(Some(0), &[], element("p", &[]))] };
    assert_eq!(search(&t, 0, false, &Wanted::Tag("p".to_string())), Err(SearchError::InvalidNode));
}

#[test]
fn search_fails_past_the_visit_limit() {
    let n = MAX_SEARCH_VISITS + 1;
    let mut nodes = vec![node(None, &(1..n).collect::<Vec<_>>(), element("div", &[]))];
    for _ in 1..n {
        nodes.push(node(Some(0), &[], element("span", &[])));
    }
    let t = NodeTree { nodes };
    assert_eq!(elements_by_tag_name(&t, 0, "p", false), Err(SearchError::TraversalLimit));
    let t2 = NodeTree { nodes: t.nodes[..n - 1].iter().map(|x| node(x.parent, &x.children.iter().copied().filter(|c| *c < n - 1).collect::<Vec<_>>(), element("div", &[]))).collect() };
    assert_eq!(elements_by_tag_name(&t2, 0, "p", false), Ok(vec![]));
}

#[test]
fn search_fails_past_the_result_limit() {
    let n = MAX_SEARCH_RESULTS + 2;
    let mut nodes = vec![node(None, &(1..n).collect::<Vec<_>>(), element("div", &[]))];
    for _ in 1..n {
        nodes.push(node(Some(0), &[], element("p", &[("class", "x")])));
    }
    let t = NodeTree { nodes };
    assert_eq!(elements_by_tag_name(&t, 0, "p", false), Err(SearchError::ResultLimit));
    assert_eq!(elements_by_class_name(&t, 0, "x", false), Err(SearchError::ResultLimit));
    assert_eq!(elements_by_tag_name(&t, 0, "p", false).is_err(), true);
    let ok = elements_by_tag_name(&t, 1, "p", true).unwrap();
    assert_eq!(ok, vec![1]);
}

#[test]
fn first_selected_option() {
    let t = sample();
    assert_eq!(selected_option(&t, 9), Some(11));
    assert_eq!(selected_option(&t, 3), None);
}

#[test]
fn labels_by_for_then_ancestors() {
    let t = sample();
    assert_eq!(labels(&t, 0, 5), vec![4]);
    assert_eq!(labels(&t, 0, 7), vec![6]);
    assert_eq!(labels(&t, 0, 10), Vec::<usize>::new());
}

#[test]
fn named_items() {
    let t = sample();
    let items = vec![4, 5, 7];
    assert_eq!(named_item(&t, &items, "name"), Some(5));
    assert_eq!(named_item(&t, &items, "user"), Some(5));
    assert_eq!(named_item(&t, &items, "nobody"), None);
    assert_eq!(named_item(&t, &items, ""), None);
}

#[test]
fn first_element_by_tag() {
    let t = sample();
    assert_eq!(first_by_tag(&t, 0, "body"), Some(2));
    assert_eq!(first_by_tag(&t, 0, "html"), Some(1));
    assert_eq!(first_by_tag(&t, 0, "head"), None);
    assert_eq!(first_by_tag(&t, 1, "html"), Some(1));
}

#[test]
fn title_goes_to_the_first_title_else_head_else_html_else_root() {
    let t = sample();
    assert_eq!(title_target(&t, 0), TitleTarget::AppendTo(1));
    let with_head = NodeTree {
        nodes: vec![
            node(None, &[1], None),
            node(Some(0), &[2], element("html", &[])),
            node(Some(1), &[3], element("head", &[])),
            node(Some(2), &[], element("title", &[])),
        ],
    };
    assert_eq!(title_target(&with_head, 0), TitleTarget::Existing(3));
    let head_only = NodeTree { nodes: with_head.nodes[..3].iter().map(|x| node(x.parent, &x.children.iter().copied().filter(|c| *c < 3).collect::<Vec<_>>(), x.element.as_ref().map(|e| ElementData { tag: e.tag.clone(), attributes: vec![] }))).collect() };
    assert_eq!(title_target(&head_only, 0), TitleTarget::AppendTo(2));
    let bare = NodeTree { nodes: vec![node(None, &[], None)] };
    assert_eq!(title_target(&bare, 0), TitleTarget::AppendTo(0));
}

#[test]
fn live_collection_keys() {
    assert_eq!(collection_key("length"), CollectionKey::Length);
    assert_eq!(collection_key("item"), CollectionKey::Item);
    assert_eq!(collection_key("namedItem"), CollectionKey::NamedItem);
    assert_eq!(collection_key("3"), CollectionKey::Index(3));
    assert_eq!(collection_key("+3"), CollectionKey::Index(3));
    assert_eq!(collection_key("-1"), CollectionKey::Other);
    assert_eq!(collection_key("x"), CollectionKey::Other);
    assert!(collection_has("length", 0));
    assert!(collection_has("2", 3));
    assert!(!collection_has("3", 3));
    assert!(!collection_has("foo", 3));
}

#[test]
fn live_collections_rerun_their_query() {
    let mut t = sample();
    let q = LiveQuery::Tag("input".to_string());
    assert_eq!(resolve_live(&t, 0, &q, true), vec![5, 7]);
    t.nodes[3].children.retain(|c| *c != 6);
    assert_eq!(resolve_live(&t, 0, &q, true), vec![5]);
    assert_eq!(resolve_live(&t, 0, &LiveQuery::Class(" ".to_string()), true), Vec::<usize>::new());
    assert_eq!(resolve_live(&t, 0, &LiveQuery::Class("a".to_string()), true), vec![5]);
    let broken = NodeTree { nodes: vec![node(None, &[9], None)] };
    assert_eq!(resolve_live(&broken, 0, &q, true), Vec::<usize>::new());
}

#[test]
fn selector_limits() {
    assert!(!selector_fits(""));
    assert!(selector_fits("div > p"));
    assert!(selector_fits(&"a".repeat(1024)));
    assert!(!selector_fits(&"a".repeat(1025)));
    assert!(!selector_fits(&"é".repeat(513)));
}

#[test]
fn selector_search_uses_the_given_matches() {
    let t = sample();
    let mut matched: Vec<Option<bool>> = vec![Some(false); 13];
    matched[5] = Some(true);
    matched[7] = Some(true);
    matched[8] = None; // a text node: never consulted
    assert_eq!(elements_matching(&t, 0, false, matched.clone()), Ok(vec![5, 7]));
    assert_eq!(elements_matching(&t, 6, false, matched.clone()), Ok(vec![7]));
    matched[10] = None;
    assert_eq!(elements_matching(&t, 0, false, matched.clone()), Err(SearchError::InvalidAncestry));
    assert_eq!(elements_matching(&t, 3, false, matched.clone()), Ok(vec![5, 7]));
    assert_eq!(elements_matching(&t, 0, false, vec![Some(false); 3]), Err(SearchError::InvalidAncestry));
}

#[test]
fn matches_and_closest() {
    let t = sample();
    let mut matched: Vec<Option<bool>> = vec![Some(false); 13];
    matched[3] = Some(true);
    assert_eq!(matches_selector(&t, 3, &matched), Ok(true));
    assert_eq!(matches_selector(&t, 7, &matched), Ok(false));
    assert_eq!(matches_selector(&t, 8, &vec![]), Ok(false));
    assert_eq!(matches_selector(&t, 7, &vec![]), Err(SearchError::InvalidAncestry));
    assert_eq!(closest(&t, 7, &matched), Ok(Some(3)));
    assert_eq!(closest(&t, 3, &matched), Ok(Some(3)));
    assert_eq!(closest(&t, 10, &matched), Ok(None));
    matched[6] = None;
    assert_eq!(closest(&t, 7, &matched), Err(SearchError::InvalidAncestry));
}

#[test]
fn closest_gives_up_after_4096_nodes() {
    let n = 5000;
    let nodes: Vec<TreeNode> = (0..n)
        .map(|i| node(if i == 0 { None } else { Some(i - 1) }, &[], element("div", &[])))
        .collect();
    let t = NodeTree { nodes };
    let matched = vec![Some(false); n];
    assert_eq!(closest(&t, n - 1, &matched), Err(SearchError::TraversalLimit));
    assert_eq!(closest(&t, 4095, &matched), Ok(None));
    let mut at_root = matched.clone();
    at_root[0] = Some(true);
    assert_eq!(closest(&t, 4095, &at_root), Ok(Some(0)));
    assert_eq!(closest(&t, 4096, &at_root), Err(SearchError::TraversalLimit));
}
