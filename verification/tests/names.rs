use atomic_runtime::names::{
    adjacent_insertion_point, attribute_value_fits, check_set_attribute, class_for_tag, insertion_point,
    node_name, node_type_number, parse_adjacent_position, resolve_class_id, valid_attribute_name,
    valid_tag_name, parse_shadow_mode, shadow_mode_name, shadow_root_exposed, ShadowMode, AdjacentError, AdjacentPosition, AttributeError, ClassKind, InsertionPoint, NodeKind,
};

#[test]
fn tag_names() {
    assert!(valid_tag_name("div"));
    assert!(valid_tag_name("my-element2"));
    assert!(!valid_tag_name(""));
    assert!(!valid_tag_name("a b"));
    assert!(!valid_tag_name("a_b"));
    assert!(!valid_tag_name("é"));
    assert!(valid_tag_name(&"a".repeat(64)));
    assert!(!valid_tag_name(&"a".repeat(65)));
}

#[test]
fn attribute_names() {
    assert!(valid_attribute_name("data-x_y:z"));
    assert!(!valid_attribute_name("a=b"));
    assert!(!valid_attribute_name(""));
    assert!(!valid_attribute_name(&"a".repeat(65)));
}

#[test]
fn attribute_writes() {
    assert_eq!(check_set_attribute("id", "x"), Ok(()));
    assert_eq!(check_set_attribute("bad name", "x"), Err(AttributeError::InvalidName));
    assert_eq!(check_set_attribute("id", &"x".repeat(4097)), Err(AttributeError::ValueTooLong));
    assert!(attribute_value_fits(&"x".repeat(4096)));
    assert!(!attribute_value_fits(&"é".repeat(2049)));
}

#[test]
fn node_kinds() {
    assert_eq!(node_type_number(&NodeKind::Element("p".into())), 1);
    assert_eq!(node_type_number(&NodeKind::Text), 3);
    assert_eq!(node_type_number(&NodeKind::Comment), 8);
    assert_eq!(node_type_number(&NodeKind::Document), 9);
    assert_eq!(node_type_number(&NodeKind::DocumentFragment), 11);
    assert_eq!(node_name(&NodeKind::Element("my-div".into())), "MY-DIV");
    assert_eq!(node_name(&NodeKind::Text), "#text");
    assert_eq!(node_name(&NodeKind::Document), "#document");
    assert_eq!(node_name(&NodeKind::Comment), "#comment");
    assert_eq!(node_name(&NodeKind::DocumentFragment), "#document-fragment");
}

#[test]
fn class_kinds() {
    assert_eq!(class_for_tag("input"), ClassKind::HTMLInputElement);
    assert_eq!(class_for_tag("a"), ClassKind::HTMLAnchorElement);
    assert_eq!(class_for_tag("select"), ClassKind::HTMLSelectElement);
    assert_eq!(class_for_tag("INPUT"), ClassKind::HTMLElement);
    assert_eq!(class_for_tag("div"), ClassKind::HTMLElement);
    assert_eq!(resolve_class_id(5, 3, 1), 5);
    assert_eq!(resolve_class_id(0, 3, 1), 3);
    assert_eq!(resolve_class_id(0, 0, 1), 1);
}

#[test]
fn adjacent_positions() {
    assert_eq!(parse_adjacent_position("afterend"), Some(AdjacentPosition::AfterEnd));
    assert_eq!(parse_adjacent_position("AfterEnd"), None);
    assert_eq!(
        adjacent_insertion_point(AdjacentPosition::BeforeBegin, 7, None, None, None),
        Err(AdjacentError::NoParent)
    );
    assert_eq!(
        adjacent_insertion_point(AdjacentPosition::AfterEnd, 7, Some(1), None, Some(8)),
        Ok(InsertionPoint::Before(8))
    );
    assert_eq!(
        adjacent_insertion_point(AdjacentPosition::AfterEnd, 7, Some(1), None, None),
        Ok(InsertionPoint::AppendTo(1))
    );
    assert_eq!(
        adjacent_insertion_point(AdjacentPosition::AfterBegin, 7, None, Some(9), None),
        Ok(InsertionPoint::Before(9))
    );
    assert_eq!(
        adjacent_insertion_point(AdjacentPosition::BeforeEnd, 7, None, Some(9), None),
        Ok(InsertionPoint::AppendTo(7))
    );
    assert_eq!(insertion_point(None, 4), InsertionPoint::AppendTo(4));
}

#[test]
fn shadow_modes() {
    assert_eq!(parse_shadow_mode(Some("open")), Some(ShadowMode::Open));
    assert_eq!(parse_shadow_mode(Some("closed")), Some(ShadowMode::Closed));
    assert_eq!(parse_shadow_mode(Some("Open")), None);
    assert_eq!(parse_shadow_mode(None), None);
    assert_eq!(shadow_mode_name(ShadowMode::Closed), "closed");
    assert_eq!(shadow_mode_name(ShadowMode::Open), "open");
    assert!(shadow_root_exposed(Some(ShadowMode::Open)));
    assert!(!shadow_root_exposed(Some(ShadowMode::Closed)));
    assert!(!shadow_root_exposed(None));
}
