use atomic_runtime::class_list::{
    class_list_contains, class_list_mutate, class_list_replace, class_list_toggle, class_tokens,
    join_tokens, valid_class_token, ClassListError,
};

fn strings(v: &[&str]) -> Vec<String> {
    v.iter().map(|s| s.to_string()).collect()
}

#[test]
fn tokens_split_on_ascii_whitespace() {
    assert_eq!(class_tokens("  a\tb\nc\x0Cd\re  "), strings(&["a", "b", "c", "d", "e"]));
    assert_eq!(class_tokens(""), Vec::<String>::new());
    assert_eq!(class_tokens("   "), Vec::<String>::new());
    assert_eq!(class_tokens("a a"), strings(&["a", "a"]));
}

#[test]
fn vertical_tab_is_not_a_separator() {
    assert_eq!(class_tokens("a\x0Bb"), strings(&["a\x0Bb"]));
}

#[test]
fn non_ascii_tokens_survive() {
    assert_eq!(class_tokens("é\u{00A0}x y"), strings(&["é\u{00A0}x", "y"]));
}

#[test]
fn token_validity() {
    assert!(valid_class_token("foo"));
    assert!(!valid_class_token(""));
    assert!(!valid_class_token("a b"));
    assert!(!valid_class_token("a\tb"));
    assert!(valid_class_token(&"x".repeat(64)));
    assert!(!valid_class_token(&"x".repeat(65)));
    // 32 two-byte characters are 64 bytes; 33 are 66.
    assert!(valid_class_token(&"é".repeat(32)));
    assert!(!valid_class_token(&"é".repeat(33)));
}

#[test]
fn join_uses_single_spaces() {
    assert_eq!(join_tokens(&strings(&["a", "b", "c"])), "a b c");
    assert_eq!(join_tokens(&strings(&[])), "");
}

#[test]
fn add_appends_missing_tokens_once() {
    let r = class_list_mutate("  a   b ", &strings(&["c", "a", "c"]), true);
    assert_eq!(r, Ok("a b c".to_string()));
}

#[test]
fn add_is_idempotent() {
    let once = class_list_mutate("x", &strings(&["y", "z"]), true).unwrap();
    let twice = class_list_mutate(&once, &strings(&["y", "z"]), true).unwrap();
    assert_eq!(once, twice);
}

#[test]
fn add_result_reads_back_with_every_token() {
    let v = class_list_mutate("p q", &strings(&["r", "s"]), true).unwrap();
    let toks = class_tokens(&v);
    for t in ["p", "q", "r", "s"] {
        assert!(toks.contains(&t.to_string()));
    }
}

#[test]
fn remove_drops_every_occurrence() {
    let r = class_list_mutate("a b a c", &strings(&["a"]), false);
    assert_eq!(r, Ok("b c".to_string()));
    let r = class_list_mutate("a b", &strings(&["z"]), false);
    assert_eq!(r, Ok("a b".to_string()));
}

#[test]
fn mutate_rejects_invalid_tokens() {
    assert_eq!(
        class_list_mutate("a", &strings(&["ok", "bad token"]), true),
        Err(ClassListError::InvalidToken)
    );
    assert_eq!(class_list_mutate("a", &strings(&[""]), false), Err(ClassListError::InvalidToken));
}

#[test]
fn mutate_rejects_overlong_attribute() {
    let existing: Vec<String> = (0..100).map(|i| format!("t{:038}", i)).collect();
    let current = existing.join(" ");
    assert!(current.len() <= 4096);
    let more: Vec<String> = (0..10).map(|i| format!("u{:038}", i)).collect();
    assert_eq!(class_list_mutate(&current, &more, true), Err(ClassListError::TooLong));
}

#[test]
fn toggle_without_force_flips() {
    assert_eq!(class_list_toggle("a b", &"b".to_string(), None), Ok(("a".to_string(), false)));
    assert_eq!(class_list_toggle("a", &"b".to_string(), None), Ok(("a b".to_string(), true)));
}

#[test]
fn toggle_with_force() {
    assert_eq!(class_list_toggle("a", &"a".to_string(), Some(true)), Ok(("a".to_string(), true)));
    assert_eq!(class_list_toggle("a", &"b".to_string(), Some(false)), Ok(("a".to_string(), false)));
    assert_eq!(class_list_toggle("a b a", &"a".to_string(), Some(false)), Ok(("b".to_string(), false)));
    assert_eq!(class_list_toggle("a", &"x y".to_string(), None), Err(ClassListError::InvalidToken));
}

#[test]
fn toggle_twice_restores_presence() {
    let (v1, b1) = class_list_toggle("a", &"b".to_string(), None).unwrap();
    let (v2, b2) = class_list_toggle(&v1, &"b".to_string(), None).unwrap();
    assert!(b1 && !b2);
    assert_eq!(v2, "a");
}

#[test]
fn replace_first_occurrence_only() {
    assert_eq!(
        class_list_replace("a b a", &"a".to_string(), &"z".to_string()),
        Ok(Some("z b a".to_string()))
    );
    assert_eq!(class_list_replace("a b", &"c".to_string(), &"z".to_string()), Ok(None));
    assert_eq!(
        class_list_replace("a b", &"a".to_string(), &"".to_string()),
        Err(ClassListError::InvalidToken)
    );
}

#[test]
fn contains_checks_token_membership() {
    assert_eq!(class_list_contains(" a  b ", &"b".to_string()), Ok(true));
    assert_eq!(class_list_contains("ab", &"a".to_string()), Ok(false));
    assert_eq!(class_list_contains("a", &"a b".to_string()), Err(ClassListError::InvalidToken));
}
