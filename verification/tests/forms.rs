use atomic_runtime::forms::{
    flags_are_valid, length_limit, selected_index, selection_after_end_set, selection_after_start_set,
    selection_range_args, select_value, set_select_value, set_selected_index, validity_flags, will_validate,
};

#[test]
fn length_limits_parse_like_i64() {
    assert_eq!(length_limit(Some(" 5 ")), Some(5));
    assert_eq!(length_limit(Some("+7")), Some(7));
    assert_eq!(length_limit(Some("-0")), Some(0));
    assert_eq!(length_limit(Some("-1")), None);
    assert_eq!(length_limit(Some("5x")), None);
    assert_eq!(length_limit(Some("")), None);
    assert_eq!(length_limit(Some("+")), None);
    assert_eq!(length_limit(Some("9223372036854775807")), Some(i64::MAX));
    assert_eq!(length_limit(Some("9223372036854775808")), None);
    assert_eq!(length_limit(Some("\u{3000}12\u{00A0}")), Some(12));
    assert_eq!(length_limit(None), None);
}

#[test]
fn validity_flags_computed() {
    let f = validity_flags("", true, Some("3"), Some("2"), false);
    assert!(f.value_missing && !f.too_long && !f.too_short);
    assert!(!flags_are_valid(&f));
    let f = validity_flags("héllo", false, Some("4"), None, false);
    assert!(f.too_long && !f.too_short && !f.value_missing);
    let f = validity_flags("héllo", false, Some("5"), Some("6"), false);
    assert!(!f.too_long && f.too_short);
    let f = validity_flags("ok", false, Some("x"), Some(" "), false);
    assert!(flags_are_valid(&f));
    let f = validity_flags("ok", false, None, None, true);
    assert!(f.custom_error && !flags_are_valid(&f));
}

#[test]
fn will_validate_rule() {
    assert!(will_validate("input", false));
    assert!(will_validate("select", false));
    assert!(will_validate("textarea", false));
    assert!(!will_validate("textarea", true));
    assert!(!will_validate("button", false));
    assert!(!will_validate("INPUT", false));
}

#[test]
fn selected_index_reads_first_selected() {
    assert_eq!(selected_index(&vec![false, true, true]), Some(1));
    assert_eq!(selected_index(&vec![false, false]), None);
    assert_eq!(selected_index(&vec![]), None);
}

#[test]
fn set_selected_index_selects_exactly_one() {
    assert_eq!(set_selected_index(3, 1), vec![false, true, false]);
    assert_eq!(set_selected_index(3, 3), vec![false, false, false]);
    assert_eq!(set_selected_index(3, -1), vec![false, false, false]);
    let s = set_selected_index(4, 2);
    assert_eq!(selected_index(&s), Some(2));
}

#[test]
fn select_value_round_trip() {
    let values: Vec<String> = vec!["a".into(), "b".into(), "b".into()];
    let sel = set_select_value(&values, "b");
    assert_eq!(sel, vec![false, true, false]);
    assert_eq!(select_value(&values, &sel), "b");
    let none = set_select_value(&values, "zz");
    assert_eq!(none, vec![false, false, false]);
    assert_eq!(select_value(&values, &none), "");
}

#[test]
fn selection_setters() {
    assert_eq!(selection_after_start_set(3, 5), (5, 5));
    assert_eq!(selection_after_start_set(8, 5), (5, 8));
    assert_eq!(selection_after_end_set(4, 2), (2, 2));
    assert_eq!(selection_after_end_set(1, 2), (1, 2));
    let r = selection_range_args(None, None, None);
    assert_eq!((r.start, r.end, r.direction.as_str()), (0, 0, "none"));
    let r = selection_range_args(Some(3), None, Some("backward".into()));
    assert_eq!((r.start, r.end, r.direction.as_str()), (3, 3, "backward"));
    let r = selection_range_args(Some(3), Some(1), None);
    assert_eq!((r.start, r.end), (3, 1));
}
