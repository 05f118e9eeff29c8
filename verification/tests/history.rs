use atomic_runtime::history::{HistoryError, SessionHistory};
use atomic_runtime::urls::{pick_resolved_url, resolve_url, ParsedUrl};

#[test]
fn fresh_history_has_one_entry() {
    let h: SessionHistory<u32> = SessionHistory::new(0);
    assert_eq!(h.len(), 1);
    assert_eq!(h.index(), 0);
    assert_eq!(h.current().url, None);
}

#[test]
fn push_truncates_forward_entries() {
    let mut h = SessionHistory::new(0u32);
    h.push(1, Some("a".into())).unwrap();
    h.push(2, Some("b".into())).unwrap();
    assert_eq!(h.go_by(-2), Some(0));
    h.push(3, Some("c".into())).unwrap();
    assert_eq!(h.len(), 2);
    assert_eq!(h.index(), 1);
    assert_eq!(h.current().state, 3);
}

#[test]
fn push_then_back_returns() {
    let mut h = SessionHistory::new(10u32);
    h.push(11, None).unwrap();
    assert_eq!(h.go_by(-1), Some(0));
    assert_eq!(h.current().state, 10);
    assert_eq!(h.go_by(1), Some(1));
    assert_eq!(h.current().state, 11);
}

#[test]
fn go_out_of_range_is_noop() {
    let mut h = SessionHistory::new(0u32);
    h.push(1, None).unwrap();
    assert_eq!(h.go_by(1), None);
    assert_eq!(h.go_by(-5), None);
    assert_eq!(h.go_by(0), None);
    assert_eq!(h.go_by(i64::MIN), None);
    assert_eq!(h.go_by(i64::MAX), None);
    assert_eq!(h.index(), 1);
}

#[test]
fn replace_keeps_shape() {
    let mut h = SessionHistory::new(0u32);
    h.push(1, None).unwrap();
    h.replace(9, Some("x".into()));
    assert_eq!(h.len(), 2);
    assert_eq!(h.index(), 1);
    assert_eq!(h.current().state, 9);
    assert_eq!(h.current().url.as_deref(), Some("x"));
}

#[test]
fn push_limit() {
    let mut h = SessionHistory::new(0u32);
    for i in 1..1000 {
        assert_eq!(h.push(i, None), Ok(()));
    }
    assert_eq!(h.len(), 1000);
    assert_eq!(h.push(5000, None), Err(HistoryError::LimitExceeded));
    assert_eq!(h.go_by(-999), Some(0));
    assert_eq!(h.push(5000, None), Err(HistoryError::LimitExceeded));
}

#[test]
fn resolve_relative_against_location() {
    let base = ParsedUrl::parse("https://example.com/dir/page.html").unwrap();
    assert_eq!(resolve_url(Some(&base), Some("next")), Some("https://example.com/dir/next".to_string()));
    assert_eq!(resolve_url(Some(&base), Some("?q=1")), Some("https://example.com/dir/page.html?q=1".to_string()));
}

#[test]
fn resolve_without_argument_keeps_location() {
    let base = ParsedUrl::parse("https://example.com").unwrap();
    assert_eq!(base.text(), "https://example.com/");
    assert_eq!(resolve_url(Some(&base), None), Some("https://example.com/".to_string()));
    assert_eq!(resolve_url(None, None), None);
}

#[test]
fn resolve_absolute_without_location() {
    assert_eq!(resolve_url(None, Some("HTTP://Example.COM/a")), Some("http://example.com/a".to_string()));
}

#[test]
fn resolve_keeps_non_url_text() {
    assert_eq!(resolve_url(None, Some("not a url")), Some("not a url".to_string()));
}

#[test]
fn parse_refuses_relative() {
    assert!(ParsedUrl::parse("relative/path").is_none());
}

#[test]
fn pick_prefers_joined_then_parsed_then_raw() {
    assert_eq!(pick_resolved_url(Some("j".into()), Some("p".into()), "r"), "j");
    assert_eq!(pick_resolved_url(None, Some("p".into()), "r"), "p");
    assert_eq!(pick_resolved_url(None, None, "r"), "r");
}
