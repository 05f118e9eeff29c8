use atomic_runtime::form_data::{
    boundary_for, escape_quotes_exec, option_effective_value, EntryValue, FormControl, FormData,
};

fn text(s: &str) -> EntryValue {
    EntryValue::Text(s.to_string())
}

fn value_text(v: &EntryValue) -> &str {
    match v {
        EntryValue::Text(t) => t,
        EntryValue::File { .. } => panic!("file entry"),
    }
}

#[test]
fn append_keeps_order_and_duplicates() {
    let mut f = FormData::new();
    f.append("a".into(), text("1"));
    f.append("b".into(), text("2"));
    f.append("a".into(), text("3"));
    assert_eq!(f.len(), 3);
    assert_eq!(f.indices_of("a"), vec![0, 2]);
    assert_eq!(f.first_index_of("a"), Some(0));
    assert_eq!(value_text(&f.entry(2).value), "3");
    assert!(f.has("b"));
    assert!(!f.has("c"));
    assert_eq!(f.first_index_of("c"), None);
}

#[test]
fn set_replaces_all_with_one_at_end() {
    let mut f = FormData::new();
    f.append("a".into(), text("1"));
    f.append("b".into(), text("2"));
    f.append("a".into(), text("3"));
    f.set("a".into(), text("9"));
    assert_eq!(f.len(), 2);
    assert_eq!(f.entry(0).name, "b");
    assert_eq!(f.entry(1).name, "a");
    assert_eq!(value_text(&f.entry(1).value), "9");
    assert_eq!(f.indices_of("a"), vec![1]);
}

#[test]
fn set_with_rejected_value_still_deletes() {
    let mut f = FormData::new();
    f.append("a".into(), text("1"));
    f.set("a".into(), text(&"x".repeat(65537)));
    assert_eq!(f.len(), 0);
}

#[test]
fn delete_removes_every_match() {
    let mut f = FormData::new();
    f.append("a".into(), text("1"));
    f.append("b".into(), text("2"));
    f.append("a".into(), text("3"));
    f.delete("a");
    assert_eq!(f.len(), 1);
    assert!(!f.has("a"));
    assert_eq!(f.entry(0).name, "b");
}

#[test]
fn bounds_are_enforced() {
    let mut f = FormData::new();
    assert!(!f.push_entry("".into(), text("x")));
    assert!(!f.push_entry("n".repeat(1025), text("x")));
    assert!(f.push_entry("n".repeat(1024), text("x")));
    assert!(!f.push_entry("v".into(), text(&"x".repeat(65537))));
    assert!(f.push_entry("v".into(), text(&"x".repeat(65536))));
    let file = |name: &str| EntryValue::File { bytes: vec![1], mime: String::new(), filename: Some(name.to_string()) };
    assert!(!f.push_entry("f".into(), file(&"z".repeat(256))));
    assert!(f.push_entry("f".into(), file(&"z".repeat(255))));
    assert!(f.push_entry("g".into(), EntryValue::File { bytes: vec![], mime: String::new(), filename: None }));
    assert_eq!(f.len(), 4);
    for _ in 4..1000 {
        assert!(f.push_entry("k".into(), text("")));
    }
    assert!(!f.push_entry("k".into(), text("")));
    assert_eq!(f.len(), 1000);
}

#[test]
fn snapshot_is_independent() {
    let mut f = FormData::new();
    f.append("a".into(), text("1"));
    let snap = f.snapshot();
    f.delete("a");
    assert_eq!(snap.len(), 1);
    assert_eq!(snap[0].name, "a");
    assert_eq!(value_text(&snap[0].value), "1");
}

#[test]
fn boundary_format() {
    assert_eq!(boundary_for(1), "----nimbleFormData0000000000000001");
    assert_eq!(boundary_for(0xdeadbeef), "----nimbleFormData00000000deadbeef");
    assert_eq!(boundary_for(u64::MAX), "----nimbleFormDataffffffffffffffff");
}

#[test]
fn quotes_are_escaped() {
    assert_eq!(escape_quotes_exec("a\"b\"\""), "a%22b%22%22");
    assert_eq!(escape_quotes_exec("plain"), "plain");
}

#[test]
fn multipart_text_and_file() {
    let mut f = FormData::new();
    f.append("na\"me".into(), text("héllo"));
    f.append(
        "upload".into(),
        EntryValue::File { bytes: vec![0, 255, 10], mime: String::new(), filename: None },
    );
    f.append(
        "empty".into(),
        EntryValue::File { bytes: vec![7], mime: String::new(), filename: Some(String::new()) },
    );
    f.append(
        "doc".into(),
        EntryValue::File { bytes: b"hi".to_vec(), mime: "text/plain".into(), filename: Some("a\"b.txt".into()) },
    );
    let s = f.serialize(2);
    let b = "----nimbleFormData0000000000000002";
    assert_eq!(s.content_type, format!("multipart/form-data; boundary={b}"));
    let mut want: Vec<u8> = Vec::new();
    want.extend_from_slice(format!("--{b}\r\nContent-Disposition: form-data; name=\"na%22me\"\r\n\r\n").as_bytes());
    want.extend_from_slice("héllo".as_bytes());
    want.extend_from_slice(b"\r\n");
    want.extend_from_slice(
        format!("--{b}\r\nContent-Disposition: form-data; name=\"upload\"; filename=\"blob\"\r\nContent-Type: application/octet-stream\r\n\r\n").as_bytes(),
    );
    want.extend_from_slice(&[0, 255, 10]);
    want.extend_from_slice(b"\r\n");
    want.extend_from_slice(
        format!("--{b}\r\nContent-Disposition: form-data; name=\"empty\"; filename=\"\"\r\nContent-Type: application/octet-stream\r\n\r\n").as_bytes(),
    );
    want.extend_from_slice(&[7]);
    want.extend_from_slice(b"\r\n");
    want.extend_from_slice(
        format!("--{b}\r\nContent-Disposition: form-data; name=\"doc\"; filename=\"a%22b.txt\"\r\nContent-Type: text/plain\r\n\r\n").as_bytes(),
    );
    want.extend_from_slice(b"hi\r\n");
    want.extend_from_slice(format!("--{b}--\r\n").as_bytes());
    assert_eq!(s.body, want);
}

#[test]
fn empty_form_serializes_closing_line_only() {
    let s = FormData::new().serialize(0);
    assert_eq!(s.body, b"------nimbleFormData0000000000000000--\r\n".to_vec());
}

fn control(tag: &str, name: Option<&str>) -> FormControl {
    FormControl {
        tag: tag.into(),
        name: name.map(|s| s.to_string()),
        disabled: false,
        type_attr: None,
        checked: false,
        value_attr: None,
        current_value: String::new(),
        selected_option_value: None,
    }
}

#[test]
fn controls_populate_entries() {
    let mut text_input = control("input", Some("q"));
    text_input.current_value = "typed".into();
    let mut unnamed = control("input", None);
    unnamed.current_value = "x".into();
    let mut empty_name = control("input", Some(""));
    empty_name.current_value = "x".into();
    let mut disabled = control("input", Some("d"));
    disabled.disabled = true;
    let mut cb_on = control("input", Some("cb"));
    cb_on.type_attr = Some("CheckBox".into());
    cb_on.checked = true;
    let mut cb_off = control("input", Some("cb2"));
    cb_off.type_attr = Some("checkbox".into());
    let mut radio = control("input", Some("r"));
    radio.type_attr = Some("radio".into());
    radio.checked = true;
    radio.value_attr = Some("blue".into());
    let mut select = control("select", Some("s"));
    select.selected_option_value = Some("opt".into());
    let select_none = control("select", Some("s2"));
    let mut area = control("textarea", Some("t"));
    area.current_value = "body".into();
    let f = FormData::from_controls(&vec![
        text_input, unnamed, empty_name, disabled, cb_on, cb_off, radio, select, select_none, area,
    ]);
    let got: Vec<(String, String)> = (0..f.len())
        .map(|i| (f.entry(i).name.clone(), value_text(&f.entry(i).value).to_string()))
        .collect();
    let want: Vec<(String, String)> = vec![
        ("q", "typed"),
        ("cb", "on"),
        ("r", "blue"),
        ("s", "opt"),
        ("t", "body"),
    ]
    .into_iter()
    .map(|(a, b)| (a.to_string(), b.to_string()))
    .collect();
    assert_eq!(got, want);
}

#[test]
fn option_value_falls_back_to_text() {
    assert_eq!(option_effective_value(Some("v"), "text"), "v");
    assert_eq!(option_effective_value(None, "text"), "text");
    assert_eq!(option_effective_value(Some(""), "text"), "");
}

#[test]
fn serializations_get_distinct_boundaries() {
    let ids = [0u64, 1, 15, 16, 255, 256, 0x1000, u64::MAX - 1, u64::MAX];
    for a in ids {
        for b in ids {
            assert_eq!(boundary_for(a) == boundary_for(b), a == b);
        }
    }
}
