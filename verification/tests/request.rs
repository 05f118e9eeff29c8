use atomic_runtime::form_data::{EntryValue, FormData};
use atomic_runtime::request::{
    classify_completion, ready_state_number, request_from_init, BodyInit, Completion, ReadyState, Xhr,
    XhrBody,
};

fn h(pairs: &[(&str, &str)]) -> Vec<(String, String)> {
    pairs.iter().map(|(a, b)| (a.to_string(), b.to_string())).collect()
}

#[test]
fn method_defaults_and_uppercases() {
    assert_eq!(request_from_init(None, vec![], BodyInit::Absent).method, "GET");
    assert_eq!(request_from_init(Some("".into()), vec![], BodyInit::Absent).method, "GET");
    assert_eq!(request_from_init(Some("pAtch".into()), vec![], BodyInit::Absent).method, "PATCH");
}

#[test]
fn text_body_gets_default_content_type() {
    let r = request_from_init(Some("post".into()), h(&[("X-A", "1")]), BodyInit::Text("hé".into()));
    assert_eq!(r.headers, h(&[("X-A", "1"), ("Content-Type", "text/plain;charset=UTF-8")]));
    assert_eq!(r.body, Some("hé".as_bytes().to_vec()));
}

#[test]
fn explicit_content_type_is_kept() {
    let r = request_from_init(None, h(&[("content-TYPE", "application/json")]), BodyInit::Text("{}".into()));
    assert_eq!(r.headers, h(&[("content-TYPE", "application/json")]));
}

#[test]
fn form_body_gets_multipart_type() {
    let mut f = FormData::new();
    f.append("a".into(), EntryValue::Text("b".into()));
    let ser = f.serialize(3);
    let ct = ser.content_type.clone();
    let body = ser.body.clone();
    let r = request_from_init(None, vec![], BodyInit::Form(ser));
    assert_eq!(r.headers, vec![("Content-Type".to_string(), ct)]);
    assert_eq!(r.body, Some(body));
}

#[test]
fn referrer_goes_last() {
    let mut r = request_from_init(None, h(&[("A", "1")]), BodyInit::Absent);
    r.push_referrer(Some("https://x/".into()));
    assert_eq!(r.headers, h(&[("A", "1"), ("Referer", "https://x/")]));
    r.push_referrer(None);
    assert_eq!(r.headers.len(), 2);
}

#[test]
fn xhr_lifecycle() {
    let mut x = Xhr::new();
    assert_eq!(ready_state_number(x.ready_state), 0);
    let (url, unopened) = x.send_request(XhrBody::Absent);
    assert_eq!(url, "undefined");
    assert_eq!(unopened.method, "GET");
    assert_eq!(unopened.body, None);
    x.open(true, Some("post".into()), Some("https://e/".into()));
    assert_eq!(x.ready_state, ReadyState::Opened);
    assert_eq!(ready_state_number(x.ready_state), 1);
    assert_eq!(x.method.as_deref(), Some("POST"));
    x.set_request_header("A".into(), "1".into());
    x.set_request_header("B".into(), "2".into());
    x.set_request_header("A".into(), "3".into());
    assert_eq!(x.headers, h(&[("A", "3"), ("B", "2")]));
    let (url, req) = x.send_request(XhrBody::Text("hi".into()));
    assert_eq!(url, "https://e/");
    assert_eq!(req.method, "POST");
    assert_eq!(req.headers, h(&[("A", "3"), ("B", "2")]));
    assert_eq!(req.body, Some(b"hi".to_vec()));
    match x.complete(Ok((200, "done".into()))) {
        Completion::Load { status, text } => {
            assert_eq!(status, 200);
            assert_eq!(text, "done");
        }
        Completion::Error(_) => panic!("expected load"),
    }
    assert_eq!(ready_state_number(x.ready_state), 4);
    assert_eq!(x.status, 200);
    assert_eq!(x.response_text, "done");
}

#[test]
fn xhr_open_without_both_args() {
    let mut x = Xhr::new();
    x.open(false, Some("put".into()), None);
    assert_eq!(x.method, None);
    assert_eq!(x.ready_state, ReadyState::Opened);
    x.open(true, Some("get".into()), Some("u".into()));
    let (url, req) = x.send_request(XhrBody::Absent);
    assert_eq!(url, "u");
    assert_eq!(req.method, "GET");
    assert_eq!(req.body, None);
}

#[test]
fn xhr_error_keeps_status() {
    let mut x = Xhr::new();
    x.open(true, None, Some("u".into()));
    match x.complete(Err("network down".into())) {
        Completion::Error(m) => assert_eq!(m, "network down"),
        Completion::Load { .. } => panic!("expected error"),
    }
    assert_eq!(x.status, 0);
    assert_eq!(ready_state_number(x.ready_state), 4);
}

#[test]
fn completion_classification() {
    assert_eq!(classify_completion(Ok((200, "b".into())), true), Ok((200, "b".to_string())));
    assert_eq!(
        classify_completion(Ok((200, "b".into())), false),
        Err("blocked by CORS: no matching Access-Control-Allow-Origin".to_string())
    );
    assert_eq!(classify_completion(Err("e".into()), false), Err("e".to_string()));
}

#[test]
fn xhr_headers_listed_in_script_key_order() {
    let mut x = Xhr::new();
    x.open(true, Some("get".into()), Some("https://e/".into()));
    for (name, value) in [
        ("b", "B"),
        ("2", "two"),
        ("01", "lead"),
        ("1", "one"),
        ("__proto__", "ignored"),
        ("10", "ten"),
        ("4294967295", "big"),
        ("4294967294", "max"),
        ("a", "A"),
        ("2", "TWO"),
    ] {
        x.set_request_header(name.into(), value.into());
    }
    assert_eq!(
        x.headers,
        h(&[
            ("b", "B"),
            ("2", "TWO"),
            ("01", "lead"),
            ("1", "one"),
            ("10", "ten"),
            ("4294967295", "big"),
            ("4294967294", "max"),
            ("a", "A"),
        ])
    );
    let (_, req) = x.send_request(XhrBody::Absent);
    assert_eq!(
        req.headers,
        h(&[
            ("1", "one"),
            ("2", "TWO"),
            ("10", "ten"),
            ("4294967294", "max"),
            ("b", "B"),
            ("01", "lead"),
            ("4294967295", "big"),
            ("a", "A"),
        ])
    );
}

#[test]
fn proto_header_is_dropped() {
    let mut x = Xhr::new();
    x.set_request_header("__proto__".into(), "v".into());
    assert!(x.headers.is_empty());
    x.set_request_header("__proto__x".into(), "v".into());
    assert_eq!(x.headers, h(&[("__proto__x", "v")]));
}

#[test]
fn form_body_content_type_follows_ordered_headers() {
    let mut fd = FormData::new();
    fd.append("k".into(), EntryValue::Text("v".into()));
    let mut x = Xhr::new();
    x.open(true, Some("post".into()), Some("https://e/".into()));
    x.set_request_header("z".into(), "1".into());
    x.set_request_header("7".into(), "2".into());
    let (_, req) = x.send_request(XhrBody::Form(fd.serialize(7)));
    assert_eq!(req.headers[0], ("7".to_string(), "2".to_string()));
    assert_eq!(req.headers[1], ("z".to_string(), "1".to_string()));
    assert_eq!(req.headers[2].0, "Content-Type");
}
