use atomic_runtime::dataset::{dataset_entries, dataset_key, kebab_to_camel, stale_keys};

#[test]
fn camel_case_conversion() {
    assert_eq!(kebab_to_camel("foo-bar"), "fooBar");
    assert_eq!(kebab_to_camel("foo--bar"), "fooBar");
    assert_eq!(kebab_to_camel("foo-"), "foo");
    assert_eq!(kebab_to_camel("-x1"), "X1");
    assert_eq!(kebab_to_camel("a-1b"), "a1b");
    assert_eq!(kebab_to_camel("a-ßb"), "aSSb");
}

#[test]
fn dataset_keys() {
    assert_eq!(dataset_key("data-user-id"), Some("userId".to_string()));
    assert_eq!(dataset_key("data-"), None);
    assert_eq!(dataset_key("data"), None);
    assert_eq!(dataset_key("aria-x"), None);
    assert_eq!(dataset_key("DATA-x"), None);
}

#[test]
fn dataset_entries_in_attribute_order() {
    let attrs: Vec<(String, String)> = vec![
        ("class".into(), "c".into()),
        ("data-a-b".into(), "1".into()),
        ("data-".into(), "2".into()),
        ("data-z".into(), "3".into()),
    ];
    assert_eq!(
        dataset_entries(&attrs),
        vec![("aB".to_string(), "1".to_string()), ("z".to_string(), "3".to_string())]
    );
}

#[test]
fn stale_keys_are_the_dropped_ones() {
    let prev: Vec<String> = vec!["a".into(), "b".into(), "c".into()];
    let cur: Vec<String> = vec!["b".into()];
    assert_eq!(stale_keys(&prev, &cur), vec!["a".to_string(), "c".to_string()]);
    assert_eq!(stale_keys(&cur, &prev), Vec::<String>::new());
}
