use amlgen::{AmlError, Value, append_resource_tree, collect_child_resources, split_resources};

fn s(t: &str) -> Value {
    Value::String(t.to_string())
}

fn map(entries: Vec<(&str, Value)>) -> Value {
    Value::Mapping(entries.into_iter().map(|(k, v)| (s(k), v)).collect())
}

fn fields(d: &Value) -> &Vec<(Value, Value)> {
    match d {
        Value::Mapping(h) => h,
        _ => panic!("descriptor is not a mapping"),
    }
}

fn get<'a>(d: &'a Value, key: &str) -> &'a Value {
    &fields(d).iter().find(|(k, _)| *k == s(key)).expect("missing field").1
}

fn urls(v: &Value) -> Vec<String> {
    match v {
        Value::Sequence(items) => items
            .iter()
            .map(|d| match get(d, "url") {
                Value::String(u) => u.clone(),
                _ => panic!("url is not a string"),
            })
            .collect(),
        _ => panic!("not a sequence"),
    }
}

#[test]
fn scenario_dev_status() {
    let doc = map(vec![
        ("/dev", map(vec![("name", s("dev")), ("/status", map(vec![("name", s("status"))]))])),
        ("title", s("X")),
    ]);
    let mut header = Vec::new();
    let mut resources = Vec::new();
    assert!(split_resources(doc, &mut header, &mut resources).is_ok());
    assert_eq!(header, vec![(s("title"), s("X"))]);
    assert_eq!(resources.len(), 1);
    let status = map(vec![("name", s("status")), ("url", s("/dev/status"))]);
    let dev = map(vec![
        ("name", s("dev")),
        ("url", s("/dev")),
        ("child_resources", Value::Sequence(vec![status])),
    ]);
    assert_eq!(resources[0], dev);
}

#[test]
fn urls_compose_by_concatenation() {
    let doc = map(vec![(
        "/a",
        map(vec![("/b", map(vec![("/c", map(vec![("name", s("c"))]))]))]),
    )]);
    let mut header = Vec::new();
    let mut resources = Vec::new();
    assert!(split_resources(doc, &mut header, &mut resources).is_ok());
    assert!(header.is_empty());
    assert_eq!(get(&resources[0], "url"), &s("/a"));
    assert_eq!(urls(get(&resources[0], "child_resources")), vec!["/a/b/c", "/a/b"]);
}

#[test]
fn descendants_come_depth_first() {
    let tree = map(vec![
        ("/x", map(vec![("/x1", map(vec![("/x2", map(vec![]))]))])),
        ("/y", map(vec![("/y1", map(vec![]))])),
    ]);
    let mut out = Vec::new();
    append_resource_tree(tree, "/r", &mut out);
    assert_eq!(
        urls(get(&out[0], "child_resources")),
        vec!["/r/x/x1/x2", "/r/x/x1", "/r/x", "/r/y/y1", "/r/y"]
    );
}

#[test]
fn own_fields_are_copied_in_order() {
    let tree = map(vec![
        ("name", s("led")),
        ("/on", map(vec![])),
        ("type", s("quint8")),
        ("readonly", Value::Boolean(false)),
        ("width", Value::Integer(8)),
        ("gain", Value::Float("0.5".to_string())),
    ]);
    let mut out = Vec::new();
    append_resource_tree(tree, "/led", &mut out);
    let f = fields(&out[0]);
    assert_eq!(f.len(), 7);
    assert_eq!(f[0], (s("name"), s("led")));
    assert_eq!(f[1], (s("type"), s("quint8")));
    assert_eq!(f[2], (s("readonly"), Value::Boolean(false)));
    assert_eq!(f[3], (s("width"), Value::Integer(8)));
    assert_eq!(f[4], (s("gain"), Value::Float("0.5".to_string())));
    assert_eq!(f[5], (s("url"), s("/led")));
    assert_eq!(f[6].0, s("child_resources"));
}

#[test]
fn reserved_fields_are_overwritten() {
    let tree = map(vec![
        ("url", s("/old")),
        ("name", s("n")),
        ("child_resources", Value::Integer(3)),
    ]);
    let mut out = Vec::new();
    append_resource_tree(tree, "/new", &mut out);
    let expected = map(vec![
        ("name", s("n")),
        ("url", s("/new")),
        ("child_resources", Value::Sequence(vec![])),
    ]);
    assert_eq!(out, vec![expected]);
}

#[test]
fn nested_url_field_is_overwritten() {
    let mut out = Vec::new();
    collect_child_resources(map(vec![("url", s("/old")), ("k", s("v"))]), "/p", &mut out);
    assert_eq!(out, vec![map(vec![("k", s("v")), ("url", s("/p"))])]);
}

#[test]
fn non_mapping_resource_degrades() {
    let mut out = vec![s("before")];
    append_resource_tree(Value::Integer(5), "/n", &mut out);
    let expected = map(vec![("url", s("/n")), ("child_resources", Value::Sequence(vec![]))]);
    assert_eq!(out, vec![s("before"), expected]);
}

#[test]
fn non_mapping_child_yields_nothing() {
    let mut out = vec![s("before")];
    collect_child_resources(s("text"), "/c", &mut out);
    assert_eq!(out, vec![s("before")]);
    let tree = map(vec![("/bad", Value::Null), ("/good", map(vec![]))]);
    let mut top = Vec::new();
    append_resource_tree(tree, "/t", &mut top);
    assert_eq!(urls(get(&top[0], "child_resources")), vec!["/t/good"]);
}

#[test]
fn malformed_document_is_refused() {
    let mut header = vec![(s("kept"), Value::Null)];
    let mut resources = vec![s("kept")];
    let r = split_resources(Value::Sequence(vec![s("/a")]), &mut header, &mut resources);
    assert!(matches!(r, Err(AmlError::MalformedDocument)));
    assert_eq!(header, vec![(s("kept"), Value::Null)]);
    assert_eq!(resources, vec![s("kept")]);
}

#[test]
fn every_entry_goes_to_exactly_one_place() {
    let doc = Value::Mapping(vec![
        (s("name"), s("device")),
        (s("/a"), map(vec![])),
        (Value::Integer(1), s("one")),
        (s("version"), s("1.0")),
        (s("/b"), Value::Null),
        (s(""), s("empty key")),
    ]);
    let mut header = Vec::new();
    let mut resources = Vec::new();
    assert!(split_resources(doc, &mut header, &mut resources).is_ok());
    assert_eq!(
        header,
        vec![
            (s("name"), s("device")),
            (Value::Integer(1), s("one")),
            (s("version"), s("1.0")),
            (s(""), s("empty key")),
        ]
    );
    assert_eq!(header.len() + resources.len(), 6);
    assert_eq!(get(&resources[0], "url"), &s("/a"));
    assert_eq!(get(&resources[1], "url"), &s("/b"));
}

#[test]
fn empty_document_splits_into_nothing() {
    let mut header = Vec::new();
    let mut resources = Vec::new();
    assert!(split_resources(Value::Mapping(vec![]), &mut header, &mut resources).is_ok());
    assert!(header.is_empty());
    assert!(resources.is_empty());
}
