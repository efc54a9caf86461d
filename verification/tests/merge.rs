use rivet::merge::{clone_json, detect_format, is_wf_doc, merge, JsonValue};

fn s(x: &str) -> JsonValue {
    JsonValue::Str(x.to_string())
}

fn n(x: &str) -> JsonValue {
    JsonValue::Number(x.to_string())
}

fn obj(entries: Vec<(&str, JsonValue)>) -> JsonValue {
    JsonValue::Object(entries.into_iter().map(|(k, v)| (k.to_string(), v)).collect())
}

fn get<'a>(v: &'a JsonValue, key: &str) -> Option<&'a JsonValue> {
    match v {
        JsonValue::Object(es) => es.iter().find(|(k, _)| k == key).map(|(_, v)| v),
        _ => None,
    }
}

fn as_str(v: Option<&JsonValue>) -> Option<&str> {
    match v {
        Some(JsonValue::Str(x)) => Some(x.as_str()),
        Some(JsonValue::Number(x)) => Some(x.as_str()),
        _ => None,
    }
}

#[test]
fn documented_overlay_example() {
    let mut base = obj(vec![
        ("name", s("myapp")),
        ("db", obj(vec![("host", s("localhost")), ("port", n("5432"))])),
        ("secrets", JsonValue::Array(vec![s("API_KEY"), s("DB_PASS")])),
    ]);
    let patch = obj(vec![
        ("db", obj(vec![("host", s("prod-db.example.com"))])),
        ("secrets", JsonValue::Null),
        ("replicas", n("3")),
    ]);
    merge(&mut base, &patch);
    assert_eq!(as_str(get(&base, "name")), Some("myapp"));
    let db = get(&base, "db").unwrap();
    assert_eq!(as_str(get(db, "host")), Some("prod-db.example.com"));
    assert_eq!(as_str(get(db, "port")), Some("5432"));
    assert!(get(&base, "secrets").is_none());
    assert_eq!(as_str(get(&base, "replicas")), Some("3"));
    match &base {
        JsonValue::Object(es) => assert_eq!(es.len(), 3),
        _ => panic!("not an object"),
    }
}

#[test]
fn null_deletes_nested_key() {
    let mut base = obj(vec![
        ("secret", s("abc123")),
        ("keep", s("yes")),
        ("nested", obj(vec![("old", s("x")), ("keep", s("y"))])),
    ]);
    let patch = obj(vec![
        ("secret", JsonValue::Null),
        ("nested", obj(vec![("old", JsonValue::Null), ("new", s("z"))])),
    ]);
    merge(&mut base, &patch);
    assert!(get(&base, "secret").is_none());
    assert_eq!(as_str(get(&base, "keep")), Some("yes"));
    let nested = get(&base, "nested").unwrap();
    assert!(get(nested, "old").is_none());
    assert_eq!(as_str(get(nested, "keep")), Some("y"));
    assert_eq!(as_str(get(nested, "new")), Some("z"));
}

#[test]
fn patch_array_replaces_wholesale() {
    let mut base = obj(vec![
        ("ports", JsonValue::Array(vec![n("111"), n("222")])),
        ("other", s("kept")),
    ]);
    let patch = obj(vec![("ports", JsonValue::Array(vec![n("333")]))]);
    merge(&mut base, &patch);
    match get(&base, "ports") {
        Some(JsonValue::Array(a)) => {
            assert_eq!(a.len(), 1);
            assert_eq!(as_str(a.first()), Some("333"));
        }
        _ => panic!("ports is not an array"),
    }
    assert_eq!(as_str(get(&base, "other")), Some("kept"));
}

#[test]
fn scalar_patch_replaces_document() {
    let mut base = obj(vec![("a", n("1"))]);
    merge(&mut base, &JsonValue::Bool(true));
    assert!(matches!(base, JsonValue::Bool(true)));
    let mut base = JsonValue::Array(vec![n("1")]);
    merge(&mut base, &JsonValue::Null);
    assert!(matches!(base, JsonValue::Null));
}

#[test]
fn object_patch_on_scalar_builds_object() {
    let mut base = s("text");
    let patch = obj(vec![("a", n("1")), ("b", JsonValue::Null)]);
    merge(&mut base, &patch);
    assert_eq!(as_str(get(&base, "a")), Some("1"));
    assert!(get(&base, "b").is_none());
}

#[test]
fn new_key_drops_nested_nulls() {
    let mut base = obj(vec![]);
    let patch = obj(vec![("x", obj(vec![("y", JsonValue::Null), ("z", n("1"))]))]);
    merge(&mut base, &patch);
    let x = get(&base, "x").unwrap();
    assert!(get(x, "y").is_none());
    assert_eq!(as_str(get(x, "z")), Some("1"));
}

#[test]
fn merging_twice_gives_the_same_document() {
    let mut base = obj(vec![("a", obj(vec![("b", n("1")), ("c", n("2"))])), ("d", s("x"))]);
    let patch = obj(vec![("a", obj(vec![("b", JsonValue::Null), ("e", n("5"))])), ("d", JsonValue::Null)]);
    merge(&mut base, &patch);
    let once = format!("{:?}", base);
    merge(&mut base, &patch);
    assert_eq!(format!("{:?}", base), once);
}

#[test]
fn clone_copies_deeply() {
    let v = obj(vec![("a", JsonValue::Array(vec![n("1"), s("t"), JsonValue::Null]))]);
    let c = clone_json(&v);
    assert_eq!(format!("{:?}", c), format!("{:?}", v));
}

#[test]
fn output_format_from_file_name() {
    assert_eq!(detect_format("base.json"), "json");
    assert_eq!(detect_format("base.yaml"), "yaml");
    assert_eq!(detect_format("-"), "yaml");
    assert_eq!(detect_format("json"), "yaml");
}

#[test]
fn documents_with_a_repeated_key_are_not_valid() {
    assert!(is_wf_doc(&obj(vec![("a", n("1")), ("b", obj(vec![("c", n("2"))]))])));
    assert!(!is_wf_doc(&obj(vec![("a", n("1")), ("a", n("2"))])));
    assert!(!is_wf_doc(&obj(vec![("x", obj(vec![("k", n("1")), ("k", JsonValue::Null)]))])));
    // objects inside arrays are not looked into
    assert!(is_wf_doc(&JsonValue::Array(vec![obj(vec![("a", n("1")), ("a", n("2"))])])));
}

