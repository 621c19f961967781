use adf::AdfError;
use adf::Document;
use adf::Value;
use adf::object_get;

#[test]
fn test_set_get_round_trip() {
    let mut doc = Document::new();
    doc.set("a.b.c", Value::Integer(7)).unwrap();
    assert_eq!(doc.get("a.b.c").unwrap().as_i64().unwrap(), 7);
    doc.set("a.b.c", Value::Text("x".to_string())).unwrap();
    assert_eq!(doc.get("a.b.c").unwrap().as_str().unwrap(), "x");
}

#[test]
fn test_set_get_quoted_segment() {
    let mut doc = Document::new();
    doc.set("\"a.b\".c", Value::Boolean(true)).unwrap();
    assert_eq!(doc.get("\"a.b\".c").unwrap().as_bool().unwrap(), true);
    // The quoted segment is one key: the unquoted path "a.b.c" is different.
    assert!(doc.get("a.b.c").is_none());
}

#[test]
fn test_set_conflict_is_validation_error() {
    let mut doc = Document::new();
    doc.set("a", Value::Integer(1)).unwrap();
    let r = doc.set("a.b", Value::Integer(2));
    match r {
        Err(AdfError::ValidationError { path, message }) => {
            // The error names the path it was given and the offending segment.
            assert_eq!(path, "a.b");
            assert!(message.contains("'a'"));
        }
        other => panic!("expected a validation error, got {:?}", other),
    }
    // The document is unchanged by the failed set.
    assert_eq!(doc.get("a").unwrap().as_i64().unwrap(), 1);
}

#[test]
fn test_set_segmentless_path_stores_nothing() {
    // A non-empty path that splits into no segments (a lone dot) stores
    // nothing; only the empty path can replace the whole root.
    let mut doc = Document::new();
    doc.set("k", Value::Integer(1)).unwrap();
    doc.set(".", Value::Object(vec![("x".to_string(), Value::Null)])).unwrap();
    assert_eq!(doc.as_map().len(), 1);
    assert_eq!(doc.get("k").unwrap().as_i64().unwrap(), 1);
    doc.merge_at_path(".", Value::Object(vec![("x".to_string(), Value::Null)])).unwrap();
    assert_eq!(doc.as_map().len(), 1);
}

#[test]
fn test_get_empty_path_is_whole_root() {
    let mut doc = Document::new();
    doc.set("k", Value::Null).unwrap();
    let root = doc.get("").unwrap();
    let fields = root.as_object().unwrap();
    assert!(object_get(fields, &"k".to_string()).unwrap().is_null());
}

#[test]
fn test_merge_deep_and_overlay_wins() {
    let mut base = Document::new();
    base.set("a.x", Value::Integer(1)).unwrap();
    base.set("a.y", Value::Integer(2)).unwrap();
    base.set("s", Value::Text("old".to_string())).unwrap();

    let mut over = Document::new();
    over.set("a.y", Value::Integer(20)).unwrap();
    over.set("a.z", Value::Integer(30)).unwrap();
    over.set("s", Value::Text("new".to_string())).unwrap();

    base.merge(&over);
    // Nested objects merge key by key.
    assert_eq!(base.get("a.x").unwrap().as_i64().unwrap(), 1);
    assert_eq!(base.get("a.y").unwrap().as_i64().unwrap(), 20);
    assert_eq!(base.get("a.z").unwrap().as_i64().unwrap(), 30);
    // Scalars are replaced wholesale.
    assert_eq!(base.get("s").unwrap().as_str().unwrap(), "new");
}

#[test]
fn test_merge_empty_overlay_is_identity() {
    let mut base = Document::new();
    base.set("a.x", Value::Integer(1)).unwrap();
    let empty = Document::new();
    base.merge(&empty);
    assert_eq!(base.get("a.x").unwrap().as_i64().unwrap(), 1);
    assert_eq!(base.as_map().len(), 1);
}

#[test]
fn test_merge_twice_same_as_once() {
    let mut once = Document::new();
    once.set("a.x", Value::Integer(1)).unwrap();
    let mut twice = Document::new();
    twice.set("a.x", Value::Integer(1)).unwrap();

    let mut over = Document::new();
    over.set("a.y", Value::Integer(2)).unwrap();
    over.set("list", Value::Array(vec![Value::Integer(9)])).unwrap();

    once.merge(&over);
    twice.merge(&over);
    twice.merge(&over);

    // Re-merging the same overlay changes nothing: arrays replace, they do
    // not accumulate.
    assert_eq!(once.get("a.y").unwrap().as_i64().unwrap(), 2);
    assert_eq!(twice.get("a.y").unwrap().as_i64().unwrap(), 2);
    let one_list_v = once.get("list").unwrap();
    let two_list_v = twice.get("list").unwrap();
    let one_list = one_list_v.as_array().unwrap();
    let two_list = two_list_v.as_array().unwrap();
    assert_eq!(one_list.len(), 1);
    assert_eq!(two_list.len(), 1);
    assert_eq!(two_list[0].as_i64().unwrap(), 9);
}

#[test]
fn test_merge_at_path_merges_objects() {
    let mut doc = Document::new();
    doc.set("cfg.a", Value::Integer(1)).unwrap();
    let over = Value::Object(vec![("b".to_string(), Value::Integer(2))]);
    doc.merge_at_path("cfg", over).unwrap();
    assert_eq!(doc.get("cfg.a").unwrap().as_i64().unwrap(), 1);
    assert_eq!(doc.get("cfg.b").unwrap().as_i64().unwrap(), 2);
}

#[test]
fn test_add_relative_section_overwrites() {
    let mut doc = Document::new();
    doc.add_relative_section("s", Value::Integer(1)).unwrap();
    doc.add_relative_section("s", Value::Integer(2)).unwrap();
    let rel = doc.relative_sections();
    assert_eq!(object_get(rel, &"s".to_string()).unwrap().as_i64().unwrap(), 2);
}

#[test]
fn test_into_map_returns_root() {
    let mut doc = Document::new();
    doc.set("k", Value::Integer(5)).unwrap();
    let map = doc.into_map();
    assert_eq!(map.len(), 1);
    assert_eq!(object_get(&map, &"k".to_string()).unwrap().as_i64().unwrap(), 5);
}

#[test]
fn test_value_accessors() {
    let v = Value::Text("t".to_string());
    assert!(v.is_string() && !v.is_integer());
    assert_eq!(v.as_str().unwrap(), "t");
    let v = Value::Integer(3);
    assert!(v.is_integer() && v.as_i64().unwrap() == 3 && v.as_bool().is_none());
    let v = Value::FloatLit("2.5".to_string());
    assert!(v.is_float() && v.as_float_lit().unwrap() == "2.5");
    let v = Value::Boolean(false);
    assert!(v.is_boolean() && !v.as_bool().unwrap());
    let v = Value::Null;
    assert!(v.is_null() && !v.is_object() && !v.is_array());
    let v = Value::Array(vec![Value::Null]);
    assert!(v.is_array() && v.as_array().unwrap().len() == 1);
    let v = Value::Object(vec![]);
    assert!(v.is_object() && v.as_object().unwrap().is_empty());
    let v2 = v.clone();
    assert!(v2.is_object());
}

#[test]
fn test_value_to_string() {
    assert_eq!(Value::Text("abc".to_string()).to_string().unwrap(), "abc");
    assert_eq!(Value::Integer(0).to_string().unwrap(), "0");
    assert_eq!(Value::Integer(42).to_string().unwrap(), "42");
    assert_eq!(Value::Integer(-7).to_string().unwrap(), "-7");
    assert_eq!(Value::Integer(i64::MAX).to_string().unwrap(), "9223372036854775807");
    assert_eq!(Value::Integer(i64::MIN).to_string().unwrap(), "-9223372036854775808");
    assert_eq!(Value::FloatLit("1.5e3".to_string()).to_string().unwrap(), "1.5e3");
    assert_eq!(Value::Boolean(true).to_string().unwrap(), "true");
    assert_eq!(Value::Boolean(false).to_string().unwrap(), "false");
    assert!(Value::Null.to_string().is_none());
    assert!(Value::Array(vec![]).to_string().is_none());
}

#[test]
fn test_value_from_conversions() {
    assert_eq!(Value::from("t".to_string()).as_str().unwrap(), "t");
    assert_eq!(Value::from(5i64).as_i64().unwrap(), 5);
    assert_eq!(Value::from(true).as_bool().unwrap(), true);
    assert!(Value::from(vec![Value::Null]).is_array());
    assert!(Value::from(vec![("k".to_string(), Value::Null)]).is_object());
}
