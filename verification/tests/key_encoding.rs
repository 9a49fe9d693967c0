//! Encoding of key values.

use repartitioner::dataset::Row;
use repartitioner::key_encoding::{
    encode_key_part, encode_key_value, key_value_to_string, key_value_type_name, KeyValue,
};
use repartitioner::keymap::KeyMap;

#[test]
fn encodes_null_and_empty_string_differently() {
    assert_eq!(encode_key_value(&KeyValue::Null), "null");
    assert_eq!(encode_key_value(&KeyValue::Utf8(String::new())), "utf8:0:");
}

#[test]
fn encodes_values_with_delimiters_unambiguously() {
    assert_eq!(
        encode_key_part("user=id", &KeyValue::Utf8("a=b|c".to_string())),
        "7:user=id#utf8:5:a=b|c"
    );
}

#[test]
fn encodes_every_type() {
    let cases = [
        (KeyValue::Int64(-5), "int64:-5", Some("-5"), "int64"),
        (KeyValue::UInt64(5), "uint64:5", Some("5"), "uint64"),
        (KeyValue::Boolean(true), "bool:true", Some("true"), "boolean"),
        (KeyValue::Date32(-1), "date32:-1", Some("-1"), "date32"),
        (
            KeyValue::TimestampMicros(1_000),
            "timestamp_micros:1000",
            Some("1000"),
            "timestamp_micros",
        ),
        (KeyValue::Decimal("1.5".to_string()), "decimal:3:1.5", Some("1.5"), "decimal"),
        (KeyValue::Utf8("\u{e9}".to_string()), "utf8:2:\u{e9}", Some("\u{e9}"), "utf8"),
        (KeyValue::Null, "null", None, "null"),
    ];
    for (value, encoded, plain, name) in cases {
        assert_eq!(encode_key_value(&value), encoded);
        assert_eq!(key_value_to_string(&value).as_deref(), plain);
        assert_eq!(key_value_type_name(&value), name);
    }
}

#[test]
fn different_values_have_different_keys() {
    let columns = ["a".to_string(), "b".to_string()];
    let key = |a: KeyValue, b: KeyValue| {
        let mut values = KeyMap::new();
        values.insert("a".to_string(), a);
        values.insert("b".to_string(), b);
        Row::new(values).partition_key(&columns).expect("both columns are there")
    };
    let text = |s: &str| KeyValue::Utf8(s.to_string());
    let keys = [
        key(text("x|1:b#utf8:1:y"), text("")),
        key(text("x"), text("y")),
        key(text("1"), KeyValue::Int64(1)),
        key(KeyValue::Int64(1), text("1")),
        key(KeyValue::Null, text("null")),
        key(text("null"), KeyValue::Null),
    ];
    for i in 0..keys.len() {
        for j in 0..i {
            assert_ne!(keys[i], keys[j]);
        }
    }
    assert_eq!(keys[1], "1:a#utf8:1:x|1:b#utf8:1:y");
    let lacking = Row::from_key_value("a", KeyValue::Null);
    assert_eq!(lacking.partition_key(&columns), None);
}

#[test]
fn maps_keep_their_keys_in_order() {
    let mut map = KeyMap::new();
    for (key, value) in [("b", 1), ("a", 2), ("c", 3), ("a", 4)] {
        map.insert(key.to_string(), value);
    }
    assert_eq!(map.len(), 3);
    assert_eq!(map.key_at(0), "a");
    assert_eq!(*map.value_at(0), 4);
    assert_eq!(map.get("c"), Some(&3));
    assert_eq!(map.get("d"), None);
    assert!(map.contains_key("b"));
    assert_eq!(map.remove_at(1), ("b".to_string(), 1));
    assert_eq!(map.position("c"), Some(1));
}
