use context_cutter::canonical::{canonicalize_json_value, compute_handle_id};
use context_cutter::engine::{engine_query, engine_store, engine_teaser};
use context_cutter::json::{JsonNumber, JsonValue};
use context_cutter::parser::generate_teaser_from_value;
use context_cutter::store::{GlobalStore, StoreConfig};

fn to_value(v: &serde_json::Value) -> JsonValue {
    match v {
        serde_json::Value::Null => JsonValue::Null,
        serde_json::Value::Bool(b) => JsonValue::Bool(*b),
        serde_json::Value::Number(n) => {
            if let Some(u) = n.as_u64() {
                JsonValue::Number(JsonNumber::PosInt(u))
            } else if let Some(i) = n.as_i64() {
                JsonValue::Number(JsonNumber::NegInt(i))
            } else {
                let f = n.as_f64().unwrap_or(f64::INFINITY);
                JsonValue::Number(JsonNumber::Float { text: n.to_string(), below_limit: f.abs() < 10_000.0 })
            }
        }
        serde_json::Value::String(s) => JsonValue::Str(s.clone()),
        serde_json::Value::Array(a) => JsonValue::Array(a.iter().map(to_value).collect()),
        serde_json::Value::Object(m) => {
            JsonValue::Object(m.iter().map(|(k, v)| (k.clone(), to_value(v))).collect())
        }
    }
}

fn parse(text: &str) -> Result<JsonValue, String> {
    serde_json::from_str::<serde_json::Value>(text)
        .map(|v| to_value(&v))
        .map_err(|e| e.to_string())
}

fn value(text: &str) -> JsonValue {
    parse(text).expect("test JSON must parse")
}

fn new_store() -> GlobalStore {
    GlobalStore::new_with_config(StoreConfig { max_handles: 1000, ttl_nanos: 3_600_000_000_000 })
}

fn store_text(store: &mut GlobalStore, json_str: &str) -> Result<String, String> {
    engine_store(store, json_str, parse(json_str), 0).map_err(|e| e.message())
}

#[test]
fn compute_handle_id_is_stable_for_same_payload() {
    let v = value(r#"{"b": 2, "a": 1, "nested": {"z": true, "x": [1, 2]}}"#);
    let h1 = compute_handle_id(&v).expect("handle must be generated");
    let h2 = compute_handle_id(&v).expect("handle must be generated");
    assert_eq!(h1, h2);
    assert!(h1.starts_with("hdl_"));
}

#[test]
fn compute_handle_id_ignores_object_key_order() {
    let left = JsonValue::Object(vec![
        ("a".to_string(), JsonValue::Number(JsonNumber::PosInt(1))),
        (
            "b".to_string(),
            JsonValue::Object(vec![
                ("x".to_string(), JsonValue::Number(JsonNumber::PosInt(1))),
                ("y".to_string(), JsonValue::Number(JsonNumber::PosInt(2))),
            ]),
        ),
    ]);
    let right = JsonValue::Object(vec![
        (
            "b".to_string(),
            JsonValue::Object(vec![
                ("y".to_string(), JsonValue::Number(JsonNumber::PosInt(2))),
                ("x".to_string(), JsonValue::Number(JsonNumber::PosInt(1))),
            ]),
        ),
        ("a".to_string(), JsonValue::Number(JsonNumber::PosInt(1))),
    ]);
    let h1 = compute_handle_id(&left).expect("handle must be generated");
    let h2 = compute_handle_id(&right).expect("handle must be generated");
    assert_eq!(h1, h2);
}

#[test]
fn compute_handle_id_differs_for_different_payloads() {
    let h1 = compute_handle_id(&value(r#"{"a": 1}"#)).expect("handle must be generated");
    let h2 = compute_handle_id(&value(r#"{"a": 2}"#)).expect("handle must be generated");
    assert_ne!(h1, h2);
}

#[test]
fn compute_handle_id_has_sixteen_characters_of_sha256_hex() {
    // SHA-256 of `{"a":1}` starts with 015abd7f5cc5.
    let h = compute_handle_id(&value(r#"{"a": 1}"#)).expect("handle must be generated");
    assert_eq!(h, "hdl_015abd7f5cc5");
    assert_eq!(h.len(), 16);
}

#[test]
fn engine_store_and_query_round_trip() {
    let mut store = new_store();
    let json_str = r#"{"user": {"name": "alice", "id": 42}}"#;
    let handle_id = store_text(&mut store, json_str).expect("store should succeed");
    assert!(handle_id.starts_with("hdl_"));

    let result = engine_query(&mut store, &handle_id, "$.user.name", 0).expect("query should succeed");
    assert_eq!(result, "\"alice\"");
}

#[test]
fn engine_teaser_returns_schema_shape() {
    let mut store = new_store();
    let json_str = r#"{"contributors": [{"login": "octocat"}], "meta": {"total": 1}}"#;
    let handle_id = store_text(&mut store, json_str).expect("store should succeed");
    let teaser_str = engine_teaser(&mut store, &handle_id, 0).expect("teaser should succeed");
    let teaser: serde_json::Value = serde_json::from_str(&teaser_str).expect("teaser must be valid JSON");
    assert_eq!(teaser["_teaser"], serde_json::Value::Bool(true));
    assert_eq!(teaser["_type"], serde_json::Value::String("object".to_string()));
}

#[test]
fn engine_store_rejects_null_bytes() {
    let mut store = new_store();
    let json_with_null = "{\x00\"a\": 1}";
    let err = store_text(&mut store, json_with_null).expect_err("null bytes should fail");
    assert!(err.contains("null bytes"));
}

#[test]
fn engine_store_rejects_invalid_json() {
    let mut store = new_store();
    let err = store_text(&mut store, "{not valid json}").expect_err("invalid json should fail");
    assert!(err.contains("invalid JSON"));
}

#[test]
fn engine_teaser_rejects_empty_handle_id() {
    let mut store = new_store();
    let err = engine_teaser(&mut store, "   ", 0).expect_err("empty handle_id should fail");
    assert!(err.message().contains("empty"));
}

#[test]
fn engine_teaser_returns_error_for_unknown_handle() {
    let mut store = new_store();
    let err = engine_teaser(&mut store, "hdl_nonexistent", 0).expect_err("unknown handle should fail");
    assert!(err.message().contains("unknown handle_id"));
}

#[test]
fn engine_query_rejects_empty_handle_id() {
    let mut store = new_store();
    let err = engine_query(&mut store, "", "$.x", 0).expect_err("empty handle_id should fail");
    assert!(err.message().contains("empty"));
}

#[test]
fn engine_query_returns_error_for_unknown_handle() {
    let mut store = new_store();
    let err =
        engine_query(&mut store, "hdl_doesnotexist_xyz", "$.x", 0).expect_err("unknown handle should fail");
    assert!(err.message().contains("unknown handle_id"));
}

#[test]
fn canonicalize_json_value_handles_arrays() {
    let v = JsonValue::Array(vec![
        JsonValue::Object(vec![
            ("b".to_string(), JsonValue::Number(JsonNumber::PosInt(2))),
            ("a".to_string(), JsonValue::Number(JsonNumber::PosInt(1))),
        ]),
        JsonValue::Object(vec![
            ("y".to_string(), JsonValue::Number(JsonNumber::PosInt(9))),
            ("x".to_string(), JsonValue::Number(JsonNumber::PosInt(8))),
        ]),
    ]);
    let canonical = canonicalize_json_value(&v);
    if let JsonValue::Array(arr) = &canonical {
        if let JsonValue::Object(obj) = &arr[0] {
            let keys: Vec<&String> = obj.iter().map(|(k, _)| k).collect();
            assert_eq!(keys, vec!["a", "b"]);
        } else {
            panic!("expected object in array");
        }
    } else {
        panic!("expected array");
    }
}

#[test]
fn store_then_teaser_finds_the_payload() {
    let mut store = new_store();
    let json_str = r#"{"id": 7, "tags": ["x", "y"]}"#;
    let handle_id = store_text(&mut store, json_str).expect("store should succeed");
    let teaser = engine_teaser(&mut store, &handle_id, 5).expect("teaser should succeed");
    assert_eq!(teaser, generate_teaser_from_value(&value(json_str)));
    assert_eq!(
        teaser,
        r#"{"_teaser":true,"_type":"object","keys":["id","tags"],"structure":{"id":7,"tags":{"_type":"Array[2]","item_type":"x"}}}"#
    );
}

#[test]
fn engine_query_multiple_matches_and_no_match() {
    let mut store = new_store();
    let json_str = r#"{"users": [{"name": "a"}, {"name": "b"}]}"#;
    let handle_id = store_text(&mut store, json_str).expect("store should succeed");
    let many = engine_query(&mut store, &handle_id, "users[*].name", 0).expect("query should succeed");
    assert_eq!(many, r#"["a","b"]"#);
    let dotted = engine_query(&mut store, &handle_id, "users.1.name", 0).expect("query should succeed");
    assert_eq!(dotted, "\"b\"");
    let none = engine_query(&mut store, &handle_id, "$.missing", 0).expect("query should succeed");
    assert_eq!(none, "null");
    let blank = engine_query(&mut store, &handle_id, "  ", 0).expect_err("blank path should fail");
    assert_eq!(blank.message(), "invalid json path: json path must not be empty");
}

#[test]
fn engine_teaser_misses_after_expiry() {
    let mut store = GlobalStore::new_with_config(StoreConfig { max_handles: 10, ttl_nanos: 1_000 });
    let handle_id = engine_store(&mut store, r#"{"a": 1}"#, parse(r#"{"a": 1}"#), 0).expect("store should succeed");
    let err = engine_teaser(&mut store, &handle_id, 2_000).expect_err("expired entry should be gone");
    assert_eq!(err.message(), format!("unknown handle_id: {handle_id}"));
}

#[test]
fn compact_text_matches_the_serializer() {
    let docs = [
        r#"{"a": "q\"uote\\back\nline\ttab\u0001ctl\u001f", "b": "\u00e9\u4e2d\ud83d\ude00", "c": [1.5, -2, 1e300, 0.1, -0.0, 12345678901234567890]}"#,
        r#"[null, true, false, {}, [], "", {"z": {"y": [[]]}}]"#,
        r#""\u007f\u0080/""#,
        "-9223372036854775808",
    ];
    for d in docs {
        let sv: serde_json::Value = serde_json::from_str(d).expect("test JSON must parse");
        let ours = context_cutter::json::to_json_string(&value(d));
        assert_eq!(ours, serde_json::to_string(&sv).unwrap());
    }
}

#[test]
fn teaser_keeps_only_integers_below_ten_thousand_in_magnitude() {
    assert_eq!(
        generate_teaser_from_value(&value("-9223372036854775808")),
        r#"{"_teaser":true,"_type":"int","structure":"int"}"#
    );
    assert_eq!(
        generate_teaser_from_value(&value("-9999")),
        r#"{"_teaser":true,"_type":"int","structure":-9999}"#
    );
    assert_eq!(
        generate_teaser_from_value(&value("-10000")),
        r#"{"_teaser":true,"_type":"int","structure":"int"}"#
    );
}
