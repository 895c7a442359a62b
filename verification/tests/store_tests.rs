use context_cutter::json::{JsonNumber, JsonValue, to_json_string};
use context_cutter::settings::{max_payload_bytes_from, store_config_from};
use context_cutter::store::{ContextStore, GlobalStore, StoreConfig};

fn obj1(key: &str, n: u64) -> JsonValue {
    JsonValue::Object(vec![(key.to_string(), JsonValue::Number(JsonNumber::PosInt(n)))])
}

fn text_of(v: Option<JsonValue>) -> Option<String> {
    v.map(|x| to_json_string(&x))
}

fn parse(text: &str) -> Result<JsonValue, String> {
    fn conv(v: &serde_json::Value) -> JsonValue {
        match v {
            serde_json::Value::Null => JsonValue::Null,
            serde_json::Value::Bool(b) => JsonValue::Bool(*b),
            serde_json::Value::Number(n) => match (n.as_u64(), n.as_i64()) {
                (Some(u), _) => JsonValue::Number(JsonNumber::PosInt(u)),
                (None, Some(i)) => JsonValue::Number(JsonNumber::NegInt(i)),
                _ => {
                    let f = n.as_f64().unwrap_or(f64::INFINITY);
                    JsonValue::Number(JsonNumber::Float { text: n.to_string(), below_limit: f.abs() < 10_000.0 })
                }
            },
            serde_json::Value::String(s) => JsonValue::Str(s.clone()),
            serde_json::Value::Array(a) => JsonValue::Array(a.iter().map(conv).collect()),
            serde_json::Value::Object(m) => JsonValue::Object(m.iter().map(|(k, v)| (k.clone(), conv(v))).collect()),
        }
    }
    serde_json::from_str::<serde_json::Value>(text).map(|v| conv(&v)).map_err(|e| e.to_string())
}

const SECOND: u128 = 1_000_000_000;
const MILLI: u128 = 1_000_000;

#[test]
fn global_store_insert_and_get_round_trip() {
    let mut store = GlobalStore::new_with_config(StoreConfig { max_handles: 1000, ttl_nanos: 3600 * SECOND });
    store.insert("h_test".to_string(), obj1("x", 1), 0);
    let got = store.get("h_test", 1);
    assert_eq!(text_of(got), Some(r#"{"x":1}"#.to_string()));
}

#[test]
fn local_store_evicts_oldest_when_capacity_exceeded() {
    let mut store = GlobalStore::new_with_config(StoreConfig { max_handles: 2, ttl_nanos: 60 * SECOND });

    store.insert("h1".to_string(), obj1("n", 1), 0);
    store.insert("h2".to_string(), obj1("n", 2), 1);
    store.insert("h3".to_string(), obj1("n", 3), 2);

    assert!(store.get("h1", 3).is_none(), "oldest entry should be evicted");
    assert_eq!(text_of(store.get("h2", 4)), Some(r#"{"n":2}"#.to_string()));
    assert_eq!(text_of(store.get("h3", 5)), Some(r#"{"n":3}"#.to_string()));
}

#[test]
fn local_store_get_returns_none_for_missing_key() {
    let mut store = GlobalStore::new_with_config(StoreConfig { max_handles: 10, ttl_nanos: 60 * SECOND });
    assert!(store.get("nonexistent", 0).is_none());
}

#[test]
fn local_store_expires_entries_on_get() {
    let mut store = GlobalStore::new_with_config(StoreConfig { max_handles: 10, ttl_nanos: MILLI });
    store.insert("h_expire".to_string(), obj1("x", 99), 0);
    assert!(store.get("h_expire", 5 * MILLI).is_none(), "entry should be expired and removed on get");
}

#[test]
fn local_store_sweep_expired_removes_old_entries() {
    let mut store = GlobalStore::new_with_config(StoreConfig { max_handles: 10, ttl_nanos: MILLI });
    store.insert("h_sweep".to_string(), obj1("y", 1), 0);
    store.sweep_expired(5 * MILLI);
    assert!(store.get("h_sweep", 5 * MILLI).is_none());
}

#[test]
fn local_store_recently_used_entry_survives_eviction() {
    let mut store = GlobalStore::new_with_config(StoreConfig { max_handles: 2, ttl_nanos: 60 * SECOND });
    store.insert("h1".to_string(), obj1("n", 1), 0);
    store.insert("h2".to_string(), obj1("n", 2), 1);
    assert!(store.get("h1", 2).is_some());
    store.insert("h3".to_string(), obj1("n", 3), 3);
    assert!(store.get("h2", 4).is_none(), "least recently used entry should be evicted");
    assert!(store.get("h1", 5).is_some());
    assert!(store.get("h3", 6).is_some());
}

#[test]
fn local_store_sweep_keeps_live_entries() {
    let mut store = GlobalStore::new_with_config(StoreConfig { max_handles: 10, ttl_nanos: 10 * MILLI });
    store.insert("old".to_string(), obj1("a", 1), 0);
    store.insert("new".to_string(), obj1("b", 2), 8 * MILLI);
    store.sweep_expired(15 * MILLI);
    assert!(store.get("old", 15 * MILLI).is_none());
    assert_eq!(text_of(store.get("new", 15 * MILLI)), Some(r#"{"b":2}"#.to_string()));
}

#[test]
fn local_store_entry_at_exactly_ttl_is_live() {
    let mut store = GlobalStore::new_with_config(StoreConfig { max_handles: 10, ttl_nanos: 10 });
    store.insert("h".to_string(), obj1("a", 1), 0);
    assert!(store.get("h", 10).is_some());
    assert!(store.get("h", 21).is_none());
}

#[test]
fn context_store_basic_operations() {
    let mut store = ContextStore::new();
    assert_eq!(store.len(), 0);
    assert!(store.is_empty());

    store.insert("h1", parse(r#"{"value": 42}"#)).expect("insert should succeed");
    assert_eq!(store.len(), 1);
    assert!(!store.is_empty());

    let payload = store.get("h1").expect("get should not fail").expect("value should exist");
    assert_eq!(payload, r#"{"value":42}"#);

    assert!(store.remove("h1"));
    assert_eq!(store.len(), 0);
    assert!(!store.remove("h1"));
}

#[test]
fn context_store_clear_empties_entries() {
    let mut store = ContextStore::new();
    store.insert("a", parse(r#"{"a":1}"#)).expect("insert should succeed");
    store.insert("b", parse(r#"{"b":2}"#)).expect("insert should succeed");
    assert_eq!(store.len(), 2);
    store.clear();
    assert_eq!(store.len(), 0);
}

#[test]
fn context_store_refuses_invalid_json() {
    let mut store = ContextStore::new();
    let err = store.insert("a", parse("{oops")).expect_err("invalid JSON must be refused");
    assert!(err.message().starts_with("invalid JSON payload: "));
    assert!(store.is_empty());
    assert_eq!(store.get("a").expect("get should not fail"), None);
}

#[test]
fn settings_fall_back_to_defaults() {
    assert_eq!(max_payload_bytes_from(None), 10 * 1024 * 1024);
    assert_eq!(max_payload_bytes_from(Some("0")), 10 * 1024 * 1024);
    assert_eq!(max_payload_bytes_from(Some("abc")), 10 * 1024 * 1024);
    assert_eq!(max_payload_bytes_from(Some(" 5")), 10 * 1024 * 1024);
    assert_eq!(max_payload_bytes_from(Some("+2048")), 2048);
    assert_eq!(max_payload_bytes_from(Some("4096")), 4096);
    let cfg = store_config_from(Some("7"), Some("2"));
    assert_eq!(cfg.max_handles, 7);
    assert_eq!(cfg.ttl_nanos, 2 * SECOND);
    let dflt = store_config_from(None, Some("99999999999999999999"));
    assert_eq!(dflt.max_handles, 1000);
    assert_eq!(dflt.ttl_nanos, 3600 * SECOND);
}
