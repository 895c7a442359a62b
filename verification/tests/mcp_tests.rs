use context_cutter::base64url::{base64url_decode, base64url_encode};
use context_cutter::checks::{
    boundary_error, check_payload_size, is_localhost_proxy_url, parse_proxy_headers, proxy_url_allowed,
    validate_fetch_request, validate_https_url, validate_query_inputs,
};
use context_cutter::error::ContextCutterError;
use context_cutter::json::{JsonNumber, JsonValue, to_json_string};
use context_cutter::proxy::{
    Interception, ToolFailure, build_preview_text, format_preview_value, intercept_large, is_event_stream,
    initialize_params, is_unauthorized, plan_interception, proxy_query_tool, query_arguments, rpc_request_body, rpc_result,
    run_query_tool, sse_data, store_fetched,
};
use context_cutter::store::{GlobalStore, StoreConfig};

fn to_value(v: &serde_json::Value) -> JsonValue {
    match v {
        serde_json::Value::Null => JsonValue::Null,
        serde_json::Value::Bool(b) => JsonValue::Bool(*b),
        serde_json::Value::Number(n) => {
            if let Some(u) = n.as_u64() {
                JsonValue::Number(JsonNumber::PosInt(u))
            } else if let Some(i) = n.as_i64() {
                JsonValue::Number(JsonNumber::NegInt(i))
            } else {
                let f = n.as_f64().unwrap_or(f64::INFINITY);
                JsonValue::Number(JsonNumber::Float { text: n.to_string(), below_limit: f.abs() < 10_000.0 })
            }
        }
        serde_json::Value::String(s) => JsonValue::Str(s.clone()),
        serde_json::Value::Array(a) => JsonValue::Array(a.iter().map(to_value).collect()),
        serde_json::Value::Object(m) => {
            JsonValue::Object(m.iter().map(|(k, v)| (k.clone(), to_value(v))).collect())
        }
    }
}

fn parse(text: &str) -> Result<JsonValue, String> {
    serde_json::from_str::<serde_json::Value>(text)
        .map(|v| to_value(&v))
        .map_err(|e| e.to_string())
}

fn value(text: &str) -> JsonValue {
    parse(text).expect("test JSON must parse")
}

fn new_store() -> GlobalStore {
    GlobalStore::new_with_config(StoreConfig { max_handles: 1000, ttl_nanos: 3_600_000_000_000 })
}

fn validation_message(r: Result<(), ContextCutterError>) -> String {
    match r {
        Err(ContextCutterError::Validation(m)) => m,
        other => panic!("expected a validation error, got {:?}", other.map_err(|e| e.message())),
    }
}

#[test]
fn parse_proxy_headers_valid() {
    let raw = vec!["Authorization: Bearer abc123".to_string(), "X-Custom: value".to_string()];
    let result = parse_proxy_headers(&raw).unwrap();
    assert_eq!(
        result,
        vec![
            ("Authorization".to_string(), "Bearer abc123".to_string()),
            ("X-Custom".to_string(), "value".to_string()),
        ]
    );
}

#[test]
fn parse_proxy_headers_malformed_returns_err() {
    let raw = vec!["no-colon-space".to_string()];
    assert!(parse_proxy_headers(&raw).is_err());
}

#[test]
fn parse_proxy_headers_empty() {
    assert_eq!(parse_proxy_headers(&[]).unwrap(), vec![]);
}

#[test]
fn parse_proxy_headers_splits_at_first_separator_and_reports_first_bad_value() {
    let raw = vec!["A: b: c".to_string(), "K:V".to_string(), "also bad".to_string()];
    let err = parse_proxy_headers(&raw).expect_err("second header is malformed");
    assert_eq!(err, "invalid --proxy-header (expected 'Key: Value'): K:V");
    let ok = parse_proxy_headers(&["A: b: c".to_string(), ": empty key".to_string()]).unwrap();
    assert_eq!(
        ok,
        vec![("A".to_string(), "b: c".to_string()), (String::new(), "empty key".to_string())]
    );
}

#[test]
fn intercept_if_large_passes_through_small_result() {
    let result = value(r#"{ "content": [{"type":"text","text":"hi"}], "isError": false }"#);
    let text = match plan_interception(&result, 2048) {
        Interception::PassThrough(t) => t,
        Interception::Store(_) => panic!("expected text"),
    };
    assert!(!text.contains("[context-cutter]"));
    assert_eq!(text, r#"{"content":[{"text":"hi","type":"text"}],"isError":false}"#);
}

#[test]
fn intercept_if_large_replaces_big_result_with_handle() {
    let items: Vec<String> = (0..100).map(|i| i.to_string()).collect();
    let inner = format!(r#"{{"id":"abc","items":[{}],"name":"Big Payload"}}"#, items.join(","));
    let envelope = JsonValue::Object(vec![
        (
            "content".to_string(),
            JsonValue::Array(vec![JsonValue::Object(vec![
                ("text".to_string(), JsonValue::Str(inner.clone())),
                ("type".to_string(), JsonValue::Str("text".to_string())),
            ])]),
        ),
        ("isError".to_string(), JsonValue::Bool(false)),
    ]);
    let payload = match plan_interception(&envelope, 10) {
        Interception::Store(p) => p,
        Interception::PassThrough(_) => panic!("expected text"),
    };
    assert_eq!(payload, inner);
    let mut store = new_store();
    let kb = format!("{:.1}", payload.len() as f64 / 1024.0);
    let text = intercept_large(&mut store, &envelope, &payload, parse(&payload), &kb, 0).unwrap();
    assert!(text.contains("[context-cutter]"));
    assert!(text.contains("hdl_"));
    assert!(text.contains("query_handle"));
}

#[test]
fn intercept_stores_whole_result_when_text_is_not_json_like() {
    let result = value(r#"{"content": [{"type":"text","text":"plain words"}], "isError": false}"#);
    match plan_interception(&result, 5) {
        Interception::Store(p) => {
            assert_eq!(p, r#"{"content":[{"text":"plain words","type":"text"}],"isError":false}"#)
        }
        Interception::PassThrough(_) => panic!("expected interception"),
    }
    let at_threshold = to_json_string(&result).len();
    assert!(matches!(plan_interception(&result, at_threshold), Interception::Store(_)));
    assert!(matches!(plan_interception(&result, at_threshold + 1), Interception::PassThrough(_)));
}

#[test]
fn intercept_preview_lists_structure_entries() {
    let mut store = new_store();
    let payload = r#"{"b": [1, 2], "a": "x", "c": {"k": 1}}"#;
    let whole = value(payload);
    let text = intercept_large(&mut store, &whole, payload, parse(payload), "0.1", 0).unwrap();
    let handle = text.split("handle: ").nth(1).unwrap().split(')').next().unwrap().to_string();
    assert_eq!(
        text,
        format!(
            "[context-cutter] Response stored (0.1 KB \u{2192} handle: {handle})\n\nPreview:\n  a: \"x\"\n  b: Array[2]\n  c: {{1 keys}}\n\nCall query_handle(\"{handle}\", \"$.field\") to extract specific fields."
        )
    );
}

#[test]
fn format_preview_truncates_long_strings() {
    let long_str = "a".repeat(200);
    let result = format_preview_value(&JsonValue::Str(long_str));
    assert!(result.len() <= 100);
    assert!(result.contains("(truncated)"));
}

#[test]
fn format_preview_shows_array_length() {
    let arr = value("[1, 2, 3]");
    assert_eq!(format_preview_value(&arr), "[3 items]");
}

#[test]
fn format_preview_shows_object_key_count() {
    let obj = value(r#"{"a": 1, "b": 2}"#);
    assert_eq!(format_preview_value(&obj), "{2 keys}");
}

#[test]
fn format_preview_other_values() {
    assert_eq!(format_preview_value(&value(r#"{"_type": "Array[4]", "item": 1}"#)), "Array[4]");
    assert_eq!(format_preview_value(&value(r#"{"_type": "object"}"#)), "{1 keys}");
    assert_eq!(format_preview_value(&value("-12")), "-12");
    assert_eq!(format_preview_value(&value("null")), "null");
    assert_eq!(format_preview_value(&value("true")), "true");
    assert_eq!(format_preview_value(&JsonValue::Str("hi".to_string())), "\"hi\"");
    let exact = "b".repeat(80);
    assert_eq!(format_preview_value(&JsonValue::Str(exact.clone())), format!("\"{exact}\""));
    let wide = "\u{e9}".repeat(41);
    assert_eq!(format_preview_value(&JsonValue::Str(wide.clone())), format!("\"{wide}\""));
    let longer = "\u{e9}".repeat(81);
    let head = "\u{e9}".repeat(80);
    assert_eq!(format_preview_value(&JsonValue::Str(longer)), format!("\"{head}...\" (truncated)"));
}

#[test]
fn build_preview_text_without_structure() {
    let teaser = value(r#"{"_teaser": true, "_type": "int", "structure": 5}"#);
    assert_eq!(
        build_preview_text("hdl_x", "1.0", &teaser),
        "[context-cutter] Response stored (1.0 KB \u{2192} handle: hdl_x)\n\nPreview:\n\nCall query_handle(\"hdl_x\", \"$.field\") to extract specific fields."
    );
}

#[test]
fn localhost_proxy_url_acceptance() {
    assert!(is_localhost_proxy_url("http://localhost"));
    assert!(is_localhost_proxy_url("http://localhost:8080"));
    assert!(is_localhost_proxy_url("http://localhost/mcp"));
    assert!(is_localhost_proxy_url("http://localhost:3000/mcp"));
    assert!(is_localhost_proxy_url("http://127.0.0.1"));
    assert!(is_localhost_proxy_url("http://127.0.0.1:9090/mcp"));

    assert!(!is_localhost_proxy_url("http://localhost.attacker.com"));
    assert!(!is_localhost_proxy_url("http://127.0.0.1.evil.com"));

    assert!(!is_localhost_proxy_url("https://localhost:8080"));

    assert!(!is_localhost_proxy_url("http://example.com"));
}

#[test]
fn proxy_url_policy() {
    assert!(proxy_url_allowed("https://mcp.example.com/mcp"));
    assert!(proxy_url_allowed("http://localhost?x=1"));
    assert!(proxy_url_allowed("http://127.0.0.1#frag"));
    assert!(!proxy_url_allowed("http://mcp.example.com/mcp"));
    assert!(!proxy_url_allowed("ftp://localhost"));
}

#[test]
fn validate_https_url_rules() {
    assert!(validate_https_url("https://api.example.com/x").is_ok());
    assert_eq!(validation_message(validate_https_url("http://api.example.com")), "only https URLs are allowed");
    assert_eq!(
        validation_message(validate_https_url("https://a\u{0}b")),
        "url must not contain null bytes"
    );
}

#[test]
fn validate_query_inputs_rules() {
    assert!(validate_query_inputs("hdl_1", "$.a").is_ok());
    assert_eq!(validation_message(validate_query_inputs(" \t", "$.a")), "handle_id must not be empty");
    assert_eq!(
        validation_message(validate_query_inputs("h\u{0}", "$.a")),
        "handle_id must not contain null bytes"
    );
    assert_eq!(validation_message(validate_query_inputs("h", "   ")), "json path must not be empty");
    let long = "a".repeat(4097);
    assert_eq!(
        validation_message(validate_query_inputs("h", &long)),
        "json path too long: 4097 characters (max 4096)"
    );
    let accented = format!("${}", "\u{e9}".repeat(2048));
    assert!(validate_query_inputs("hdl_x", &accented).is_ok());
    let accented_long = format!("${}", "\u{e9}".repeat(4096));
    assert_eq!(
        validation_message(validate_query_inputs("hdl_x", &accented_long)),
        "json path too long: 4097 characters (max 4096)"
    );
    assert!(validate_query_inputs("h", &"a".repeat(4096)).is_ok());
    assert_eq!(
        validation_message(validate_query_inputs("h", "$.\u{0}")),
        "json path must not contain null bytes"
    );
}

#[test]
fn boundary_error_uses_the_error_message() {
    assert_eq!(boundary_error(ContextCutterError::UnknownHandle("h".to_string())), "unknown handle_id: h");
    assert_eq!(
        boundary_error(ContextCutterError::PayloadTooLarge { actual_bytes: 11, max_bytes: 10 }),
        "payload too large: 11 bytes exceeds limit 10 bytes"
    );
    assert_eq!(boundary_error(ContextCutterError::Internal("x".to_string())), "internal error: x");
}

#[test]
fn payload_size_limit() {
    assert!(check_payload_size(10, 10).is_ok());
    match check_payload_size(11, 10) {
        Err(ContextCutterError::PayloadTooLarge { actual_bytes, max_bytes }) => {
            assert_eq!((actual_bytes, max_bytes), (11, 10))
        }
        _ => panic!("expected payload too large"),
    }
}

#[test]
fn fetch_request_checks() {
    let none: Vec<(String, String)> = vec![];
    assert_eq!(validate_fetch_request("https://x.io", None, &none).unwrap(), "GET");
    assert_eq!(validate_fetch_request("https://x.io", Some("post"), &none).unwrap(), "POST");
    assert_eq!(validate_fetch_request("https://x.io", Some("stra\u{df}e"), &none).unwrap(), "STRASSE");
    let e = validate_fetch_request("http://x.io", None, &none).unwrap_err();
    assert_eq!(e.message(), "validation error: only https URLs are allowed");
    let e = validate_fetch_request("https://x.io", Some("G\u{0}T"), &none).unwrap_err();
    assert_eq!(e.message(), "validation error: method must not contain null bytes");
    let bad = vec![("X".to_string(), "ok".to_string()), ("Y".to_string(), "b\u{0}d".to_string())];
    let e = validate_fetch_request("https://x.io", None, &bad).unwrap_err();
    assert_eq!(e.message(), "validation error: headers must not contain null bytes");
}

#[test]
fn base64url_round_trip_and_vectors() {
    assert_eq!(base64url_encode(b""), "");
    assert_eq!(base64url_encode(b"f"), "Zg");
    assert_eq!(base64url_encode(b"fo"), "Zm8");
    assert_eq!(base64url_encode(b"foo"), "Zm9v");
    assert_eq!(base64url_encode(b"hello"), "aGVsbG8");
    assert_eq!(base64url_encode(&[0xfb, 0xff]), "-_8");
    for n in 0..20u8 {
        let data: Vec<u8> = (0..n).map(|i| i.wrapping_mul(37).wrapping_add(200)).collect();
        assert_eq!(base64url_decode(&base64url_encode(&data)), Some(data));
    }
    assert_eq!(base64url_decode("aGVsbG8="), Some(b"hello".to_vec()));
    assert_eq!(base64url_decode("+/8="), Some(vec![0xfb, 0xff]));
    assert_eq!(base64url_decode("ab$d"), None);
    assert_eq!(base64url_decode(""), Some(vec![]));
}

#[test]
fn sse_data_extraction() {
    assert_eq!(sse_data("event: message\r\ndata: {\"a\":1}  \r\n\r\n").unwrap(), "{\"a\":1}");
    assert_eq!(sse_data("data: x\ndata: y").unwrap(), "x");
    let e = sse_data("data: [DONE]\ndata: {}").unwrap_err();
    assert_eq!(e.message(), "request failed: SSE response contained no data event");
    assert!(sse_data("event: ping\n").is_err());
    assert!(sse_data("data:    \n").is_err());
    assert!(is_event_stream(Some("text/event-stream; charset=utf-8")));
    assert!(!is_event_stream(Some("application/json")));
    assert!(!is_event_stream(None));
}

#[test]
fn rpc_framing() {
    let body = rpc_request_body(7, "tools/call", value(r#"{"name": "t", "arguments": {}}"#));
    assert_eq!(body, r#"{"id":7,"jsonrpc":"2.0","method":"tools/call","params":{"arguments":{},"name":"t"}}"#);
    let ok = rpc_result(parse(r#"{"jsonrpc":"2.0","id":1,"result":{"x":[1]}}"#)).unwrap();
    assert_eq!(to_json_string(&ok), r#"{"x":[1]}"#);
    let err = rpc_result(parse(r#"{"error":{"code":-1}}"#)).unwrap_err();
    assert_eq!(err.message(), r#"request failed: upstream MCP error: {"code":-1}"#);
    let missing = rpc_result(parse(r#"{"id":1}"#)).unwrap_err();
    assert_eq!(missing.message(), "request failed: upstream response missing 'result' field");
    let bad = rpc_result(parse("nope")).unwrap_err();
    assert!(bad.message().starts_with("invalid JSON payload: upstream response: "));
}

#[test]
fn unauthorized_detection() {
    assert!(is_unauthorized(&ContextCutterError::RequestFailed("http status: 401".to_string())));
    assert!(!is_unauthorized(&ContextCutterError::RequestFailed("http status: 403".to_string())));
}

#[test]
fn query_tool_answers_and_errors() {
    let mut store = new_store();
    let payload = r#"{"user": {"name": "alice"}}"#;
    let answer = store_fetched(&mut store, payload, parse(payload), 1 << 20, 0).unwrap();
    let parsed: serde_json::Value = serde_json::from_str(&answer).unwrap();
    let handle = parsed["handle_id"].as_str().unwrap().to_string();
    assert!(handle.starts_with("hdl_"));
    assert_eq!(parsed["teaser"]["_type"], serde_json::Value::String("object".to_string()));
    assert_eq!(run_query_tool(&mut store, &handle, "user.name", 1).unwrap(), "\"alice\"");
    assert_eq!(
        run_query_tool(&mut store, "", "user.name", 1).unwrap_err(),
        "validation error: handle_id must not be empty"
    );
    assert_eq!(run_query_tool(&mut store, "hdl_zzz", "$.a", 1).unwrap_err(), "unknown handle_id: hdl_zzz");
    let bad = store_fetched(&mut store, "{", parse("{"), 1 << 20, 2).unwrap_err();
    assert!(bad.message().starts_with("invalid JSON payload: response is not valid JSON: "));
}

#[test]
fn fetch_answer_shape() {
    let mut store = new_store();
    let payload = r#"[1, 2]"#;
    let answer = store_fetched(&mut store, payload, parse(payload), 1 << 20, 0).unwrap();
    let handle = answer.split('"').nth(3).unwrap().to_string();
    assert_eq!(
        answer,
        format!(
            r#"{{"handle_id":"{handle}","teaser":{{"_teaser":true,"_type":"Array[2]","structure":{{"_type":"Array[2]","item_type":1}}}}}}"#
        )
    );
}

#[test]
fn proxy_query_tool_failures_and_answer() {
    let mut store = new_store();
    let payload = r#"{"user": {"name": "bob"}}"#;
    let answer = store_fetched(&mut store, payload, parse(payload), 1 << 20, 0).unwrap();
    let handle = answer.split('"').nth(3).unwrap().to_string();
    let args = value(&format!(r#"{{"handle_id": "{handle}", "json_path": "$.user.name"}}"#));
    match proxy_query_tool(&mut store, Some(&args), 1) {
        Ok(t) => assert_eq!(t, "\"bob\""),
        _ => panic!("query should succeed"),
    }
    match proxy_query_tool(&mut store, None, 1) {
        Err(ToolFailure::InvalidParams(m)) => assert_eq!(m, "query_handle requires arguments"),
        _ => panic!("expected invalid params"),
    }
    assert_eq!(query_arguments(Some(&value(r#"{"json_path": "$"}"#))).unwrap_err(), "missing handle_id");
    assert_eq!(query_arguments(Some(&value(r#"{"handle_id": "h"}"#))).unwrap_err(), "missing json_path");
    let blank = value(r#"{"handle_id": " ", "json_path": "$"}"#);
    match proxy_query_tool(&mut store, Some(&blank), 1) {
        Err(ToolFailure::InvalidParams(m)) => assert_eq!(m, "validation error: handle_id must not be empty"),
        _ => panic!("expected invalid params"),
    }
    let unknown = value(r#"{"handle_id": "hdl_nope", "json_path": "$"}"#);
    match proxy_query_tool(&mut store, Some(&unknown), 1) {
        Err(ToolFailure::Internal(m)) => assert_eq!(m, "unknown handle_id: hdl_nope"),
        _ => panic!("expected internal error"),
    }
}

#[test]
fn intercept_passes_through_large_invalid_json() {
    let result = value(r#"{"content": [{"type": "text", "text": "{not json"}]}"#);
    let payload = match plan_interception(&result, 1) {
        Interception::Store(p) => p,
        Interception::PassThrough(_) => panic!("a large result is considered for storing"),
    };
    assert_eq!(payload, "{not json");
    let mut store = new_store();
    let text = intercept_large(&mut store, &result, &payload, parse(&payload), "0.0", 0).unwrap();
    assert_eq!(text, to_json_string(&result));
    assert!(!text.contains("[context-cutter]"));
}

#[test]
fn fetched_body_over_the_limit_is_refused() {
    let mut store = new_store();
    let payload = r#"{"a": 1}"#;
    match store_fetched(&mut store, payload, parse(payload), 3, 0) {
        Err(ContextCutterError::PayloadTooLarge { actual_bytes, max_bytes }) => {
            assert_eq!((actual_bytes, max_bytes), (payload.len(), 3))
        }
        _ => panic!("expected payload too large"),
    }
    assert!(store_fetched(&mut store, payload, parse(payload), payload.len(), 0).is_ok());
}

#[test]
fn initialize_request_parameters() {
    let params = initialize_params("1.2.3");
    assert_eq!(
        to_json_string(&params),
        r#"{"capabilities":{},"clientInfo":{"name":"context-cutter-proxy","version":"1.2.3"},"protocolVersion":"2024-11-05"}"#
    );
    let body = rpc_request_body(1, "initialize", initialize_params("0.1.0"));
    assert_eq!(
        body,
        r#"{"id":1,"jsonrpc":"2.0","method":"initialize","params":{"capabilities":{},"clientInfo":{"name":"context-cutter-proxy","version":"0.1.0"},"protocolVersion":"2024-11-05"}}"#
    );
}
