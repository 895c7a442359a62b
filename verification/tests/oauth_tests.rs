use context_cutter::base64url::base64url_encode;
use context_cutter::json::{JsonNumber, JsonValue};
use context_cutter::oauth::{
    access_token_from_response, authorization_url, callback_code, callback_redirect_uri, client_id_from_response,
    exp_claim_of, exp_reached, is_jwt_expired, jwt_payload, oauth_base_url, oauth_discovery_url, oauth_meta_from, pkce_challenge, registration_request_body,
    token_after_refresh, token_from_file_text, token_needs_refresh, token_request_body, url_encode, with_bearer,
};
use context_cutter::error::ContextCutterError;

fn to_value(v: &serde_json::Value) -> JsonValue {
    match v {
        serde_json::Value::Null => JsonValue::Null,
        serde_json::Value::Bool(b) => JsonValue::Bool(*b),
        serde_json::Value::Number(n) => {
            if let Some(u) = n.as_u64() {
                JsonValue::Number(JsonNumber::PosInt(u))
            } else if let Some(i) = n.as_i64() {
                JsonValue::Number(JsonNumber::NegInt(i))
            } else {
                let f = n.as_f64().unwrap_or(f64::INFINITY);
                JsonValue::Number(JsonNumber::Float { text: n.to_string(), below_limit: f.abs() < 10_000.0 })
            }
        }
        serde_json::Value::String(s) => JsonValue::Str(s.clone()),
        serde_json::Value::Array(a) => JsonValue::Array(a.iter().map(to_value).collect()),
        serde_json::Value::Object(m) => {
            JsonValue::Object(m.iter().map(|(k, v)| (k.clone(), to_value(v))).collect())
        }
    }
}

fn parse(text: &str) -> Result<JsonValue, String> {
    serde_json::from_str::<serde_json::Value>(text)
        .map(|v| to_value(&v))
        .map_err(|e| e.to_string())
}

/// What became of a token's payload, as the server works it out.
fn claims(token: &str) -> Option<Result<JsonValue, String>> {
    jwt_payload(token).map(|bytes| {
        serde_json::from_slice::<serde_json::Value>(&bytes).map(|v| to_value(&v)).map_err(|e| e.to_string())
    })
}

fn expired_at(token: &str, now: u64) -> bool {
    is_jwt_expired(&claims(token), now)
}

fn jwt_with_payload(payload: &str) -> String {
    format!("eyJhbGciOiJIUzI1NiJ9.{}.c2ln", base64url_encode(payload.as_bytes()))
}

#[test]
fn url_encode_escapes_reserved_bytes() {
    assert_eq!(url_encode("abcXYZ019-_.~"), "abcXYZ019-_.~");
    assert_eq!(url_encode("a b&c=d/e"), "a%20b%26c%3Dd%2Fe");
    assert_eq!(url_encode("\u{e9}"), "%C3%A9");
    assert_eq!(url_encode(""), "");
}

#[test]
fn jwt_expiry() {
    let expired = jwt_with_payload(r#"{"exp":100}"#);
    assert!(expired_at(&expired, 100));
    assert!(expired_at(&expired, 5000));
    assert!(!expired_at(&expired, 99));
    let no_exp = jwt_with_payload(r#"{"sub":"x"}"#);
    assert!(!expired_at(&no_exp, u64::MAX));
    let not_json = jwt_with_payload("plain text");
    assert!(!expired_at(&not_json, u64::MAX));
    assert!(!expired_at("opaque-token", u64::MAX));
    assert!(!expired_at("a.!!!.c", u64::MAX));
    let padded = format!("h.{}.s", "eyJleHAiOjEwMH0=");
    assert!(expired_at(&padded, 100));
    assert!(exp_reached(Some(10), 10));
    assert!(!exp_reached(Some(11), 10));
    assert!(!exp_reached(None, 10));
}

#[test]
fn token_file_and_refresh_rules() {
    assert_eq!(token_from_file_text("  tok123\n"), Some("tok123".to_string()));
    assert_eq!(token_from_file_text(" \n\t "), None);
    assert!(token_needs_refresh(None, &None, 0));
    let expired = jwt_with_payload(r#"{"exp":10}"#);
    assert!(token_needs_refresh(Some(&expired), &claims(&expired), 10));
    assert!(!token_needs_refresh(Some(&expired), &claims(&expired), 9));
    assert!(!token_needs_refresh(Some("opaque"), &claims("opaque"), 1_000_000));
    assert_eq!(token_after_refresh(Some(Ok("new".to_string())), Some("old".to_string())), Some("new".to_string()));
    assert_eq!(
        token_after_refresh(Some(Err(ContextCutterError::Internal("x".to_string()))), Some("old".to_string())),
        Some("old".to_string())
    );
    assert_eq!(token_after_refresh(None, None), None);
    let headers = with_bearer(vec![("X".to_string(), "1".to_string())], Some("abc".to_string()));
    assert_eq!(
        headers,
        vec![("X".to_string(), "1".to_string()), ("Authorization".to_string(), "Bearer abc".to_string())]
    );
    assert_eq!(with_bearer(vec![], None), vec![]);
}

#[test]
fn pkce_challenge_matches_rfc7636_example() {
    assert_eq!(
        pkce_challenge("dBjftJeZ4CVP-mB92K27uhbUJU1p1r_wW1gFWFOEjXk"),
        "E9Melhoa2OwvFrEMTJguCHaoeK1t8URWbuGJSstw-cM"
    );
}

#[test]
fn oauth_urls_and_bodies() {
    assert_eq!(oauth_base_url("https://mcp.example.com/v1/mcp?x=1"), "https://mcp.example.com");
    assert_eq!(oauth_base_url("https://mcp.example.com"), "https://mcp.example.com");
    assert_eq!(oauth_base_url("host/path"), "host");
    assert_eq!(callback_redirect_uri(8123), "http://127.0.0.1:8123/callback");
    assert_eq!(
        authorization_url("https://auth.io/authorize", "cid", "http://127.0.0.1:1/callback", "st", "ch"),
        "https://auth.io/authorize?client_id=cid&response_type=code&redirect_uri=http%3A%2F%2F127.0.0.1%3A1%2Fcallback&scope=read+write&state=st&code_challenge=ch&code_challenge_method=S256"
    );
    assert_eq!(
        token_request_body("c 1", "cid", "ver", "http://x/cb"),
        "grant_type=authorization_code&code=c%201&client_id=cid&code_verifier=ver&redirect_uri=http%3A%2F%2Fx%2Fcb"
    );
    assert_eq!(
        registration_request_body("http://127.0.0.1:5/callback"),
        r#"{"client_name":"context-cutter-proxy","grant_types":["authorization_code"],"redirect_uris":["http://127.0.0.1:5/callback"],"response_types":["code"],"token_endpoint_auth_method":"none"}"#
    );
}

#[test]
fn callback_code_extraction() {
    assert_eq!(
        callback_code("GET /callback?state=s&code=abc123 HTTP/1.1\r\nHost: x\r\n\r\n").unwrap(),
        "abc123"
    );
    assert_eq!(callback_code("GET /callback?code=first&code=second HTTP/1.1\r\n").unwrap(), "first");
    let missing = callback_code("GET /callback?state=s HTTP/1.1\r\n").unwrap_err();
    assert_eq!(missing.message(), "request failed: OAuth callback: missing `code` parameter");
    assert!(callback_code("GET /callback?code=&state=s HTTP/1.1").is_err());
    assert!(callback_code("").is_err());
    assert!(callback_code("GET /callback HTTP/1.1").is_err());
}

#[test]
fn authorization_server_answers() {
    let meta = oauth_meta_from(parse(
        r#"{"authorization_endpoint":"https://a/auth","token_endpoint":"https://a/token","registration_endpoint":"https://a/reg"}"#,
    ))
    .unwrap();
    assert_eq!(meta.authorization_endpoint, "https://a/auth");
    assert_eq!(meta.token_endpoint, "https://a/token");
    assert_eq!(meta.registration_endpoint, Some("https://a/reg".to_string()));
    let no_reg = oauth_meta_from(parse(r#"{"authorization_endpoint":"x","token_endpoint":"y","registration_endpoint":5}"#))
        .unwrap();
    assert_eq!(no_reg.registration_endpoint, None);
    let missing = oauth_meta_from(parse(r#"{"token_endpoint":"y"}"#)).err().unwrap();
    assert_eq!(missing.message(), "request failed: OAuth: missing authorization_endpoint");
    let missing_token = oauth_meta_from(parse(r#"{"authorization_endpoint":"x"}"#)).err().unwrap();
    assert_eq!(missing_token.message(), "request failed: OAuth: missing token_endpoint");
    let bad = oauth_meta_from(parse("<html>")).err().unwrap();
    assert!(bad.message().starts_with("invalid JSON payload: OAuth discovery JSON: "));

    assert_eq!(client_id_from_response("{}", parse(r#"{"client_id":"c1"}"#)).unwrap(), "c1");
    assert_eq!(
        client_id_from_response("{}", parse("{}")).unwrap_err().message(),
        "request failed: client registration: missing client_id in: {}"
    );
    assert_eq!(access_token_from_response("", parse(r#"{"access_token":"t1"}"#)).unwrap(), "t1");
    assert_eq!(
        access_token_from_response(r#"{"error":"x"}"#, parse(r#"{"error":"x"}"#)).unwrap_err().message(),
        r#"request failed: token exchange: missing access_token (response: {"error":"x"})"#
    );
}

#[test]
fn jwt_payload_decodes_the_second_field() {
    let token = jwt_with_payload(r#"{"exp":100}"#);
    assert_eq!(jwt_payload(&token), Some(br#"{"exp":100}"#.to_vec()));
    assert_eq!(jwt_payload("h.eyJleHAiOjEwMH0=.s"), Some(br#"{"exp":100}"#.to_vec()));
    assert_eq!(jwt_payload("no-dots"), Some(Vec::new()));
    assert_eq!(jwt_payload("a.!!!.c"), None);
}

#[test]
fn exp_claim_takes_only_non_negative_integers() {
    assert_eq!(exp_claim_of(&parse(r#"{"exp":1700000000}"#).unwrap()), Some(1_700_000_000));
    assert_eq!(exp_claim_of(&parse(r#"{"exp":18446744073709551615}"#).unwrap()), Some(u64::MAX));
    assert_eq!(exp_claim_of(&parse(r#"{"exp":-5}"#).unwrap()), None);
    assert_eq!(exp_claim_of(&parse(r#"{"exp":1.5}"#).unwrap()), None);
    assert_eq!(exp_claim_of(&parse(r#"{"exp":"100"}"#).unwrap()), None);
    assert_eq!(exp_claim_of(&parse(r#"{"sub":"x"}"#).unwrap()), None);
    assert_eq!(exp_claim_of(&parse("[100]").unwrap()), None);
    assert!(!is_jwt_expired(&Some(parse(r#"{"exp":-5}"#)), u64::MAX));
    assert!(!is_jwt_expired(&Some(Err("expected value".to_string())), u64::MAX));
    assert!(!is_jwt_expired(&None, u64::MAX));
    assert!(is_jwt_expired(&Some(parse(r#"{"exp":7}"#)), 7));
}

#[test]
fn discovery_url_appends_the_well_known_path() {
    assert_eq!(
        oauth_discovery_url("https://auth.example.com"),
        "https://auth.example.com/.well-known/oauth-authorization-server"
    );
}
