//! Checks on what callers hand the server: URLs, query inputs, proxy headers and
//! fetch requests.

use vstd::prelude::*;
use vstd::string::*;
use vstd::utf8::{encode_utf8, is_ascii_chars};

use crate::error::ContextCutterError;
use crate::text::{
    all_ws, chars_to_string, decimal, has_nul_byte, is_blank, is_prefix, push_decimal, push_str,
    starts_with_chars, str_to_chars,
};

verus! {

/// Longest accepted path expression, in characters.
pub const MAX_JSON_PATH_LEN: usize = 4096;

/// Accepts only `https://` URLs without zero bytes.
pub fn validate_https_url(url: &str) -> (r: Result<(), ContextCutterError>)
    ensures
        if url.spec_bytes().contains(0u8) {
            r matches Err(ContextCutterError::Validation(m)) && m@ == "url must not contain null bytes"@
        } else if !is_prefix("https://"@, url@) {
            r matches Err(ContextCutterError::Validation(m)) && m@ == "only https URLs are allowed"@
        } else {
            r is Ok
        },
{
    if has_nul_byte(url) {
        return Err(ContextCutterError::Validation("url must not contain null bytes".to_owned()));
    }
    let u = str_to_chars(url);
    let p = str_to_chars("https://");
    if !starts_with_chars(&u, &p) {
        return Err(ContextCutterError::Validation("only https URLs are allowed".to_owned()));
    }
    Ok(())
}

/// The message for a path expression longer than the limit.
pub open spec fn path_too_long_text(n: nat) -> Seq<char> {
    "json path too long: "@ + decimal(n) + " characters (max "@ + decimal(MAX_JSON_PATH_LEN as nat) + ")"@
}

/// What is wrong with the inputs of a query, checked in this order: a blank handle,
/// a handle holding a zero byte, a blank path expression, one longer than the
/// limit in characters, one holding a zero byte; nothing when all is well.
pub open spec fn query_input_error(handle_id: Seq<char>, json_path: Seq<char>) -> Option<Seq<char>> {
    if all_ws(handle_id) {
        Some("handle_id must not be empty"@)
    } else if encode_utf8(handle_id).contains(0u8) {
        Some("handle_id must not contain null bytes"@)
    } else if all_ws(json_path) {
        Some("json path must not be empty"@)
    } else if json_path.len() > MAX_JSON_PATH_LEN {
        Some(path_too_long_text(json_path.len()))
    } else if encode_utf8(json_path).contains(0u8) {
        Some("json path must not contain null bytes"@)
    } else {
        None
    }
}

/// Checks the inputs of a query (see `query_input_error`).
pub fn validate_query_inputs(handle_id: &str, json_path: &str) -> (r: Result<(), ContextCutterError>)
    ensures
        match query_input_error(handle_id@, json_path@) {
            Some(m) => r matches Err(ContextCutterError::Validation(e)) && e@ == m,
            None => r is Ok,
        },
{
    if is_blank(handle_id) {
        return Err(ContextCutterError::Validation("handle_id must not be empty".to_owned()));
    }
    if has_nul_byte(handle_id) {
        return Err(ContextCutterError::Validation("handle_id must not contain null bytes".to_owned()));
    }
    if is_blank(json_path) {
        return Err(ContextCutterError::Validation("json path must not be empty".to_owned()));
    }
    let n = str_to_chars(json_path).len();
    if n > MAX_JSON_PATH_LEN {
        let mut out: Vec<char> = Vec::new();
        push_str(&mut out, "json path too long: ");
        push_decimal(&mut out, n as u64);
        push_str(&mut out, " characters (max ");
        push_decimal(&mut out, MAX_JSON_PATH_LEN as u64);
        push_str(&mut out, ")");
        assert(out@ =~= path_too_long_text(n as nat));
        return Err(ContextCutterError::Validation(chars_to_string(&out)));
    }
    if has_nul_byte(json_path) {
        return Err(ContextCutterError::Validation("json path must not contain null bytes".to_owned()));
    }
    Ok(())
}

/// The text a tool answers with when it fails: the error's message.
pub fn boundary_error(err: ContextCutterError) -> (r: String)
    ensures
        r@ == err.message_text(),
{
    err.message()
}

/// The first position at or after `i` where `": "` starts in `s`.
pub open spec fn colon_space_from(s: Seq<char>, i: nat) -> Option<nat>
    decreases s.len() - i,
{
    if i + 1 >= s.len() {
        None
    } else if s[i as int] == ':' && s[(i + 1) as int] == ' ' {
        Some(i)
    } else {
        colon_space_from(s, i + 1)
    }
}

/// A `"Key: Value"` header split at its first `": "`.
pub open spec fn header_pair(s: Seq<char>) -> Option<(Seq<char>, Seq<char>)> {
    match colon_space_from(s, 0) {
        None => None,
        Some(i) => Some((s.take(i as int), s.skip((i + 2) as int))),
    }
}

/// The message for a header without `": "`.
pub open spec fn bad_header_text(h: Seq<char>) -> Seq<char> {
    "invalid --proxy-header (expected 'Key: Value'): "@ + h
}

/// The pairs of a list of headers, or the message for the first one that has no
/// `": "`.
pub open spec fn parsed_headers(raw: Seq<Seq<char>>) -> Result<Seq<(Seq<char>, Seq<char>)>, Seq<char>>
    decreases raw.len(),
{
    if raw.len() == 0 {
        Ok(Seq::empty())
    } else {
        match header_pair(raw[0]) {
            None => Err(bad_header_text(raw[0])),
            Some(p) => match parsed_headers(raw.drop_first()) {
                Err(e) => Err(e),
                Ok(rest) => Ok(seq![p] + rest),
            },
        }
    }
}

/// Whether `": "` starts at position `k` of `s`.
pub open spec fn separator_at(s: Seq<char>, k: int) -> bool {
    0 <= k && k + 1 < s.len() && s[k] == ':' && s[k + 1] == ' '
}

proof fn lemma_colon_space_from(s: Seq<char>, i: nat)
    ensures
        match colon_space_from(s, i) {
            Some(j) => i <= j && separator_at(s, j as int) && forall|k: int| i <= k < j ==> !separator_at(s, k),
            None => forall|k: int| i <= k ==> !separator_at(s, k),
        },
    decreases s.len() - i,
{
    if i + 1 < s.len() && !(s[i as int] == ':' && s[(i + 1) as int] == ' ') {
        lemma_colon_space_from(s, i + 1);
    }
}

/// Law: a header splits at its first `": "`: the key is what comes before it and
/// the value what follows it; a header without `": "` has no split.
pub proof fn law_header_splits_at_first_separator(s: Seq<char>)
    ensures
        match header_pair(s) {
            Some(p) => exists|j: int|
                separator_at(s, j) && (forall|k: int| 0 <= k < j ==> !separator_at(s, k)) && p.0 == s.take(j)
                    && p.1 == s.skip(j + 2),
            None => forall|k: int| !separator_at(s, k),
        },
{
    lemma_colon_space_from(s, 0);
    if let Some(j) = colon_space_from(s, 0) {
        assert(separator_at(s, j as int));
    }
}

/// Law: a list of headers parses exactly when every header holds `": "`; then the
/// pairs are the headers' splits, one per header, in order; otherwise the error
/// names the first header without one.
pub proof fn law_headers_parse_item_by_item(raw: Seq<Seq<char>>)
    ensures
        (forall|i: int| 0 <= i < raw.len() ==> #[trigger] header_pair(raw[i]) is Some) ==> parsed_headers(raw)
            == Ok::<Seq<(Seq<char>, Seq<char>)>, Seq<char>>(
            Seq::new(raw.len(), |i: int| header_pair(raw[i])->Some_0),
        ),
        forall|j: int|
            0 <= j < raw.len() && #[trigger] header_pair(raw[j]) is None && (forall|i: int|
                0 <= i < j ==> header_pair(raw[i]) is Some) ==> parsed_headers(raw) == Err::<
                Seq<(Seq<char>, Seq<char>)>,
                Seq<char>,
            >(bad_header_text(raw[j])),
    decreases raw.len(),
{
    if raw.len() > 0 {
        let t = raw.drop_first();
        law_headers_parse_item_by_item(t);
        if forall|i: int| 0 <= i < raw.len() ==> #[trigger] header_pair(raw[i]) is Some {
            assert forall|i: int| 0 <= i < t.len() implies #[trigger] header_pair(t[i]) is Some by {
                assert(t[i] == raw[i + 1]);
                assert(header_pair(raw[i + 1]) is Some);
            }
            assert(header_pair(raw[0]) is Some);
            let rest = Seq::new(t.len(), |i: int| header_pair(t[i])->Some_0);
            assert(parsed_headers(t) == Ok::<Seq<(Seq<char>, Seq<char>)>, Seq<char>>(rest));
            assert(seq![header_pair(raw[0])->Some_0] + rest =~= Seq::new(
                raw.len(),
                |i: int| header_pair(raw[i])->Some_0,
            ));
        }
        assert forall|j: int|
            0 <= j < raw.len() && #[trigger] header_pair(raw[j]) is None && (forall|i: int|
                0 <= i < j ==> header_pair(raw[i]) is Some) implies parsed_headers(raw) == Err::<
            Seq<(Seq<char>, Seq<char>)>,
            Seq<char>,
        >(bad_header_text(raw[j])) by {
            if j > 0 {
                assert(header_pair(raw[0]) is Some);
                assert(t[j - 1] == raw[j]);
                assert forall|i: int| 0 <= i < j - 1 implies header_pair(t[i]) is Some by {
                    assert(t[i] == raw[i + 1]);
                }
                assert(header_pair(t[j - 1]) is None);
            }
        }
    } else {
        assert(Seq::new(raw.len(), |i: int| header_pair(raw[i])->Some_0) =~= Seq::<
            (Seq<char>, Seq<char>),
        >::empty());
    }
}

/// The view of a list of string pairs.
pub open spec fn pairs_view(v: Seq<(String, String)>) -> Seq<(Seq<char>, Seq<char>)> {
    v.map_values(|p: (String, String)| (p.0@, p.1@))
}

/// The view of a list of strings.
pub open spec fn strings_view(v: Seq<String>) -> Seq<Seq<char>> {
    v.map_values(|s: String| s@)
}

/// Splits one `"Key: Value"` header at its first `": "`.
fn split_header(h: &str) -> (r: Option<(String, String)>)
    ensures
        match r {
            None => header_pair(h@) is None,
            Some(p) => header_pair(h@) == Some((p.0@, p.1@)),
        },
{
    let cs = str_to_chars(h);
    let mut j: usize = 0;
    while cs.len() > 1 && j < cs.len() - 1 && !(cs[j] == ':' && cs[j + 1] == ' ')
        invariant
            cs@ == h@,
            j <= cs@.len(),
            colon_space_from(h@, 0) == colon_space_from(h@, j as nat),
        decreases cs@.len() - j,
    {
        j += 1;
    }
    if cs.len() <= 1 || j >= cs.len() - 1 {
        return None;
    }
    let mut key: Vec<char> = Vec::new();
    let mut k: usize = 0;
    while k < j
        invariant
            j < cs@.len(),
            k <= j,
            key@ == cs@.take(k as int),
        decreases j - k,
    {
        key.push(cs[k]);
        k += 1;
        assert(key@ =~= cs@.take(k as int));
    }
    let mut val: Vec<char> = Vec::new();
    let mut m: usize = j + 2;
    while m < cs.len()
        invariant
            j + 2 <= m <= cs@.len(),
            val@ == cs@.subrange(j + 2, m as int),
        decreases cs@.len() - m,
    {
        val.push(cs[m]);
        m += 1;
        assert(val@ =~= cs@.subrange(j + 2, m as int));
    }
    assert(val@ =~= cs@.skip(j + 2));
    Some((chars_to_string(&key), chars_to_string(&val)))
}

/// Parses `--proxy-header` values of the form `"Key: Value"` into pairs, splitting
/// each at its first `": "`; fails on the first value without one.
pub fn parse_proxy_headers(raw: &[String]) -> (r: Result<Vec<(String, String)>, String>)
    ensures
        match r {
            Ok(v) => parsed_headers(strings_view(raw@)) == Ok::<Seq<(Seq<char>, Seq<char>)>, Seq<char>>(
                pairs_view(v@),
            ),
            Err(e) => parsed_headers(strings_view(raw@)) == Err::<Seq<(Seq<char>, Seq<char>)>, Seq<char>>(
                e@,
            ),
        },
{
    let ghost all = strings_view(raw@);
    let mut out: Vec<(String, String)> = Vec::new();
    let mut i: usize = 0;
    assert(all.skip(0) =~= all);
    assert(forall|t: Seq<(Seq<char>, Seq<char>)>| pairs_view(out@) + t =~= t);
    while i < raw.len()
        invariant
            all == strings_view(raw@),
            i <= raw@.len(),
            parsed_headers(all) == match parsed_headers(all.skip(i as int)) {
                Err(e) => Err(e),
                Ok(t) => Ok(pairs_view(out@) + t),
            },
        decreases raw@.len() - i,
    {
        let ghost rest = all.skip(i as int);
        assert(rest[0] == raw@[i as int]@);
        assert(rest.drop_first() =~= all.skip(i + 1));
        match split_header(raw[i].as_str()) {
            None => {
                let mut msg: Vec<char> = Vec::new();
                push_str(&mut msg, "invalid --proxy-header (expected 'Key: Value'): ");
                push_str(&mut msg, raw[i].as_str());
                assert(msg@ =~= bad_header_text(raw@[i as int]@));
                return Err(chars_to_string(&msg));
            },
            Some(p) => {
                let ghost before = pairs_view(out@);
                let ghost pv = (p.0@, p.1@);
                out.push(p);
                assert(pairs_view(out@) =~= before.push(pv));
                assert forall|t: Seq<(Seq<char>, Seq<char>)>| before + (seq![pv] + t) =~= pairs_view(out@) + t by {}
            },
        }
        i += 1;
    }
    assert(all.skip(i as int) =~= Seq::<Seq<char>>::empty());
    assert(pairs_view(out@) + Seq::<(Seq<char>, Seq<char>)>::empty() =~= pairs_view(out@));
    Ok(out)
}

/// Whether the URL is at its end, or at a port, path, query or fragment, at `n`.
pub open spec fn ends_host_at(u: Seq<char>, n: int) -> bool {
    n >= u.len() || u[n] == ':' || u[n] == '/' || u[n] == '?' || u[n] == '#'
}

/// Whether `u` is `http://localhost` or `http://127.0.0.1`, optionally followed by
/// a port, a path, a query or a fragment (and not by more host name).
pub open spec fn localhost_proxy_url(u: Seq<char>) -> bool {
    if is_prefix("http://127.0.0.1"@, u) {
        ends_host_at(u, "http://127.0.0.1"@.len() as int)
    } else if is_prefix("http://localhost"@, u) {
        ends_host_at(u, "http://localhost"@.len() as int)
    } else {
        false
    }
}

/// Returns true if `url` is a plain-http localhost URL that the proxy may use for
/// local testing: `http://localhost` or `http://127.0.0.1`, optionally with a port,
/// path, query or fragment, and never a longer host name.
pub fn is_localhost_proxy_url(url: &str) -> (r: bool)
    ensures
        r == localhost_proxy_url(url@),
{
    let u = str_to_chars(url);
    let ip = str_to_chars("http://127.0.0.1");
    let host = str_to_chars("http://localhost");
    if starts_with_chars(&u, &ip) {
        let n = ip.len();
        n >= u.len() || u[n] == ':' || u[n] == '/' || u[n] == '?' || u[n] == '#'
    } else if starts_with_chars(&u, &host) {
        let n = host.len();
        n >= u.len() || u[n] == ':' || u[n] == '/' || u[n] == '?' || u[n] == '#'
    } else {
        false
    }
}

/// Whether the proxy may forward to `url`: any `https://` URL, or a localhost URL
/// for local testing.
pub fn proxy_url_allowed(url: &str) -> (r: bool)
    ensures
        r == (is_prefix("https://"@, url@) || localhost_proxy_url(url@)),
{
    let u = str_to_chars(url);
    let p = str_to_chars("https://");
    starts_with_chars(&u, &p) || is_localhost_proxy_url(url)
}

/// Refuses a response body longer than the limit, in bytes.
pub fn check_payload_size(actual_bytes: usize, max_bytes: usize) -> (r: Result<(), ContextCutterError>)
    ensures
        if actual_bytes > max_bytes {
            r matches Err(ContextCutterError::PayloadTooLarge { actual_bytes: a, max_bytes: m })
                && a == actual_bytes && m == max_bytes
        } else {
            r is Ok
        },
{
    if actual_bytes > max_bytes {
        Err(ContextCutterError::PayloadTooLarge { actual_bytes, max_bytes })
    } else {
        Ok(())
    }
}

/// The upper-case form of a string, by Unicode's full case mapping.
pub uninterp spec fn uppercase(s: Seq<char>) -> Seq<char>;

/// `s` with the ASCII letters `a` to `z` upper-cased and every other character kept.
pub open spec fn ascii_upper(s: Seq<char>) -> Seq<char> {
    Seq::new(s.len(), |i: int| if 'a' <= s[i] <= 'z' { ((s[i] as u32) - 32) as char } else { s[i] })
}

/// Trusted: calls `str::to_uppercase`. The contract claims that the result is a
/// function of the input's characters (named `uppercase`), and that on an all-ASCII
/// string it upper-cases the letters `a` to `z` and keeps everything else; the rest
/// of Unicode's case mapping is left unstated.
#[verifier::external_body]
fn to_upper(s: &str) -> (r: String)
    ensures
        r@ == uppercase(s@),
        is_ascii_chars(s@) ==> r@ == ascii_upper(s@),
{
    s.to_uppercase()
}

/// Whether some key or value of `headers` holds a zero byte.
pub open spec fn headers_have_nul(headers: Seq<(String, String)>) -> bool {
    exists|i: int|
        0 <= i < headers.len() && (encode_utf8((#[trigger] headers[i]).0@).contains(0u8)
            || encode_utf8(headers[i].1@).contains(0u8))
}

/// Checks a fetch request before it is sent and returns the HTTP method to use: the
/// URL must pass `validate_https_url`; the method, `GET` when none is given, is
/// upper-cased and must hold no zero byte; no header key or value may hold one.
#[verifier::loop_isolation(false)]
pub fn validate_fetch_request(url: &str, method: Option<&str>, headers: &Vec<(String, String)>) -> (r: Result<
    String,
    ContextCutterError,
>)
    ensures
        ({
            let m = uppercase(
                match method {
                    Some(s) => s@,
                    None => "GET"@,
                },
            );
            if url.spec_bytes().contains(0u8) || !is_prefix("https://"@, url@) {
                r matches Err(ContextCutterError::Validation(e)) && (if url.spec_bytes().contains(0u8) {
                    e@ == "url must not contain null bytes"@
                } else {
                    e@ == "only https URLs are allowed"@
                })
            } else if encode_utf8(m).contains(0u8) {
                r matches Err(ContextCutterError::Validation(e)) && e@
                    == "method must not contain null bytes"@
            } else if headers_have_nul(headers@) {
                r matches Err(ContextCutterError::Validation(e)) && e@
                    == "headers must not contain null bytes"@
            } else {
                r matches Ok(s) && s@ == m
            }
        }),
        method is None && r is Ok ==> (r matches Ok(s) && s@ == "GET"@),
        (match method {
            Some(x) => is_ascii_chars(x@),
            None => true,
        }) && r is Ok ==> (r matches Ok(s) && s@ == ascii_upper(
            match method {
                Some(x) => x@,
                None => "GET"@,
            },
        )),
{
    match validate_https_url(url) {
        Err(e) => {
            return Err(e);
        },
        Ok(()) => {},
    }
    proof {
        reveal_strlit("GET");
        assert(is_ascii_chars("GET"@));
        assert(ascii_upper("GET"@) =~= "GET"@);
    }
    let m = match method {
        Some(s) => to_upper(s),
        None => to_upper("GET"),
    };
    if has_nul_byte(m.as_str()) {
        return Err(ContextCutterError::Validation("method must not contain null bytes".to_owned()));
    }
    let mut i: usize = 0;
    while i < headers.len()
        invariant
            i <= headers@.len(),
            forall|k: int|
                0 <= k < i ==> !(encode_utf8((#[trigger] headers@[k]).0@).contains(0u8)
                    || encode_utf8(headers@[k].1@).contains(0u8)),
        decreases headers@.len() - i,
    {
        if has_nul_byte(headers[i].0.as_str()) || has_nul_byte(headers[i].1.as_str()) {
            assert(encode_utf8((headers@[i as int]).0@).contains(0u8) || encode_utf8(headers@[i as int].1@).contains(0u8));
            return Err(ContextCutterError::Validation("headers must not contain null bytes".to_owned()));
        }
        i += 1;
    }
    Ok(m)
}

} // verus!
