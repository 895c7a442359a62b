//! The proxy's OAuth 2.0 login with PKCE: percent-encoding, the URLs and request
//! bodies of the flow, the browser callback, the answers of the authorization
//! server, and bearer tokens with their expiry.

use vstd::prelude::*;
use vstd::string::*;

use crate::base64url::{b64_decode, b64_decode_slice, b64_encode, base64url_encode};
use crate::canonical::{sha256, sha256_digest};
use crate::checks::pairs_view;
use crate::error::ContextCutterError;
use crate::json::{
    JsonNumber, JsonValue, JsonView, NumberView, get_in, get_member, entries_view, items_view, json_text, lemma_entries_view, lemma_items_view, str_in,
    str_member, to_json_string,
};
use crate::text::{
    chars_to_string, decimal, find_from, hex_upper, hex_upper_exec, is_prefix, is_ws, is_ws_exec,
    occurs_from, push_chars, push_decimal, push_str, slice_chars, starts_with_chars, str_to_chars, trim,
    trim_chars,
};

verus! {

/// Bytes that stand for themselves in a query parameter: ASCII letters and digits
/// and `-`, `_`, `.`, `~`.
pub open spec fn unreserved(b: u8) -> bool {
    (48 <= b <= 57) || (65 <= b <= 90) || (97 <= b <= 122) || b == 45 || b == 95 || b == 46 || b == 126
}

/// One byte, percent-encoded when it is not unreserved (upper-case hexadecimal).
pub open spec fn percent_byte(b: u8) -> Seq<char> {
    if unreserved(b) {
        seq![b as char]
    } else {
        seq!['%', hex_upper((b / 16) as nat), hex_upper((b % 16) as nat)]
    }
}

/// The percent-encoding of the bytes `b`, byte by byte.
pub open spec fn percent_encoded(b: Seq<u8>) -> Seq<char>
    decreases b.len(),
{
    if b.len() == 0 {
        Seq::empty()
    } else {
        percent_encoded(b.drop_last()) + percent_byte(b.last())
    }
}

/// Percent-encodes a string for use in query parameters: each UTF-8 byte that is
/// not an ASCII letter, digit, `-`, `_`, `.` or `~` becomes `%XX`.
pub fn url_encode(s: &str) -> (r: String)
    ensures
        r@ == percent_encoded(s.spec_bytes()),
{
    let b = s.as_bytes();
    let mut out: Vec<char> = Vec::new();
    let mut i: usize = 0;
    while i < b.len()
        invariant
            i <= b@.len(),
            b@ == s.spec_bytes(),
            out@ == percent_encoded(b@.take(i as int)),
        decreases b@.len() - i,
    {
        let x = b[i];
        if (48 <= x && x <= 57) || (65 <= x && x <= 90) || (97 <= x && x <= 122) || x == 45 || x == 95
            || x == 46 || x == 126 {
            out.push(x as char);
        } else {
            out.push('%');
            out.push(hex_upper_exec(x / 16));
            out.push(hex_upper_exec(x % 16));
        }
        assert(b@.take(i + 1).drop_last() =~= b@.take(i as int));
        i += 1;
        assert(out@ =~= percent_encoded(b@.take(i as int)));
    }
    assert(b@.take(b@.len() as int) =~= b@);
    chars_to_string(&out)
}

/// Whether `c` may stand in a query parameter as the encoding leaves it: an
/// unreserved character, `%`, or an upper-case hexadecimal digit.
pub open spec fn url_safe(c: char) -> bool {
    ('0' <= c <= '9') || ('A' <= c <= 'Z') || ('a' <= c <= 'z') || c == '-' || c == '_' || c == '.' || c == '~'
        || c == '%'
}

/// Law: the percent-encoding of any bytes is made only of unreserved characters
/// and `%XX` escapes, so it can stand in a query parameter as it is.
pub proof fn law_percent_encoding_is_url_safe(b: Seq<u8>)
    ensures
        forall|i: int| 0 <= i < percent_encoded(b).len() ==> url_safe(#[trigger] percent_encoded(b)[i]),
    decreases b.len(),
{
    if b.len() > 0 {
        law_percent_encoding_is_url_safe(b.drop_last());
        let p = percent_encoded(b.drop_last());
        let q = percent_byte(b.last());
        assert forall|i: int| 0 <= i < (p + q).len() implies url_safe(#[trigger] (p + q)[i]) by {
            if i < p.len() {
                assert((p + q)[i] == p[i]);
            } else {
                assert((p + q)[i] == q[i - p.len()]);
            }
        }
    }
}

/// The first position at or after `i` where byte `x` occurs in `b`.
pub open spec fn byte_index_from(b: Seq<u8>, x: u8, i: nat) -> Option<nat>
    decreases b.len() + 1 - i,
{
    if i >= b.len() {
        None
    } else if b[i as int] == x {
        Some(i)
    } else {
        byte_index_from(b, x, i + 1)
    }
}

/// The second `.`-separated field of `b` (empty when there is no `.`).
pub open spec fn second_field(b: Seq<u8>) -> Seq<u8> {
    match byte_index_from(b, 46u8, 0) {
        None => Seq::empty(),
        Some(p) => match byte_index_from(b, 46u8, p + 1) {
            None => b.subrange((p + 1) as int, b.len() as int),
            Some(q) => b.subrange((p + 1) as int, q as int),
        },
    }
}

fn find_byte(b: &[u8], x: u8, from: usize) -> (r: Option<usize>)
    requires
        from <= b@.len(),
    ensures
        match r {
            Some(i) => byte_index_from(b@, x, from as nat) == Some(i as nat) && from <= i < b@.len(),
            None => byte_index_from(b@, x, from as nat) is None,
        },
{
    let mut i: usize = from;
    while i < b.len()
        invariant
            from <= i <= b@.len(),
            byte_index_from(b@, x, from as nat) == byte_index_from(b@, x, i as nat),
        decreases b@.len() - i,
    {
        if b[i] == x {
            return Some(i);
        }
        i += 1;
    }
    None
}

fn copy_bytes(b: &[u8], lo: usize, hi: usize) -> (r: Vec<u8>)
    requires
        lo <= hi <= b@.len(),
    ensures
        r@ == b@.subrange(lo as int, hi as int),
{
    let mut r: Vec<u8> = Vec::new();
    let mut k: usize = lo;
    while k < hi
        invariant
            lo <= k <= hi <= b@.len(),
            r@ == b@.subrange(lo as int, k as int),
        decreases hi - k,
    {
        r.push(b[k]);
        k += 1;
        assert(r@ =~= b@.subrange(lo as int, k as int));
    }
    r
}

/// The payload segment of a token: its second `.`-separated field.
fn payload_segment(token: &[u8]) -> (r: Vec<u8>)
    ensures
        r@ == second_field(token@),
{
    let n = token.len();
    match find_byte(token, 46, 0) {
        None => Vec::new(),
        Some(p) => match find_byte(token, 46, p + 1) {
            None => copy_bytes(token, p + 1, token.len()),
            Some(q) => copy_bytes(token, p + 1, q),
        },
    }
}

/// Where an authorization server at `base` publishes its metadata.
pub fn oauth_discovery_url(base: &str) -> (r: String)
    ensures
        r@ == base@ + "/.well-known/oauth-authorization-server"@,
{
    let mut v: Vec<char> = Vec::new();
    push_str(&mut v, base);
    push_str(&mut v, "/.well-known/oauth-authorization-server");
    chars_to_string(&v)
}

/// The decoded payload of a token: the base64url decoding of its second
/// `.`-separated field, when that field decodes.
pub fn jwt_payload(token: &str) -> (r: Option<Vec<u8>>)
    ensures
        match r {
            Some(v) => b64_decode(second_field(token.spec_bytes())) == Some(v@),
            None => b64_decode(second_field(token.spec_bytes())) is None,
        },
{
    let payload = payload_segment(token.as_bytes());
    b64_decode_slice(payload.as_slice())
}

/// The `exp` claim of a parsed payload: the member named `exp` of an object, when
/// it holds a non-negative integer that fits in 64 bits (`Value::as_u64`).
pub open spec fn exp_member(claims: JsonView) -> Option<u64> {
    match get_in(claims, "exp"@) {
        Some(JsonView::Number(NumberView::PosInt(u))) => Some(u),
        _ => None,
    }
}

/// The `exp` claim of a parsed payload. Negative and fractional numbers, values of
/// other kinds, a missing member and a payload that is no object give nothing.
pub fn exp_claim_of(claims: &JsonValue) -> (r: Option<u64>)
    ensures
        r == exp_member(claims@),
{
    match get_member(claims, "exp") {
        Some(JsonValue::Number(JsonNumber::PosInt(u))) => Some(*u),
        _ => None,
    }
}

/// Whether an expiry time, in seconds since the Unix epoch, has been reached at
/// `now`; a missing expiry never is.
pub open spec fn exp_passed(exp: Option<u64>, now: u64) -> bool {
    match exp {
        Some(e) => now >= e,
        None => false,
    }
}

/// Whether the expiry `exp`, if there is one, has been reached at `now_secs`.
pub fn exp_reached(exp: Option<u64>, now_secs: u64) -> (r: bool)
    ensures
        r == exp_passed(exp, now_secs),
{
    match exp {
        Some(e) => now_secs >= e,
        None => false,
    }
}

/// Whether a token has expired at `now`, given what became of its payload: nothing
/// when the payload did not decode, the parser's error when it is not JSON, and the
/// parsed document otherwise. Only a document whose `exp` has been reached counts.
pub open spec fn claims_expired(claims: Option<Result<JsonView, Seq<char>>>, now: u64) -> bool {
    match claims {
        Some(Ok(v)) => exp_passed(exp_member(v), now),
        _ => false,
    }
}

/// The view of a parsed payload, or of what stood in its place.
pub open spec fn claims_view(claims: Option<Result<JsonValue, String>>) -> Option<Result<JsonView, Seq<char>>> {
    match claims {
        Some(Ok(v)) => Some(Ok(v@)),
        Some(Err(e)) => Some(Err(e@)),
        None => None,
    }
}

/// Whether a token is a JWT that has expired at `now_secs` (seconds since the Unix
/// epoch). `claims` is what became of the token's payload (see `jwt_payload`):
/// `None` when it did not decode, else the JSON parser's result on the decoded
/// bytes. Encrypted, opaque and `exp`-less tokens count as valid.
pub fn is_jwt_expired(claims: &Option<Result<JsonValue, String>>, now_secs: u64) -> (r: bool)
    ensures
        r == claims_expired(claims_view(*claims), now_secs),
{
    match claims {
        Some(Ok(v)) => exp_reached(exp_claim_of(v), now_secs),
        _ => false,
    }
}

/// The token kept in a token file: its text without surrounding whitespace, unless
/// nothing is left.
pub fn token_from_file_text(text: &str) -> (r: Option<String>)
    ensures
        match r {
            Some(t) => t@ == trim(text@) && t@.len() > 0,
            None => trim(text@).len() == 0,
        },
{
    let cs = str_to_chars(text);
    let t = trim_chars(&cs);
    if t.len() == 0 {
        None
    } else {
        Some(chars_to_string(&t))
    }
}

/// Whether a new login is needed: when there is no stored token, or the stored one
/// is an expired JWT at `now_secs`; `claims` is what became of the stored token's
/// payload, as for `is_jwt_expired`.
pub fn token_needs_refresh(existing: Option<&str>, claims: &Option<Result<JsonValue, String>>, now_secs: u64) -> (r:
    bool)
    ensures
        r == match existing {
            None => true,
            Some(_) => claims_expired(claims_view(*claims), now_secs),
        },
{
    match existing {
        None => true,
        Some(_) => is_jwt_expired(claims, now_secs),
    }
}

/// The token to send: the one a login just produced; the stored one when no login
/// ran or the login failed.
pub fn token_after_refresh(refreshed: Option<Result<String, ContextCutterError>>, existing: Option<String>) -> (r:
    Option<String>)
    ensures
        r == match refreshed {
            Some(Ok(t)) => Some(t),
            _ => existing,
        },
{
    match refreshed {
        Some(Ok(t)) => Some(t),
        _ => existing,
    }
}

/// The headers of an upstream request: the extra headers, then an `Authorization`
/// header with the bearer token when there is one.
pub fn with_bearer(headers: Vec<(String, String)>, token: Option<String>) -> (r: Vec<(String, String)>)
    ensures
        pairs_view(r@) == pairs_view(headers@) + match token {
            Some(t) => seq![("Authorization"@, "Bearer "@ + t@)],
            None => Seq::<(Seq<char>, Seq<char>)>::empty(),
        },
{
    let mut out = headers;
    match token {
        Some(t) => {
            let mut v: Vec<char> = Vec::new();
            push_str(&mut v, "Bearer ");
            push_str(&mut v, t.as_str());
            let ghost before = out@;
            out.push(("Authorization".to_owned(), chars_to_string(&v)));
            assert(pairs_view(out@) =~= pairs_view(before).push(("Authorization"@, "Bearer "@ + t@)));
        },
        None => {
            assert(pairs_view(out@) =~= pairs_view(headers@) + Seq::<(Seq<char>, Seq<char>)>::empty());
        },
    }
    out
}

/// The PKCE challenge (method `S256`) of a code verifier: the base64url text of
/// the SHA-256 digest of its bytes.
pub fn pkce_challenge(verifier: &str) -> (r: String)
    ensures
        r@ == b64_encode(sha256(verifier.spec_bytes())),
{
    let digest = sha256_digest(verifier.as_bytes());
    base64url_encode(digest.as_slice())
}

/// The scheme and host of a URL: everything before the first `/` that follows
/// `://` (or the whole URL).
pub open spec fn url_base(u: Seq<char>) -> Seq<char> {
    let s: nat = match occurs_from(u, "://"@, 0) {
        Some(i) => i + "://"@.len(),
        None => 0,
    };
    let e: nat = match occurs_from(u, seq!['/'], s) {
        Some(j) => j,
        None => u.len(),
    };
    u.take(e as int)
}

/// The base URL of the authorization server: the upstream URL's scheme and host.
pub fn oauth_base_url(upstream_url: &str) -> (r: String)
    ensures
        r@ == url_base(upstream_url@),
{
    let u = str_to_chars(upstream_url);
    let sep = str_to_chars("://");
    let slash = str_to_chars("/");
    assert(slash@ =~= seq!['/']) by {
        reveal_strlit("/");
    }
    let n = u.len();
    proof {
        lemma_occurs_bound(u@, sep@, 0);
    }
    let s: usize = match find_from(&u, &sep, 0) {
        Some(i) => i + sep.len(),
        None => 0,
    };
    proof {
        lemma_occurs_bound(u@, slash@, s as nat);
    }
    let e: usize = match find_from(&u, &slash, s) {
        Some(j) => j,
        None => u.len(),
    };
    let b = slice_chars(&u, 0, e);
    assert(b@ =~= u@.take(e as int));
    chars_to_string(&b)
}

/// Where `occurs_from` finds a pattern, it lies within the string.
pub proof fn lemma_occurs_bound(s: Seq<char>, p: Seq<char>, i: nat)
    ensures
        match occurs_from(s, p, i) {
            Some(j) => i <= j && j + p.len() <= s.len(),
            None => true,
        },
    decreases s.len() + 1 - i,
{
    if i + p.len() <= s.len() && s.subrange(i as int, (i + p.len()) as int) != p {
        lemma_occurs_bound(s, p, i + 1);
    }
}

/// The redirect URI of the local callback server on `port`.
pub fn callback_redirect_uri(port: u16) -> (r: String)
    ensures
        r@ == "http://127.0.0.1:"@ + decimal(port as nat) + "/callback"@,
{
    let mut out: Vec<char> = Vec::new();
    push_str(&mut out, "http://127.0.0.1:");
    push_decimal(&mut out, port as u64);
    push_str(&mut out, "/callback");
    chars_to_string(&out)
}

/// The authorization URL the user opens to log in.
pub open spec fn authorization_url_text(
    endpoint: Seq<char>,
    client_id: Seq<char>,
    redirect_uri: Seq<char>,
    state: Seq<char>,
    challenge: Seq<char>,
) -> Seq<char> {
    endpoint + "?client_id="@ + percent_encoded(vstd::utf8::encode_utf8(client_id))
        + "&response_type=code&redirect_uri="@ + percent_encoded(vstd::utf8::encode_utf8(redirect_uri))
        + "&scope=read+write&state="@ + percent_encoded(vstd::utf8::encode_utf8(state))
        + "&code_challenge="@ + percent_encoded(vstd::utf8::encode_utf8(challenge))
        + "&code_challenge_method=S256"@
}

/// Builds the authorization URL for the login in the browser.
pub fn authorization_url(
    endpoint: &str,
    client_id: &str,
    redirect_uri: &str,
    state: &str,
    challenge: &str,
) -> (r: String)
    ensures
        r@ == authorization_url_text(endpoint@, client_id@, redirect_uri@, state@, challenge@),
{
    let mut out: Vec<char> = Vec::new();
    push_str(&mut out, endpoint);
    push_str(&mut out, "?client_id=");
    push_str(&mut out, url_encode(client_id).as_str());
    push_str(&mut out, "&response_type=code&redirect_uri=");
    push_str(&mut out, url_encode(redirect_uri).as_str());
    push_str(&mut out, "&scope=read+write&state=");
    push_str(&mut out, url_encode(state).as_str());
    push_str(&mut out, "&code_challenge=");
    push_str(&mut out, url_encode(challenge).as_str());
    push_str(&mut out, "&code_challenge_method=S256");
    chars_to_string(&out)
}

/// The form body that exchanges an authorization code for a token.
pub open spec fn token_request_text(
    code: Seq<char>,
    client_id: Seq<char>,
    verifier: Seq<char>,
    redirect_uri: Seq<char>,
) -> Seq<char> {
    "grant_type=authorization_code&code="@ + percent_encoded(vstd::utf8::encode_utf8(code))
        + "&client_id="@ + percent_encoded(vstd::utf8::encode_utf8(client_id))
        + "&code_verifier="@ + percent_encoded(vstd::utf8::encode_utf8(verifier))
        + "&redirect_uri="@ + percent_encoded(vstd::utf8::encode_utf8(redirect_uri))
}

/// Builds the form body of the token request.
pub fn token_request_body(code: &str, client_id: &str, verifier: &str, redirect_uri: &str) -> (r: String)
    ensures
        r@ == token_request_text(code@, client_id@, verifier@, redirect_uri@),
{
    let mut out: Vec<char> = Vec::new();
    push_str(&mut out, "grant_type=authorization_code&code=");
    push_str(&mut out, url_encode(code).as_str());
    push_str(&mut out, "&client_id=");
    push_str(&mut out, url_encode(client_id).as_str());
    push_str(&mut out, "&code_verifier=");
    push_str(&mut out, url_encode(verifier).as_str());
    push_str(&mut out, "&redirect_uri=");
    push_str(&mut out, url_encode(redirect_uri).as_str());
    chars_to_string(&out)
}

/// The first line of `s`, as `str::lines` yields it: up to the first `\n`, less
/// one `\r` before it; the whole text when there is no `\n`.
pub open spec fn first_line(s: Seq<char>) -> Seq<char> {
    match occurs_from(s, seq!['\n'], 0) {
        Some(p) => {
            let l = s.take(p as int);
            if l.len() > 0 && l.last() == '\r' {
                l.drop_last()
            } else {
                l
            }
        },
        None => s,
    }
}

/// The first position at or after `i` that does not hold whitespace.
pub open spec fn skip_ws_from(s: Seq<char>, i: nat) -> nat
    decreases s.len() + 1 - i,
{
    if i >= s.len() {
        i
    } else if is_ws(s[i as int]) {
        skip_ws_from(s, i + 1)
    } else {
        i
    }
}

/// The first position at or after `i` that holds whitespace.
pub open spec fn word_end_from(s: Seq<char>, i: nat) -> nat
    decreases s.len() + 1 - i,
{
    if i >= s.len() {
        i
    } else if !is_ws(s[i as int]) {
        word_end_from(s, i + 1)
    } else {
        i
    }
}

/// The second whitespace-separated word of `s`, or nothing.
pub open spec fn second_word(s: Seq<char>) -> Seq<char> {
    let a = skip_ws_from(s, 0);
    let b = word_end_from(s, a);
    let c = skip_ws_from(s, b);
    let d = word_end_from(s, c);
    if c >= s.len() {
        Seq::empty()
    } else {
        s.subrange(c as int, d as int)
    }
}

/// The query of a request target: what follows the first `?`, or nothing.
pub open spec fn query_part(path: Seq<char>) -> Seq<char> {
    match occurs_from(path, seq!['?'], 0) {
        Some(i) => path.skip((i + 1) as int),
        None => Seq::empty(),
    }
}

/// The value of the first `&`-separated parameter of `q` that starts with `code=`.
pub open spec fn code_param(q: Seq<char>) -> Option<Seq<char>>
    decreases q.len(),
{
    let e: nat = match occurs_from(q, seq!['&'], 0) {
        Some(j) => j,
        None => q.len(),
    };
    let seg = q.take(e as int);
    if is_prefix("code="@, seg) {
        Some(seg.skip("code="@.len() as int))
    } else if e >= q.len() {
        None
    } else {
        code_param(q.skip((e + 1) as int))
    }
}

/// The authorization code in the request line of the browser's callback request
/// `GET /callback?code=...&state=... HTTP/1.1`.
pub open spec fn callback_code_of(request: Seq<char>) -> Option<Seq<char>> {
    code_param(query_part(second_word(first_line(request))))
}

fn skip_ws_exec(s: &[char], i: usize) -> (r: usize)
    requires
        i <= s@.len(),
    ensures
        r == skip_ws_from(s@, i as nat),
        i <= r <= s@.len(),
{
    let mut j = i;
    while j < s.len() && is_ws_exec(s[j])
        invariant
            i <= j <= s@.len(),
            skip_ws_from(s@, i as nat) == skip_ws_from(s@, j as nat),
        decreases s@.len() - j,
    {
        j += 1;
    }
    j
}

fn word_end_exec(s: &[char], i: usize) -> (r: usize)
    requires
        i <= s@.len(),
    ensures
        r == word_end_from(s@, i as nat),
        i <= r <= s@.len(),
{
    let mut j = i;
    while j < s.len() && !is_ws_exec(s[j])
        invariant
            i <= j <= s@.len(),
            word_end_from(s@, i as nat) == word_end_from(s@, j as nat),
        decreases s@.len() - j,
    {
        j += 1;
    }
    j
}

/// The first line of a text.
fn first_line_exec(s: &[char]) -> (r: Vec<char>)
    ensures
        r@ == first_line(s@),
{
    let nl = str_to_chars("\n");
    assert(nl@ =~= seq!['\n']) by {
        reveal_strlit("\n");
    }
    proof {
        lemma_occurs_bound(s@, nl@, 0);
    }
    match find_from(s, &nl, 0) {
        Some(p) => {
            let l = slice_chars(s, 0, p);
            assert(l@ =~= s@.take(p as int));
            if l.len() > 0 && l[l.len() - 1] == '\r' {
                let k = l.len() - 1;
                let t = slice_chars(&l, 0, k);
                assert(t@ =~= l@.drop_last());
                t
            } else {
                l
            }
        },
        None => slice_chars(s, 0, s.len()),
    }
}

/// Extracts the authorization code from the browser's callback request: the value
/// of the first `code=` parameter of the query of the request line's target. A
/// missing or empty code is an error.
pub fn callback_code(request: &str) -> (r: Result<String, ContextCutterError>)
    ensures
        match callback_code_of(request@) {
            Some(c) => if c.len() > 0 {
                r matches Ok(s) && s@ == c
            } else {
                r matches Err(ContextCutterError::RequestFailed(m)) && m@
                    == "OAuth callback: missing `code` parameter"@
            },
            None => r matches Err(ContextCutterError::RequestFailed(m)) && m@
                == "OAuth callback: missing `code` parameter"@,
        },
{
    let all = str_to_chars(request);
    let line = first_line_exec(&all);
    let a = skip_ws_exec(&line, 0);
    let b = word_end_exec(&line, a);
    let c = skip_ws_exec(&line, b);
    let d = word_end_exec(&line, c);
    let word = if c >= line.len() { Vec::new() } else { slice_chars(&line, c, d) };
    assert(word@ =~= second_word(first_line(request@)));
    let qm = str_to_chars("?");
    assert(qm@ =~= seq!['?']) by {
        reveal_strlit("?");
    }
    proof {
        lemma_occurs_bound(word@, qm@, 0);
    }
    let mut rest = match find_from(&word, &qm, 0) {
        Some(i) => slice_chars(&word, i + 1, word.len()),
        None => Vec::new(),
    };
    assert(rest@ =~= query_part(word@));
    let amp = str_to_chars("&");
    assert(amp@ =~= seq!['&']) by {
        reveal_strlit("&");
    }
    let key = str_to_chars("code=");
    let mut code: Option<Vec<char>> = None;
    let mut done = false;
    while !done
        invariant
            amp@ == seq!['&'],
            key@ == "code="@,
            done ==> code_param(query_part(word@)) == match code {
                Some(v) => Some(v@),
                None => None::<Seq<char>>,
            },
            !done ==> code_param(query_part(word@)) == code_param(rest@),
            !done ==> code is None,
        decreases rest@.len(), if done { 0int } else { 1int },
    {
        proof {
            lemma_occurs_bound(rest@, amp@, 0);
        }
        let e = match find_from(&rest, &amp, 0) {
            Some(j) => j,
            None => rest.len(),
        };
        let seg = slice_chars(&rest, 0, e);
        assert(seg@ =~= rest@.take(e as int));
        let ghost en: nat = match occurs_from(rest@, seq!['&'], 0) {
            Some(j) => j,
            None => rest@.len(),
        };
        assert(en == e);
        assert(code_param(rest@) == if is_prefix("code="@, seg@) {
            Some(seg@.skip("code="@.len() as int))
        } else if e >= rest@.len() {
            None
        } else {
            code_param(rest@.skip(e + 1))
        });
        if starts_with_chars(&seg, &key) {
            let v = slice_chars(&seg, key.len(), seg.len());
            assert(v@ =~= seg@.skip("code="@.len() as int));
            code = Some(v);
            done = true;
        } else if e >= rest.len() {
            done = true;
        } else {
            let next = slice_chars(&rest, e + 1, rest.len());
            assert(next@ =~= rest@.skip(e + 1));
            rest = next;
        }
    }
    match code {
        Some(v) => {
            if v.len() == 0 {
                Err(ContextCutterError::RequestFailed("OAuth callback: missing `code` parameter".to_owned()))
            } else {
                Ok(chars_to_string(&v))
            }
        },
        None => Err(ContextCutterError::RequestFailed("OAuth callback: missing `code` parameter".to_owned())),
    }
}

/// The endpoints that the authorization server announces.
pub struct OAuthMeta {
    pub authorization_endpoint: String,
    pub token_endpoint: String,
    pub registration_endpoint: Option<String>,
}

/// The endpoints announced in the authorization server's metadata document, given
/// as the parser's result on the response body.
pub fn oauth_meta_from(parsed: Result<JsonValue, String>) -> (r: Result<OAuthMeta, ContextCutterError>)
    ensures
        match parsed {
            Err(e) => r matches Err(ContextCutterError::InvalidJson(m)) && m@ == "OAuth discovery JSON: "@
                + e@,
            Ok(v) => match (str_in(v@, "authorization_endpoint"@), str_in(v@, "token_endpoint"@)) {
                (None, _) => r matches Err(ContextCutterError::RequestFailed(m)) && m@
                    == "OAuth: missing authorization_endpoint"@,
                (Some(_), None) => r matches Err(ContextCutterError::RequestFailed(m)) && m@
                    == "OAuth: missing token_endpoint"@,
                (Some(a), Some(t)) => r matches Ok(meta) && meta.authorization_endpoint@ == a
                    && meta.token_endpoint@ == t && match str_in(v@, "registration_endpoint"@) {
                    Some(g) => meta.registration_endpoint matches Some(x) && x@ == g,
                    None => meta.registration_endpoint is None,
                },
            },
        },
{
    let v = match parsed {
        Err(e) => {
            let mut m: Vec<char> = Vec::new();
            push_str(&mut m, "OAuth discovery JSON: ");
            push_str(&mut m, e.as_str());
            return Err(ContextCutterError::InvalidJson(chars_to_string(&m)));
        },
        Ok(v) => v,
    };
    let authorization_endpoint = match str_member(&v, "authorization_endpoint") {
        Some(a) => a,
        None => {
            return Err(ContextCutterError::RequestFailed("OAuth: missing authorization_endpoint".to_owned()));
        },
    };
    let token_endpoint = match str_member(&v, "token_endpoint") {
        Some(t) => t,
        None => {
            return Err(ContextCutterError::RequestFailed("OAuth: missing token_endpoint".to_owned()));
        },
    };
    let registration_endpoint = str_member(&v, "registration_endpoint");
    Ok(OAuthMeta { authorization_endpoint, token_endpoint, registration_endpoint })
}

/// The client id that dynamic client registration assigned, given the response
/// text and the parser's result on it.
pub fn client_id_from_response(response: &str, parsed: Result<JsonValue, String>) -> (r: Result<
    String,
    ContextCutterError,
>)
    ensures
        match parsed {
            Err(e) => r matches Err(ContextCutterError::InvalidJson(m)) && m@ == e@,
            Ok(v) => match str_in(v@, "client_id"@) {
                Some(c) => r matches Ok(s) && s@ == c,
                None => r matches Err(ContextCutterError::RequestFailed(m)) && m@
                    == "client registration: missing client_id in: "@ + response@,
            },
        },
{
    match parsed {
        Err(e) => Err(ContextCutterError::InvalidJson(e)),
        Ok(v) => match str_member(&v, "client_id") {
            Some(c) => Ok(c),
            None => {
                let mut m: Vec<char> = Vec::new();
                push_str(&mut m, "client registration: missing client_id in: ");
                push_str(&mut m, response);
                Err(ContextCutterError::RequestFailed(chars_to_string(&m)))
            },
        },
    }
}

/// The access token of the token endpoint's answer, given the response text and
/// the parser's result on it.
pub fn access_token_from_response(response: &str, parsed: Result<JsonValue, String>) -> (r: Result<
    String,
    ContextCutterError,
>)
    ensures
        match parsed {
            Err(e) => r matches Err(ContextCutterError::InvalidJson(m)) && m@ == e@,
            Ok(v) => match str_in(v@, "access_token"@) {
                Some(t) => r matches Ok(s) && s@ == t,
                None => r matches Err(ContextCutterError::RequestFailed(m)) && m@
                    == "token exchange: missing access_token (response: "@ + response@ + ")"@,
            },
        },
{
    match parsed {
        Err(e) => Err(ContextCutterError::InvalidJson(e)),
        Ok(v) => match str_member(&v, "access_token") {
            Some(t) => Ok(t),
            None => {
                let mut m: Vec<char> = Vec::new();
                push_str(&mut m, "token exchange: missing access_token (response: ");
                push_str(&mut m, response);
                push_str(&mut m, ")");
                Err(ContextCutterError::RequestFailed(chars_to_string(&m)))
            },
        },
    }
}

/// The dynamic client registration request of a public client with the given
/// redirect URI (members in the order the serializer writes them).
pub open spec fn registration_doc(redirect_uri: Seq<char>) -> JsonView {
    JsonView::Object(
        seq![
            ("client_name"@, JsonView::Str("context-cutter-proxy"@)),
            ("grant_types"@, JsonView::Array(seq![JsonView::Str("authorization_code"@)])),
            ("redirect_uris"@, JsonView::Array(seq![JsonView::Str(redirect_uri)])),
            ("response_types"@, JsonView::Array(seq![JsonView::Str("code"@)])),
            ("token_endpoint_auth_method"@, JsonView::Str("none"@)),
        ],
    )
}

fn one_string_array(s: &str) -> (r: JsonValue)
    ensures
        r@ == JsonView::Array(seq![JsonView::Str(s@)]),
{
    let mut items: Vec<JsonValue> = Vec::new();
    items.push(JsonValue::Str(s.to_owned()));
    proof {
        lemma_items_view(items@);
        assert(items_view(items@) =~= seq![JsonView::Str(s@)]);
    }
    JsonValue::Array(items)
}

/// The JSON body of the dynamic client registration request.
pub fn registration_request_body(redirect_uri: &str) -> (r: String)
    ensures
        r@ == json_text(registration_doc(redirect_uri@)),
{
    let mut entries: Vec<(String, JsonValue)> = Vec::new();
    entries.push(("client_name".to_owned(), JsonValue::Str("context-cutter-proxy".to_owned())));
    entries.push(("grant_types".to_owned(), one_string_array("authorization_code")));
    entries.push(("redirect_uris".to_owned(), one_string_array(redirect_uri)));
    entries.push(("response_types".to_owned(), one_string_array("code")));
    entries.push(("token_endpoint_auth_method".to_owned(), JsonValue::Str("none".to_owned())));
    proof {
        lemma_entries_view(entries@);
    }
    let doc = JsonValue::Object(entries);
    assert(doc@ == registration_doc(redirect_uri@)) by {
        assert(entries_view(entries@) =~= seq![
            ("client_name"@, JsonView::Str("context-cutter-proxy"@)),
            ("grant_types"@, JsonView::Array(seq![JsonView::Str("authorization_code"@)])),
            ("redirect_uris"@, JsonView::Array(seq![JsonView::Str(redirect_uri@)])),
            ("response_types"@, JsonView::Array(seq![JsonView::Str("code"@)])),
            ("token_endpoint_auth_method"@, JsonView::Str("none"@)),
        ]);
    }
    to_json_string(&doc)
}

} // verus!
