//! The decisions of the MCP servers: previews of stored payloads, interception of
//! large upstream results, JSON-RPC framing of upstream calls and their answers,
//! and the two tools' request handling against the handle store.

use vstd::prelude::*;
use vstd::string::*;
use vstd::utf8::encode_utf8;

use crate::canonical::{Member, canon, canonicalize_json_value, handle_id_of, sort_by_key, sorted_members};
use crate::checks::{boundary_error, check_payload_size, query_input_error, validate_query_inputs};
use crate::engine::{engine_query, engine_store, law_lookup_after_store};
use crate::error::ContextCutterError;
use crate::json::{
    JsonNumber, JsonValue, JsonView, NumberView, distinct_keys, entries_view, get_in, get_member, json_text,
    lemma_entries_view, str_in, str_member, to_json_string, wf,
};
use crate::parser::{json_path_select, law_teaser_is_well_formed, matches_text, normalized_path, teaser_of, teaser_value};
use crate::store::{GlobalStore, after_get, after_insert};
use crate::text::{
    chars_to_string, decimal, find_from, is_prefix, lemma_trim_empty, occurs_from, push_chars, push_decimal,
    push_str, slice_chars, starts_with_chars, str_to_chars, trim, trim_chars, utf8_len,
};

verus! {

/// Longest string, in characters, that a preview shows whole.
pub const PREVIEW_STRING_LIMIT: usize = 80;

/// Number of top-level structure entries a preview lists.
pub const PREVIEW_ENTRY_LIMIT: usize = 20;

/// How a preview shows one value of a teaser's structure: strings quoted, and cut
/// after 80 characters when longer, arrays by their length, array summaries by
/// their `Array[n]` label, other objects by their number of members, and
/// everything else as compact JSON.
pub open spec fn preview_value(v: JsonView) -> Seq<char> {
    match v {
        JsonView::Str(s) => if s.len() > PREVIEW_STRING_LIMIT {
            "\""@ + s.take(PREVIEW_STRING_LIMIT as int) + "...\" (truncated)"@
        } else {
            "\""@ + s + "\""@
        },
        JsonView::Array(a) => "["@ + decimal(a.len()) + " items]"@,
        JsonView::Object(e) => match str_in(v, "_type"@) {
            Some(t) => if is_prefix("Array["@, t) {
                t
            } else {
                "{"@ + decimal(e.len()) + " keys}"@
            },
            None => "{"@ + decimal(e.len()) + " keys}"@,
        },
        _ => json_text(v),
    }
}

/// Renders a single teaser value for the preview block.
pub fn format_preview_value(val: &JsonValue) -> (r: String)
    ensures
        r@ == preview_value(val@),
{
    match val {
        JsonValue::Str(s) => {
            let mut out: Vec<char> = Vec::new();
            out.push('"');
            let cs = str_to_chars(s.as_str());
            if cs.len() > PREVIEW_STRING_LIMIT {
                let head = slice_chars(&cs, 0, PREVIEW_STRING_LIMIT);
                assert(head@ =~= s@.take(PREVIEW_STRING_LIMIT as int));
                push_chars(&mut out, &head);
                push_str(&mut out, "...\" (truncated)");
            } else {
                push_str(&mut out, s.as_str());
                out.push('"');
            }
            proof {
                reveal_strlit("\"");
            }
            assert(out@ =~= preview_value(val@));
            chars_to_string(&out)
        },
        JsonValue::Array(a) => {
            proof {
                crate::json::lemma_items_view(a@);
            }
            let mut out: Vec<char> = Vec::new();
            push_str(&mut out, "[");
            push_decimal(&mut out, a.len() as u64);
            push_str(&mut out, " items]");
            chars_to_string(&out)
        },
        JsonValue::Object(e) => {
            proof {
                lemma_entries_view(e@);
            }
            match str_member(val, "_type") {
                Some(t) => {
                    let tc = str_to_chars(t.as_str());
                    let p = str_to_chars("Array[");
                    if starts_with_chars(&tc, &p) {
                        return t;
                    }
                },
                None => {},
            }
            let mut out: Vec<char> = Vec::new();
            push_str(&mut out, "{");
            push_decimal(&mut out, e.len() as u64);
            push_str(&mut out, " keys}");
            chars_to_string(&out)
        },
        _ => to_json_string(val),
    }
}

/// The structure members of a teaser, by increasing key.
pub open spec fn structure_members(teaser: JsonView) -> Seq<Member> {
    match get_in(teaser, "structure"@) {
        Some(JsonView::Object(e)) => sort_by_key(e),
        _ => Seq::empty(),
    }
}

/// One preview line per member: two spaces, the key, `: ` and the value as
/// `preview_value` shows it, each line started by a line break.
pub open spec fn entry_lines(e: Seq<Member>) -> Seq<char>
    decreases e.len(),
{
    if e.len() == 0 {
        Seq::empty()
    } else {
        entry_lines(e.drop_last()) + "\n  "@ + e.last().0 + ": "@ + preview_value(e.last().1)
    }
}

/// The preview shown in place of a stored payload: where it went, the first
/// structure entries of its teaser, and how to query it.
pub open spec fn preview_text(handle_id: Seq<char>, size_kb: Seq<char>, teaser: JsonView) -> Seq<char> {
    let e = structure_members(teaser);
    let shown = if e.len() <= PREVIEW_ENTRY_LIMIT { e } else { e.take(PREVIEW_ENTRY_LIMIT as int) };
    "[context-cutter] Response stored ("@ + size_kb + " KB \u{2192} handle: "@ + handle_id + ")\n\nPreview:"@
        + entry_lines(shown) + "\n\nCall query_handle(\""@ + handle_id
        + "\", \"$.field\") to extract specific fields."@
}

proof fn lemma_member_value_in(e: Seq<Member>, k: Seq<char>)
    ensures
        crate::json::member_value(e, k) matches Some(x) ==> exists|i: int| 0 <= i < e.len() && #[trigger] e[i] == (k, x),
    decreases e.len(),
{
    if e.len() > 0 && e[0].0 != k {
        lemma_member_value_in(e.drop_first(), k);
        if let Some(x) = crate::json::member_value(e, k) {
            let i = choose|i: int| 0 <= i < e.drop_first().len() && #[trigger] e.drop_first()[i] == (k, x);
            assert(e[i + 1] == (k, x));
        }
    } else if e.len() > 0 {
        assert(e[0] == (k, e[0].1));
    }
}

/// A member of a well-formed object is well formed.
proof fn lemma_get_in_wf(v: JsonView, k: Seq<char>)
    requires
        wf(v),
    ensures
        get_in(v, k) matches Some(x) ==> wf(x),
{
    if let JsonView::Object(e) = v {
        lemma_member_value_in(e, k);
        crate::json::lemma_members_wf(e);
        if let Some(x) = crate::json::member_value(e, k) {
            let i = choose|i: int| 0 <= i < e.len() && #[trigger] e[i] == (k, x);
            assert(wf(e[i].1));
        }
    }
}

/// Renders the preview text shown when a response is intercepted: the handle, the
/// payload's size in KB as the caller formatted it, up to twenty structure entries
/// of the teaser by increasing key, and how to query the handle.
pub fn build_preview_text(handle_id: &str, size_kb: &str, teaser: &JsonValue) -> (r: String)
    requires
        wf(teaser@),
    ensures
        r@ == preview_text(handle_id@, size_kb@, teaser@),
{
    let mut out: Vec<char> = Vec::new();
    push_str(&mut out, "[context-cutter] Response stored (");
    push_str(&mut out, size_kb);
    push_str(&mut out, " KB \u{2192} handle: ");
    push_str(&mut out, handle_id);
    push_str(&mut out, ")\n\nPreview:");
    let ghost head = out@;
    proof {
        lemma_get_in_wf(teaser@, "structure"@);
    }
    let members: Vec<(String, JsonValue)> = match get_member(teaser, "structure") {
        Some(JsonValue::Object(entries)) => sorted_members(entries),
        _ => Vec::new(),
    };
    let ghost sm = structure_members(teaser@);
    assert(entries_view(members@) == sm);
    proof {
        lemma_entries_view(members@);
    }
    let n = if members.len() <= PREVIEW_ENTRY_LIMIT { members.len() } else { PREVIEW_ENTRY_LIMIT };
    let mut i: usize = 0;
    while i < n
        invariant
            n <= members@.len(),
            entries_view(members@) == sm,
            sm.len() == members@.len(),
            forall|k: int| 0 <= k < members@.len() ==> #[trigger] sm[k] == (members@[k].0@, members@[k].1@),
            i <= n,
            out@ == head + entry_lines(sm.take(i as int)),
        decreases n - i,
    {
        push_str(&mut out, "\n  ");
        push_str(&mut out, members[i].0.as_str());
        push_str(&mut out, ": ");
        let pv = format_preview_value(&members[i].1);
        push_str(&mut out, pv.as_str());
        assert(sm.take(i + 1).drop_last() =~= sm.take(i as int));
        i += 1;
        assert(out@ =~= head + entry_lines(sm.take(i as int)));
    }
    let ghost shown = if sm.len() <= PREVIEW_ENTRY_LIMIT { sm } else { sm.take(PREVIEW_ENTRY_LIMIT as int) };
    assert(sm.take(n as int) =~= shown);
    push_str(&mut out, "\n\nCall query_handle(\"");
    push_str(&mut out, handle_id);
    push_str(&mut out, "\", \"$.field\") to extract specific fields.");
    assert(out@ =~= preview_text(handle_id@, size_kb@, teaser@));
    chars_to_string(&out)
}

/// What happens to an upstream tool result: passed on as its compact text, or
/// stored, with the text to store.
pub enum Interception {
    PassThrough(String),
    Store(String),
}

/// The text of the first content item of a tool result, if it has one.
pub open spec fn content_text(v: JsonView) -> Option<Seq<char>> {
    match get_in(v, "content"@) {
        Some(JsonView::Array(a)) => if a.len() > 0 {
            str_in(a[0], "text"@)
        } else {
            None
        },
        _ => None,
    }
}

/// What is stored of a large tool result: the text of its first content item when
/// that text starts like a JSON object or array, else the result's own text.
pub open spec fn intercept_payload(v: JsonView) -> Seq<char> {
    match content_text(v) {
        Some(t) => if t.len() > 0 && (t[0] == '{' || t[0] == '[') {
            t
        } else {
            json_text(v)
        },
        None => json_text(v),
    }
}

/// Law (JSON text inside a result): when the first content item of a tool result
/// carries a text that opens a JSON object or a JSON array, that text, and not the
/// envelope around it, is what a large result stores; any other text leaves the
/// whole result to be stored.
pub proof fn law_payload_is_json_content_text(v: JsonView, a: Seq<JsonView>, t: Seq<char>)
    requires
        get_in(v, "content"@) == Some(JsonView::Array(a)),
        a.len() > 0,
        get_in(a[0], "text"@) == Some(JsonView::Str(t)),
    ensures
        t.len() > 0 && t[0] == '[' ==> intercept_payload(v) == t,
        t.len() > 0 && t[0] == '{' ==> intercept_payload(v) == t,
        !(t.len() > 0 && (t[0] == '[' || t[0] == '{')) ==> intercept_payload(v) == json_text(v),
{
}

/// Decides what happens to an upstream tool result: a result whose compact text is
/// shorter than `threshold` bytes is passed on as that text; a larger one is stored
/// (see `intercept_payload`).
pub fn plan_interception(result: &JsonValue, threshold: usize) -> (r: Interception)
    ensures
        if encode_utf8(json_text(result@)).len() < threshold {
            r matches Interception::PassThrough(s) && s@ == json_text(result@)
        } else {
            r matches Interception::Store(p) && p@ == intercept_payload(result@)
        },
{
    let text = to_json_string(result);
    if utf8_len(text.as_str()) < threshold {
        return Interception::PassThrough(text);
    }
    let inner: Option<String> = match get_member(result, "content") {
        Some(JsonValue::Array(items)) => {
            proof {
                crate::json::lemma_items_view(items@);
            }
            if items.len() > 0 {
                str_member(&items[0], "text")
            } else {
                None
            }
        },
        _ => None,
    };
    match inner {
        Some(t) => {
            let cs = str_to_chars(t.as_str());
            if cs.len() > 0 && (cs[0] == '{' || cs[0] == '[') {
                Interception::Store(t)
            } else {
                Interception::Store(text)
            }
        },
        None => Interception::Store(text),
    }
}

/// Stores a payload and looks its teaser up, as `engine_store` followed by
/// `engine_teaser` on the new handle do.
fn store_with_teaser(
    store: &mut GlobalStore,
    json_str: &str,
    parsed: Result<JsonValue, String>,
    now: u128,
) -> (r: Result<(String, JsonValue), ContextCutterError>)
    requires
        old(store).wf(),
        parsed matches Ok(v) ==> wf(v@),
    ensures
        final(store).wf(),
        final(store).spec_config() == old(store).spec_config(),
        if json_str.spec_bytes().contains(0u8) {
            &&& r matches Err(ContextCutterError::Validation(m))
            &&& m@ == "json payload must not contain null bytes"@
            &&& final(store).state() == old(store).state()
        } else {
            match parsed {
                Err(e) => {
                    &&& r matches Err(ContextCutterError::InvalidJson(m))
                    &&& m@ == e@
                    &&& final(store).state() == old(store).state()
                },
                Ok(v) => {
                    let h = handle_id_of(v@);
                    let (st, found) = after_get(after_insert(old(store).state(), h, v@, now), h, now);
                    &&& final(store).state() == st
                    &&& match found {
                        None => r matches Err(ContextCutterError::UnknownHandle(m)) && m@ == h,
                        Some(d) => r matches Ok(p) && p.0@ == h && p.1@ == teaser_of(d) && wf(p.1@),
                    }
                },
            }
        },
{
    let handle_id = match engine_store(store, json_str, parsed, now) {
        Ok(h) => h,
        Err(e) => {
            return Err(e);
        },
    };
    match store.get(handle_id.as_str(), now) {
        None => Err(ContextCutterError::UnknownHandle(handle_id)),
        Some(d) => {
            proof {
                law_teaser_is_well_formed(d@);
            }
            let t = teaser_value(&d);
            Ok((handle_id, t))
        },
    }
}

/// Answers a large upstream result (see `plan_interception`): `payload` is the
/// text chosen to be stored, `parsed` the JSON parser's result on it, and `size_kb`
/// the payload's size in KB as the caller formats it. A payload that is not valid
/// JSON is not intercepted: the answer is the result's own compact text, passed on
/// as it is. Otherwise the payload is stored and the answer is its preview (see
/// `preview_text`); when the store may hold at least one document, that always
/// succeeds.
pub fn intercept_large(
    store: &mut GlobalStore,
    result: &JsonValue,
    payload: &str,
    parsed: Result<JsonValue, String>,
    size_kb: &str,
    now: u128,
) -> (r: Result<String, ContextCutterError>)
    requires
        old(store).wf(),
        parsed matches Ok(v) ==> wf(v@),
    ensures
        final(store).wf(),
        final(store).spec_config() == old(store).spec_config(),
        match parsed {
            Err(_) => {
                &&& r matches Ok(t)
                &&& t@ == json_text(result@)
                &&& final(store).state() == old(store).state()
            },
            Ok(v) => if payload.spec_bytes().contains(0u8) {
                &&& r matches Err(ContextCutterError::Validation(m))
                &&& m@ == "json payload must not contain null bytes"@
                &&& final(store).state() == old(store).state()
            } else {
                let h = handle_id_of(v@);
                let (st, found) = after_get(after_insert(old(store).state(), h, v@, now), h, now);
                &&& final(store).state() == st
                &&& match found {
                    None => r matches Err(ContextCutterError::UnknownHandle(m)) && m@ == h,
                    Some(d) => r matches Ok(t) && t@ == preview_text(h, size_kb@, teaser_of(d)),
                }
            },
        },
        old(store).state().max_handles >= 1 && !payload.spec_bytes().contains(0u8) ==> r is Ok,
{
    if parsed.is_err() {
        return Ok(to_json_string(result));
    }
    proof {
        if let Ok(v) = &parsed {
            if old(store).state().max_handles >= 1 {
                law_lookup_after_store(old(store).state(), v@, now, now);
            }
        }
    }
    match store_with_teaser(store, payload, parsed, now) {
        Err(e) => Err(e),
        Ok((h, t)) => Ok(build_preview_text(h.as_str(), size_kb, &t)),
    }
}

/// The answer of the fetch tool: the handle and the teaser.
pub open spec fn fetch_answer(handle_id: Seq<char>, teaser: JsonView) -> JsonView {
    JsonView::Object(seq![("handle_id"@, JsonView::Str(handle_id)), ("teaser"@, teaser)])
}

/// Stores a fetched response body and answers with its handle and teaser. A body
/// longer than `max_bytes` UTF-8 bytes is refused before anything else; `parsed` is
/// the JSON parser's result on `json_str`: a body that does not parse is refused
/// next; otherwise it goes through `engine_store` and `engine_teaser`, and the
/// answer lists the teaser with its members by increasing key at every depth.
pub fn store_fetched(
    store: &mut GlobalStore,
    json_str: &str,
    parsed: Result<JsonValue, String>,
    max_bytes: usize,
    now: u128,
) -> (r: Result<String, ContextCutterError>)
    requires
        old(store).wf(),
        parsed matches Ok(v) ==> wf(v@),
    ensures
        final(store).wf(),
        final(store).spec_config() == old(store).spec_config(),
        json_str.spec_bytes().len() > max_bytes ==> {
            &&& r matches Err(ContextCutterError::PayloadTooLarge { actual_bytes: a, max_bytes: m })
            &&& a == json_str.spec_bytes().len() && m == max_bytes
            &&& final(store).state() == old(store).state()
        },
        json_str.spec_bytes().len() <= max_bytes ==> match parsed {
            Err(e) => {
                &&& r matches Err(ContextCutterError::InvalidJson(m))
                &&& m@ == "response is not valid JSON: "@ + e@
                &&& final(store).state() == old(store).state()
            },
            Ok(v) => if json_str.spec_bytes().contains(0u8) {
                &&& r matches Err(ContextCutterError::Validation(m))
                &&& m@ == "json payload must not contain null bytes"@
                &&& final(store).state() == old(store).state()
            } else {
                let h = handle_id_of(v@);
                let (st, found) = after_get(after_insert(old(store).state(), h, v@, now), h, now);
                &&& final(store).state() == st
                &&& match found {
                    None => r matches Err(ContextCutterError::UnknownHandle(m)) && m@ == h,
                    Some(d) => r matches Ok(t) && t@ == json_text(fetch_answer(h, canon(teaser_of(d)))),
                }
            },
        },
{
    if let Err(e) = check_payload_size(utf8_len(json_str), max_bytes) {
        return Err(e);
    }
    if let Err(e) = parsed {
        let mut m: Vec<char> = Vec::new();
        push_str(&mut m, "response is not valid JSON: ");
        push_str(&mut m, e.as_str());
        return Err(ContextCutterError::InvalidJson(chars_to_string(&m)));
    }
    match store_with_teaser(store, json_str, parsed, now) {
        Err(e) => Err(e),
        Ok((h, t)) => {
            let c = canonicalize_json_value(&t);
            let mut entries: Vec<(String, JsonValue)> = Vec::new();
            let ghost hv = h@;
            entries.push(("handle_id".to_owned(), JsonValue::Str(h)));
            entries.push(("teaser".to_owned(), c));
            proof {
                lemma_entries_view(entries@);
                assert(entries_view(entries@) =~= seq![
                    ("handle_id"@, JsonView::Str(hv)),
                    ("teaser"@, canon(t@)),
                ]);
            }
            let answer = JsonValue::Object(entries);
            Ok(to_json_string(&answer))
        },
    }
}

/// A line as `str::lines` yields it when a line feed ended it: without one
/// carriage return before that line feed.
pub open spec fn strip_cr(l: Seq<char>) -> Seq<char> {
    if l.len() > 0 && l.last() == '\r' {
        l.drop_last()
    } else {
        l
    }
}

/// The trimmed rest of the first line of `s` that starts with `data: `.
pub open spec fn first_data(s: Seq<char>) -> Option<Seq<char>>
    decreases s.len(),
{
    if s.len() == 0 {
        None
    } else {
        let p: nat = match occurs_from(s, seq!['\n'], 0) {
            Some(i) => i,
            None => s.len(),
        };
        let line = if p < s.len() { strip_cr(s.take(p as int)) } else { s };
        if is_prefix("data: "@, line) {
            Some(trim(line.skip("data: "@.len() as int)))
        } else if p >= s.len() {
            None
        } else {
            first_data(s.skip((p + 1) as int))
        }
    }
}

/// Extracts the JSON payload of a server-sent-events response: the first
/// `data: ` line, trimmed, which must be neither empty nor `[DONE]`.
pub fn sse_data(raw: &str) -> (r: Result<String, ContextCutterError>)
    ensures
        match first_data(raw@) {
            Some(d) => if d.len() > 0 && d != "[DONE]"@ {
                r matches Ok(s) && s@ == d
            } else {
                r matches Err(ContextCutterError::RequestFailed(m)) && m@
                    == "SSE response contained no data event"@
            },
            None => r matches Err(ContextCutterError::RequestFailed(m)) && m@
                == "SSE response contained no data event"@,
        },
{
    let nl = str_to_chars("\n");
    assert(nl@ =~= seq!['\n']) by {
        reveal_strlit("\n");
    }
    let key = str_to_chars("data: ");
    let mut rest = str_to_chars(raw);
    let mut found: Option<Vec<char>> = None;
    let mut done = false;
    while !done
        invariant
            nl@ == seq!['\n'],
            key@ == "data: "@,
            done ==> first_data(raw@) == match found {
                Some(v) => Some(v@),
                None => None::<Seq<char>>,
            },
            !done ==> first_data(raw@) == first_data(rest@),
            !done ==> found is None,
        decreases rest@.len(), if done { 0int } else { 1int },
    {
        if rest.len() == 0 {
            done = true;
        } else {
            proof {
                crate::oauth::lemma_occurs_bound(rest@, nl@, 0);
            }
            let p = match find_from(&rest, &nl, 0) {
                Some(i) => i,
                None => rest.len(),
            };
            let line = if p < rest.len() {
                let l = slice_chars(&rest, 0, p);
                if l.len() > 0 && l[l.len() - 1] == '\r' {
                    let k = l.len() - 1;
                    slice_chars(&l, 0, k)
                } else {
                    l
                }
            } else {
                slice_chars(&rest, 0, rest.len())
            };
            assert(line@ =~= (if p < rest@.len() { strip_cr(rest@.take(p as int)) } else { rest@ }));
            if starts_with_chars(&line, &key) {
                let d = slice_chars(&line, key.len(), line.len());
                assert(d@ =~= line@.skip("data: "@.len() as int));
                found = Some(trim_chars(&d));
                done = true;
            } else if p >= rest.len() {
                done = true;
            } else {
                let next = slice_chars(&rest, p + 1, rest.len());
                assert(next@ =~= rest@.skip(p + 1));
                rest = next;
            }
        }
    }
    match found {
        Some(d) => {
            let done_marker = str_to_chars("[DONE]");
            let is_done = d.len() == done_marker.len() && starts_with_chars(&d, &done_marker);
            assert(is_done == (d@ == "[DONE]"@)) by {
                if d@.len() == done_marker@.len() {
                    assert(d@.subrange(0, d@.len() as int) =~= d@);
                }
            }
            if d.len() > 0 && !is_done {
                Ok(chars_to_string(&d))
            } else {
                Err(ContextCutterError::RequestFailed("SSE response contained no data event".to_owned()))
            }
        },
        None => Err(ContextCutterError::RequestFailed("SSE response contained no data event".to_owned())),
    }
}

/// Whether a response's content type announces a server-sent-events stream.
pub fn is_event_stream(content_type: Option<&str>) -> (r: bool)
    ensures
        r == match content_type {
            Some(c) => occurs_from(c@, "event-stream"@, 0) is Some,
            None => false,
        },
{
    match content_type {
        Some(c) => {
            let cs = str_to_chars(c);
            let p = str_to_chars("event-stream");
            find_from(&cs, &p, 0).is_some()
        },
        None => false,
    }
}

/// A JSON-RPC 2.0 request (members in the order the serializer writes them).
pub open spec fn rpc_request_doc(id: u64, method: Seq<char>, params: JsonView) -> JsonView {
    JsonView::Object(
        seq![
            ("id"@, JsonView::Number(NumberView::PosInt(id))),
            ("jsonrpc"@, JsonView::Str("2.0"@)),
            ("method"@, JsonView::Str(method)),
            ("params"@, params),
        ],
    )
}

/// The body of a JSON-RPC 2.0 request to the upstream server.
pub fn rpc_request_body(id: u64, method: &str, params: JsonValue) -> (r: String)
    ensures
        r@ == json_text(rpc_request_doc(id, method@, params@)),
{
    let ghost pv = params@;
    let mut entries: Vec<(String, JsonValue)> = Vec::new();
    entries.push(("id".to_owned(), JsonValue::Number(JsonNumber::PosInt(id))));
    entries.push(("jsonrpc".to_owned(), JsonValue::Str("2.0".to_owned())));
    entries.push(("method".to_owned(), JsonValue::Str(method.to_owned())));
    entries.push(("params".to_owned(), params));
    proof {
        lemma_entries_view(entries@);
        assert(entries_view(entries@) =~= seq![
            ("id"@, JsonView::Number(NumberView::PosInt(id))),
            ("jsonrpc"@, JsonView::Str("2.0"@)),
            ("method"@, JsonView::Str(method@)),
            ("params"@, pv),
        ]);
    }
    to_json_string(&JsonValue::Object(entries))
}

/// The parameters of the `initialize` request sent upstream: protocol version
/// `2024-11-05`, no capabilities, and the proxy's name and `version` as client
/// information (members in key order).
pub open spec fn initialize_doc(version: Seq<char>) -> JsonView {
    JsonView::Object(
        seq![
            ("capabilities"@, JsonView::Object(Seq::empty())),
            (
                "clientInfo"@,
                JsonView::Object(
                    seq![("name"@, JsonView::Str("context-cutter-proxy"@)), ("version"@, JsonView::Str(version))],
                ),
            ),
            ("protocolVersion"@, JsonView::Str("2024-11-05"@)),
        ],
    )
}

/// The parameters of the `initialize` request, for a proxy of version `version`.
pub fn initialize_params(version: &str) -> (r: JsonValue)
    ensures
        r@ == initialize_doc(version@),
{
    let mut info: Vec<(String, JsonValue)> = Vec::new();
    info.push(("name".to_owned(), JsonValue::Str("context-cutter-proxy".to_owned())));
    info.push(("version".to_owned(), JsonValue::Str(version.to_owned())));
    let caps: Vec<(String, JsonValue)> = Vec::new();
    let mut entries: Vec<(String, JsonValue)> = Vec::new();
    entries.push(("capabilities".to_owned(), JsonValue::Object(caps)));
    entries.push(("clientInfo".to_owned(), JsonValue::Object(info)));
    entries.push(("protocolVersion".to_owned(), JsonValue::Str("2024-11-05".to_owned())));
    proof {
        lemma_entries_view(info@);
        lemma_entries_view(caps@);
        lemma_entries_view(entries@);
        assert(entries_view(caps@) =~= Seq::<(Seq<char>, JsonView)>::empty());
        assert(entries_view(info@) =~= seq![
            ("name"@, JsonView::Str("context-cutter-proxy"@)),
            ("version"@, JsonView::Str(version@)),
        ]);
        assert(entries_view(entries@) =~= initialize_doc(version@)->Object_0);
    }
    JsonValue::Object(entries)
}

/// The `result` of an upstream JSON-RPC answer, given the parser's result on the
/// answer's text: an answer that does not parse, or that carries an `error`, is
/// refused.
pub fn rpc_result(parsed: Result<JsonValue, String>) -> (r: Result<JsonValue, ContextCutterError>)
    ensures
        match parsed {
            Err(e) => r matches Err(ContextCutterError::InvalidJson(m)) && m@ == "upstream response: "@ + e@,
            Ok(v) => match get_in(v@, "error"@) {
                Some(err) => r matches Err(ContextCutterError::RequestFailed(m)) && m@ == "upstream MCP error: "@
                    + json_text(err),
                None => match get_in(v@, "result"@) {
                    Some(x) => r matches Ok(y) && y@ == x,
                    None => r matches Err(ContextCutterError::RequestFailed(m)) && m@
                        == "upstream response missing 'result' field"@,
                },
            },
        },
{
    let v = match parsed {
        Err(e) => {
            let mut m: Vec<char> = Vec::new();
            push_str(&mut m, "upstream response: ");
            push_str(&mut m, e.as_str());
            return Err(ContextCutterError::InvalidJson(chars_to_string(&m)));
        },
        Ok(v) => v,
    };
    if let Some(err) = get_member(&v, "error") {
        let mut m: Vec<char> = Vec::new();
        push_str(&mut m, "upstream MCP error: ");
        push_str(&mut m, to_json_string(err).as_str());
        return Err(ContextCutterError::RequestFailed(chars_to_string(&m)));
    }
    match get_member(&v, "result") {
        Some(x) => Ok(x.duplicate()),
        None => Err(ContextCutterError::RequestFailed("upstream response missing 'result' field".to_owned())),
    }
}

/// Whether an upstream failure is an authorization refusal: its message mentions
/// `401`.
pub fn is_unauthorized(err: &ContextCutterError) -> (r: bool)
    ensures
        r == (occurs_from(err.message_text(), "401"@, 0) is Some),
{
    let m = err.message();
    let cs = str_to_chars(m.as_str());
    let p = str_to_chars("401");
    find_from(&cs, &p, 0).is_some()
}

/// Handles the query tool: checks the inputs (`validate_query_inputs`), runs the
/// query (`engine_query`) and answers with its text, or with the error's message.
pub fn run_query_tool(store: &mut GlobalStore, handle_id: &str, json_path: &str, now: u128) -> (r: Result<
    String,
    String,
>)
    requires
        old(store).wf(),
    ensures
        final(store).wf(),
        final(store).spec_config() == old(store).spec_config(),
        match query_input_error(handle_id@, json_path@) {
            Some(m) => {
                &&& r matches Err(e)
                &&& e@ == "validation error: "@ + m
                &&& final(store).state() == old(store).state()
            },
            None => {
                let (st, found) = after_get(old(store).state(), handle_id@, now);
                &&& final(store).state() == st
                &&& match found {
                    None => r matches Err(e) && e@ == "unknown handle_id: "@ + handle_id@,
                    Some(v) => match json_path_select(json_text(v), normalized_path(json_path@)->Some_0) {
                        Ok(ms) => r matches Ok(t) && t@ == matches_text(ms),
                        Err(m) => r matches Err(e) && e@ == "invalid json path: "@ + m,
                    },
                }
            },
        },
{
    if let Err(e) = validate_query_inputs(handle_id, json_path) {
        return Err(boundary_error(e));
    }
    proof {
        lemma_trim_empty(handle_id@);
        lemma_trim_empty(json_path@);
    }
    match engine_query(store, handle_id, json_path, now) {
        Ok(t) => Ok(t),
        Err(e) => {
            Err(boundary_error(e))
        },
    }
}

/// How a call of the proxy's query tool fails: bad parameters, or a failure while
/// answering.
pub enum ToolFailure {
    InvalidParams(String),
    Internal(String),
}

/// The handle and the path of a query tool call, from its arguments.
pub fn query_arguments(args: Option<&JsonValue>) -> (r: Result<(String, String), String>)
    ensures
        match args {
            None => r matches Err(m) && m@ == "query_handle requires arguments"@,
            Some(a) => match (str_in(a@, "handle_id"@), str_in(a@, "json_path"@)) {
                (None, _) => r matches Err(m) && m@ == "missing handle_id"@,
                (Some(_), None) => r matches Err(m) && m@ == "missing json_path"@,
                (Some(h), Some(p)) => r matches Ok(hp) && hp.0@ == h && hp.1@ == p,
            },
        },
{
    match args {
        None => Err("query_handle requires arguments".to_owned()),
        Some(a) => {
            let handle_id = match str_member(a, "handle_id") {
                Some(h) => h,
                None => {
                    return Err("missing handle_id".to_owned());
                },
            };
            match str_member(a, "json_path") {
                Some(p) => Ok((handle_id, p)),
                None => Err("missing json_path".to_owned()),
            }
        },
    }
}

/// Handles the proxy's own query tool: the arguments must name a handle and a
/// path (else the parameters are invalid), the inputs must pass
/// `validate_query_inputs` (else too), and the query runs as `engine_query` does
/// (its failure is a failure while answering).
pub fn proxy_query_tool(store: &mut GlobalStore, args: Option<&JsonValue>, now: u128) -> (r: Result<
    String,
    ToolFailure,
>)
    requires
        old(store).wf(),
    ensures
        final(store).wf(),
        final(store).spec_config() == old(store).spec_config(),
        match args {
            None => {
                &&& r matches Err(ToolFailure::InvalidParams(m))
                &&& m@ == "query_handle requires arguments"@
                &&& final(store).state() == old(store).state()
            },
            Some(a) => match (str_in(a@, "handle_id"@), str_in(a@, "json_path"@)) {
                (None, _) => {
                    &&& r matches Err(ToolFailure::InvalidParams(m))
                    &&& m@ == "missing handle_id"@
                    &&& final(store).state() == old(store).state()
                },
                (Some(_), None) => {
                    &&& r matches Err(ToolFailure::InvalidParams(m))
                    &&& m@ == "missing json_path"@
                    &&& final(store).state() == old(store).state()
                },
                (Some(h), Some(p)) => match query_input_error(h, p) {
                    Some(m) => {
                        &&& r matches Err(ToolFailure::InvalidParams(e))
                        &&& e@ == "validation error: "@ + m
                        &&& final(store).state() == old(store).state()
                    },
                    None => {
                        let (st, found) = after_get(old(store).state(), h, now);
                        &&& final(store).state() == st
                        &&& match found {
                            None => r matches Err(ToolFailure::Internal(e)) && e@ == "unknown handle_id: "@ + h,
                            Some(v) => match json_path_select(json_text(v), normalized_path(p)->Some_0) {
                                Ok(ms) => r matches Ok(t) && t@ == matches_text(ms),
                                Err(m) => r matches Err(ToolFailure::Internal(e)) && e@ == "invalid json path: "@
                                    + m,
                            },
                        }
                    },
                },
            },
        },
{
    let (handle_id, json_path) = match query_arguments(args) {
        Ok(hp) => hp,
        Err(m) => {
            return Err(ToolFailure::InvalidParams(m));
        },
    };
    if let Err(e) = validate_query_inputs(handle_id.as_str(), json_path.as_str()) {
        return Err(ToolFailure::InvalidParams(e.message()));
    }
    proof {
        lemma_trim_empty(handle_id@);
        lemma_trim_empty(json_path@);
    }
    match engine_query(store, handle_id.as_str(), json_path.as_str(), now) {
        Ok(t) => Ok(t),
        Err(e) => Err(ToolFailure::Internal(e.message())),
    }
}

} // verus!
