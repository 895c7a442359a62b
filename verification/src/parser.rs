//! Shape summaries ("teasers") of stored documents, and path queries against them.

use jsonpath_rust::JsonPath;
use vstd::prelude::*;
use vstd::string::*;
use vstd::utf8::encode_utf8;

use crate::canonical::{
    Member, insert_member_sorted, lemma_sort_by_key, lemma_sorted_unique, same_members, sort_by_key,
    sorted_by_key,
};
use crate::error::ContextCutterError;
use crate::json::{
    JsonNumber, JsonValue, JsonView, NumberView, distinct_keys, entries_view, get_in, items_view, json_text,
    lemma_entries_view, lemma_items_view, members_wf, to_json_string, wf,
};
use crate::text::{
    chars_to_string, decimal, is_ws, push_chars, push_decimal, push_str, str_to_chars, trim, trim_chars, trim_end,
    trim_start, utf8_len,
};

verus! {

/// Depth below which containers are expanded in a summary.
pub const MAX_DEPTH: usize = 3;

/// Longest string, in UTF-8 bytes, kept verbatim in a summary.
pub const MAX_STRING_LEN: usize = 24;

/// The name of a value's kind.
pub open spec fn kind_name(v: JsonView) -> Seq<char> {
    match v {
        JsonView::Null => "null"@,
        JsonView::Bool(_) => "bool"@,
        JsonView::Number(n) => match n {
            NumberView::Float { .. } => "float"@,
            _ => "int"@,
        },
        JsonView::Str(_) => "string"@,
        JsonView::Array(_) => "array"@,
        JsonView::Object(_) => "object"@,
    }
}

/// Whether an integer counts as small: its absolute value is below 10000.
pub open spec fn int_is_small(i: i64) -> bool {
    -10000 < i < 10000
}

/// A scalar as a summary shows it: small values verbatim, large ones by kind.
pub open spec fn small_scalar_of(v: JsonView) -> Option<JsonView> {
    match v {
        JsonView::Null => Some(v),
        JsonView::Bool(_) => Some(v),
        JsonView::Number(n) => match n {
            NumberView::PosInt(u) => if u < 10000 {
                Some(v)
            } else {
                Some(JsonView::Str("int"@))
            },
            NumberView::NegInt(i) => if int_is_small(i) {
                Some(v)
            } else {
                Some(JsonView::Str("int"@))
            },
            NumberView::Float { text, below_limit } => if below_limit {
                Some(v)
            } else {
                Some(JsonView::Str("float"@))
            },
        },
        JsonView::Str(s) => if encode_utf8(s).len() <= MAX_STRING_LEN {
            Some(v)
        } else {
            Some(JsonView::Str("string"@))
        },
        _ => None,
    }
}

/// `small_scalar_of`, falling back to the kind's name.
pub open spec fn scalar_summary(v: JsonView) -> JsonView {
    match small_scalar_of(v) {
        Some(x) => x,
        None => JsonView::Str(kind_name(v)),
    }
}

/// `Array[<n>]`.
pub open spec fn array_label(n: nat) -> Seq<char> {
    "Array["@ + decimal(n) + "]"@
}

/// The members of `e` with every value replaced by `null`.
pub open spec fn null_members(e: Seq<Member>) -> Seq<Member>
    decreases e.len(),
{
    if e.len() == 0 {
        Seq::empty()
    } else {
        null_members(e.drop_last()).push((e.last().0, JsonView::Null))
    }
}

/// The keys of a member listing, as JSON strings.
pub open spec fn key_strs(e: Seq<Member>) -> Seq<JsonView>
    decreases e.len(),
{
    if e.len() == 0 {
        Seq::empty()
    } else {
        key_strs(e.drop_last()).push(JsonView::Str(e.last().0))
    }
}

/// The keys of `e` in increasing order, as JSON strings.
pub open spec fn sorted_key_strs(e: Seq<Member>) -> Seq<JsonView> {
    key_strs(sort_by_key(null_members(e)))
}

/// The summary of `v` seen at nesting depth `depth`.
pub open spec fn summary_of(v: JsonView, depth: nat) -> JsonView
    decreases v, 0nat,
{
    if depth >= MAX_DEPTH {
        match v {
            JsonView::Object(_) => JsonView::Str("{...}"@),
            JsonView::Array(a) => JsonView::Str(array_label(a.len())),
            _ => scalar_summary(v),
        }
    } else {
        match v {
            JsonView::Object(e) => JsonView::Object(member_summaries(e, depth + 1)),
            JsonView::Array(a) => if a.len() == 0 {
                JsonView::Str(array_label(0))
            } else {
                match a[0] {
                    JsonView::Object(fe) => JsonView::Object(
                        seq![
                            ("_type"@, JsonView::Str(array_label(a.len()))),
                            ("item_keys"@, JsonView::Array(sorted_key_strs(fe))),
                        ],
                    ),
                    JsonView::Array(_) => JsonView::Object(
                        seq![
                            ("_type"@, JsonView::Str(array_label(a.len()))),
                            ("item"@, summary_of(a[0], depth + 1)),
                        ],
                    ),
                    _ => JsonView::Object(
                        seq![
                            ("_type"@, JsonView::Str(array_label(a.len()))),
                            ("item_type"@, scalar_summary(a[0])),
                        ],
                    ),
                }
            },
            _ => scalar_summary(v),
        }
    }
}

/// Every member of `e` with its value summarized at depth `depth`.
pub open spec fn member_summaries(e: Seq<Member>, depth: nat) -> Seq<Member>
    decreases e, 1nat,
{
    if e.len() == 0 {
        Seq::empty()
    } else {
        member_summaries(e.drop_last(), depth).push((e.last().0, summary_of(e.last().1, depth)))
    }
}

/// The teaser_of of a stored document.
pub open spec fn teaser_of(v: JsonView) -> JsonView {
    match v {
        JsonView::Object(e) => JsonView::Object(
            seq![
                ("_teaser"@, JsonView::Bool(true)),
                ("_type"@, JsonView::Str("object"@)),
                ("keys"@, JsonView::Array(sorted_key_strs(e))),
                ("structure"@, summary_of(v, 0)),
            ],
        ),
        JsonView::Array(a) => JsonView::Object(
            seq![
                ("_teaser"@, JsonView::Bool(true)),
                ("_type"@, JsonView::Str(array_label(a.len()))),
                ("structure"@, summary_of(v, 0)),
            ],
        ),
        _ => JsonView::Object(
            seq![
                ("_teaser"@, JsonView::Bool(true)),
                ("_type"@, JsonView::Str(kind_name(v))),
                ("structure"@, summary_of(v, 0)),
            ],
        ),
    }
}

/// The name of a value's kind.
pub fn value_type_name(v: &JsonValue) -> (r: &'static str)
    ensures
        r@ == kind_name(v@),
{
    match v {
        JsonValue::Null => "null",
        JsonValue::Bool(_) => "bool",
        JsonValue::Number(n) => match n {
            JsonNumber::Float { .. } => "float",
            _ => "int",
        },
        JsonValue::Str(_) => "string",
        JsonValue::Array(_) => "array",
        JsonValue::Object(_) => "object",
    }
}

/// A JSON string value holding `s`.
fn str_value(s: &str) -> (r: JsonValue)
    ensures
        r@ == JsonView::Str(s@),
{
    JsonValue::Str(s.to_owned())
}

/// `Array[<n>]` as a JSON string value.
fn array_label_value(n: usize) -> (r: JsonValue)
    ensures
        r@ == JsonView::Str(array_label(n as nat)),
{
    let mut out: Vec<char> = Vec::new();
    push_str(&mut out, "Array[");
    push_decimal(&mut out, n as u64);
    push_str(&mut out, "]");
    assert(out@ =~= array_label(n as nat));
    JsonValue::Str(chars_to_string(&out))
}

/// A scalar as a summary shows it: small values verbatim, large ones by kind;
/// `None` for containers.
pub fn small_scalar(v: &JsonValue) -> (r: Option<JsonValue>)
    ensures
        match r {
            Some(x) => small_scalar_of(v@) == Some(x@),
            None => small_scalar_of(v@) is None,
        },
{
    match v {
        JsonValue::Null => Some(JsonValue::Null),
        JsonValue::Bool(b) => Some(JsonValue::Bool(*b)),
        JsonValue::Number(n) => match n {
            JsonNumber::PosInt(u) => if *u < 10000 {
                Some(JsonValue::Number(JsonNumber::PosInt(*u)))
            } else {
                Some(str_value("int"))
            },
            JsonNumber::NegInt(i) => {
                let small = -10000 < *i && *i < 10000;
                if small {
                    let r = JsonValue::Number(JsonNumber::NegInt(*i));
                    assert(r@ == v@);
                    Some(r)
                } else {
                    Some(str_value("int"))
                }
            },
            JsonNumber::Float { text, below_limit } => if *below_limit {
                let r = JsonValue::Number(n.duplicate());
                assert(r@ == v@);
                Some(r)
            } else {
                Some(str_value("float"))
            },
        },
        JsonValue::Str(s) => if utf8_len(s.as_str()) <= MAX_STRING_LEN {
            let r = JsonValue::Str(s.clone());
            assert(r@ == v@);
            assert(encode_utf8(s@).len() <= MAX_STRING_LEN);
            Some(r)
        } else {
            Some(str_value("string"))
        },
        _ => None,
    }
}

fn scalar_summary_value(v: &JsonValue) -> (r: JsonValue)
    ensures
        r@ == scalar_summary(v@),
{
    match small_scalar(v) {
        Some(x) => x,
        None => str_value(value_type_name(v)),
    }
}

proof fn lemma_null_members(e: Seq<Member>)
    ensures
        null_members(e).len() == e.len(),
        forall|i: int| 0 <= i < e.len() ==> #[trigger] null_members(e)[i] == (e[i].0, JsonView::Null),
    decreases e.len(),
{
    if e.len() > 0 {
        lemma_null_members(e.drop_last());
    }
}

proof fn lemma_key_strs(e: Seq<Member>)
    ensures
        key_strs(e).len() == e.len(),
        forall|i: int| 0 <= i < e.len() ==> #[trigger] key_strs(e)[i] == JsonView::Str(e[i].0),
    decreases e.len(),
{
    if e.len() > 0 {
        lemma_key_strs(e.drop_last());
    }
}

/// The keys of an object with distinct keys, sorted, as JSON string values.
pub fn sorted_key_values(entries: &Vec<(String, JsonValue)>) -> (r: Vec<JsonValue>)
    requires
        distinct_keys(entries_view(entries@)),
    ensures
        items_view(r@) == sorted_key_strs(entries_view(entries@)),
{
    let ghost e = entries_view(entries@);
    let ghost nm = null_members(e);
    proof {
        lemma_entries_view(entries@);
        lemma_null_members(e);
    }
    let mut sorted: Vec<(String, JsonValue)> = Vec::new();
    let mut i: usize = 0;
    while i < entries.len()
        invariant
            e == entries_view(entries@),
            nm == null_members(e),
            e.len() == entries@.len(),
            nm.len() == e.len(),
            distinct_keys(e),
            forall|k: int| 0 <= k < entries@.len() ==> #[trigger] e[k] == (entries@[k].0@, json_view_of(entries@[k].1)),
            forall|k: int| 0 <= k < e.len() ==> #[trigger] nm[k] == (e[k].0, JsonView::Null),
            i <= entries@.len(),
            sorted@.len() == i,
            sorted_by_key(entries_view(sorted@)),
            same_members(entries_view(sorted@), nm.take(i as int)),
        decreases entries@.len() - i,
    {
        let key = entries[i].0.clone();
        let ghost before = entries_view(sorted@);
        let ghost m: Member = (key@, JsonView::Null);
        let ghost ti = nm.take(i as int);
        let ghost ti1 = nm.take(i + 1);
        proof {
            assert(m == nm[i as int]);
            lemma_entries_view(sorted@);
            assert forall|k: int| 0 <= k < sorted@.len() implies #[trigger] sorted@[k].0@ != key@ by {
                assert(before[k].0 == sorted@[k].0@);
                assert(before.contains(before[k]));
                assert(ti.contains(before[k]));
                let q = choose|q: int| 0 <= q < ti.len() && ti[q] == before[k];
                assert(nm[q] == before[k]);
                assert(e[q].0 != e[i as int].0);
            }
        }
        insert_member_sorted(&mut sorted, key, JsonValue::Null);
        proof {
            let after = entries_view(sorted@);
            assert forall|y: Member| after.contains(y) <==> ti1.contains(y) by {
                if ti1.contains(y) {
                    let q = choose|q: int| 0 <= q < ti1.len() && ti1[q] == y;
                    if q < i {
                        assert(ti[q] == y);
                    }
                }
                if ti.contains(y) {
                    let q = choose|q: int| 0 <= q < ti.len() && ti[q] == y;
                    assert(ti1[q] == y);
                }
                if y == m {
                    assert(ti1[i as int] == y);
                }
            }
        }
        i += 1;
    }
    proof {
        assert(nm.take(entries@.len() as int) =~= nm);
        assert(crate::canonical::keys_distinct(nm)) by {
            assert forall|a: int, b: int| 0 <= a < b < nm.len() implies #[trigger] nm[a].0 != #[trigger] nm[b].0 by {
                assert(e[a].0 != e[b].0);
            }
        }
        lemma_sort_by_key(nm);
        let sv = entries_view(sorted@);
        assert forall|y: Member| sv.contains(y) <==> sort_by_key(nm).contains(y) by {
            assert(sort_by_key(nm).contains(y) <==> nm.contains(y));
        }
        lemma_sorted_unique(sv, sort_by_key(nm));
        lemma_entries_view(sorted@);
    }
    let mut out: Vec<JsonValue> = Vec::new();
    let mut k: usize = 0;
    while k < sorted.len()
        invariant
            k <= sorted@.len(),
            out@.len() == k,
            entries_view(sorted@) == sort_by_key(nm),
            entries_view(sorted@).len() == sorted@.len(),
            forall|q: int| 0 <= q < sorted@.len() ==> #[trigger] entries_view(sorted@)[q] == (sorted@[q].0@, json_view_of(sorted@[q].1)),
            forall|q: int| 0 <= q < k ==> #[trigger] json_view_of(out@[q]) == JsonView::Str(sorted@[q].0@),
        decreases sorted@.len() - k,
    {
        out.push(JsonValue::Str(sorted[k].0.clone()));
        k += 1;
    }
    proof {
        lemma_items_view(out@);
        lemma_key_strs(sort_by_key(nm));
        assert forall|q: int| 0 <= q < out@.len() implies #[trigger] items_view(out@)[q] == key_strs(
            sort_by_key(nm),
        )[q] by {
            assert(entries_view(sorted@)[q].0 == sorted@[q].0@);
            assert(json_view_of(out@[q]) == JsonView::Str(sorted@[q].0@));
            assert(items_view(out@)[q] == json_view_of(out@[q]));
            assert(key_strs(sort_by_key(nm))[q] == JsonView::Str(sort_by_key(nm)[q].0));
        }
        assert(items_view(out@) =~= key_strs(sort_by_key(nm)));
    }
    out
}

pub open spec fn json_view_of(v: JsonValue) -> JsonView {
    crate::json::json_view(v)
}


proof fn lemma_member_summaries(e: Seq<Member>, depth: nat)
    ensures
        member_summaries(e, depth).len() == e.len(),
        forall|i: int|
            0 <= i < e.len() ==> #[trigger] member_summaries(e, depth)[i] == (e[i].0, summary_of(e[i].1, depth)),
    decreases e.len(),
{
    if e.len() > 0 {
        lemma_member_summaries(e.drop_last(), depth);
    }
}

/// A two-member object value.
fn object2(k1: &str, v1: JsonValue, k2: &str, v2: JsonValue) -> (r: JsonValue)
    ensures
        r@ == JsonView::Object(seq![(k1@, v1@), (k2@, v2@)]),
{
    let mut entries: Vec<(String, JsonValue)> = Vec::new();
    entries.push((k1.to_owned(), v1));
    entries.push((k2.to_owned(), v2));
    proof {
        lemma_entries_view(entries@);
        assert(entries_view(entries@) =~= seq![(k1@, v1@), (k2@, v2@)]);
    }
    JsonValue::Object(entries)
}

/// The summary of `v` seen at nesting depth `depth`: containers are expanded up to
/// `MAX_DEPTH`, arrays are described by their length and first item, and scalars
/// are kept when small.
#[verifier::loop_isolation(false)]
pub fn summarize(v: &JsonValue, depth: usize) -> (r: JsonValue)
    requires
        wf(v@),
    ensures
        r@ == summary_of(v@, depth as nat),
    decreases v,
{
    if depth >= MAX_DEPTH {
        match v {
            JsonValue::Object(_) => str_value("{...}"),
            JsonValue::Array(items) => {
                proof {
                    lemma_items_view(items@);
                }
                array_label_value(items.len())
            },
            _ => scalar_summary_value(v),
        }
    } else {
        match v {
            JsonValue::Object(entries) => {
                let ghost e = entries_view(entries@);
                proof {
                    lemma_entries_view(entries@);
                    crate::json::lemma_members_wf(e);
                    lemma_member_summaries(e, (depth + 1) as nat);
                }
                let ghost d = (depth + 1) as nat;
                let mut out: Vec<(String, JsonValue)> = Vec::new();
                let mut i: usize = 0;
                while i < entries.len()
                    invariant
                        i <= entries@.len(),
                        out@.len() == i,
                        forall|k: int| 0 <= k < i ==> (#[trigger] out@[k]).0@ == e[k].0,
                        forall|k: int|
                            0 <= k < i ==> json_view_of((#[trigger] out@[k]).1) == summary_of(e[k].1, d),
                    decreases entries@.len() - i,
                {
                    proof {
                        assert(decreases_to!(*entries => entries@));
                        assert(decreases_to!(entries@ => entries@[i as int]));
                        assert(decreases_to!(entries@[i as int] => entries@[i as int].1));
                        assert(wf(e[i as int].1));
                    }
                    let c = summarize(&entries[i].1, depth + 1);
                    let key = entries[i].0.clone();
                    assert(e[i as int] == (entries@[i as int].0@, json_view_of(entries@[i as int].1)));
                    assert(key@ == e[i as int].0);
                    assert(c@ == summary_of(e[i as int].1, d));
                    out.push((key, c));
                    i += 1;
                }
                proof {
                    lemma_entries_view(out@);
                    assert(entries_view(out@) =~= member_summaries(e, d));
                }
                JsonValue::Object(out)
            },
            JsonValue::Array(items) => {
                if items.len() == 0 {
                    return array_label_value(0);
                }
                proof {
                    lemma_items_view(items@);
                    crate::json::lemma_items_wf(items_view(items@));
                    assert(wf(items_view(items@)[0]));
                    assert(decreases_to!(*items => items@));
                    assert(decreases_to!(items@ => items@[0]));
                }
                let first = &items[0];
                let ghost a = items_view(items@);
                assert(a[0] == first@);
                assert(v@ == JsonView::Array(a));
                let label = array_label_value(items.len());
                match first {
                    JsonValue::Object(fe) => {
                        assert(first@ == JsonView::Object(entries_view(fe@)));
                        let keys = sorted_key_values(fe);
                        let r = object2("_type", label, "item_keys", JsonValue::Array(keys));
                        assert(r@ == summary_of(v@, depth as nat));
                        r
                    },
                    JsonValue::Array(_) => {
                        let inner = summarize(first, depth + 1);
                        object2("_type", label, "item", inner)
                    },
                    _ => {
                        let r = object2("_type", label, "item_type", scalar_summary_value(first));
                        assert(r@ == summary_of(v@, depth as nat));
                        r
                    },
                }
            },
            _ => scalar_summary_value(v),
        }
    }
}


/// The teaser value of a document (before it is written as text).
pub fn teaser_value(v: &JsonValue) -> (r: JsonValue)
    requires
        wf(v@),
    ensures
        r@ == teaser_of(v@),
{
    let mut entries: Vec<(String, JsonValue)> = Vec::new();
    entries.push(("_teaser".to_owned(), JsonValue::Bool(true)));
    match v {
        JsonValue::Object(obj) => {
            entries.push(("_type".to_owned(), str_value("object")));
            let keys = sorted_key_values(obj);
            entries.push(("keys".to_owned(), JsonValue::Array(keys)));
        },
        JsonValue::Array(items) => {
            proof {
                lemma_items_view(items@);
            }
            entries.push(("_type".to_owned(), array_label_value(items.len())));
        },
        _ => {
            entries.push(("_type".to_owned(), str_value(value_type_name(v))));
        },
    }
    let structure = summarize(v, 0);
    entries.push(("structure".to_owned(), structure));
    proof {
        lemma_entries_view(entries@);
        assert(entries_view(entries@) =~= teaser_of(v@)->Object_0);
    }
    JsonValue::Object(entries)
}

/// Builds the teaser text of a stored document: a compact JSON object that marks
/// itself with `_teaser`, names the document's kind (and, for objects, its sorted
/// keys) and gives its shape summary.
pub fn generate_teaser_from_value(v: &JsonValue) -> (r: String)
    requires
        wf(v@),
    ensures
        r@ == json_text(teaser_of(v@)),
{
    let t = teaser_value(v);
    to_json_string(&t)
}


/// An ASCII decimal digit byte.
pub open spec fn is_digit_byte(b: u8) -> bool {
    48 <= b <= 57
}

/// The number of consecutive digit bytes of `b` starting at `k`.
pub open spec fn digit_run(b: Seq<u8>, k: int) -> nat
    decreases b.len() - k,
{
    if 0 <= k < b.len() && is_digit_byte(b[k]) {
        1 + digit_run(b, k + 1)
    } else {
        0
    }
}

pub proof fn lemma_digit_run_bound(b: Seq<u8>, k: int)
    requires
        0 <= k <= b.len(),
    ensures
        k + digit_run(b, k) <= b.len(),
    decreases b.len() - k,
{
    if k < b.len() && is_digit_byte(b[k]) {
        lemma_digit_run_bound(b, k + 1);
    }
}

/// Each byte read as the character with that code.
pub open spec fn bytes_as_chars(b: Seq<u8>) -> Seq<char> {
    b.map_values(|x: u8| x as char)
}

/// The rest of a dot-notation path from byte `i` on, with every `.<digits>` segment
/// that ends the path or is followed by `.` or `[` written as `[<digits>]`.
pub open spec fn dot_path_from(b: Seq<u8>, i: int) -> Seq<char>
    decreases b.len() - i,
{
    if i < 0 || i >= b.len() {
        Seq::empty()
    } else {
        let j = i + 1 + digit_run(b, i + 1);
        proof {
            lemma_digit_run_bound(b, i + 1);
        }
        if b[i] == 46u8 && j > i + 1 && (j == b.len() || b[j] == 46u8 || b[j] == 91u8) {
            seq!['['] + bytes_as_chars(b.subrange(i + 1, j)) + seq![']'] + dot_path_from(b, j)
        } else {
            seq![b[i] as char] + dot_path_from(b, i + 1)
        }
    }
}

/// The JSONPath expression a user path stands for: `None` when it is blank; the
/// trimmed path when it starts with `$`; otherwise `$.` followed by the path in
/// dot notation with numeric segments turned into indices.
pub open spec fn normalized_path(p: Seq<char>) -> Option<Seq<char>> {
    let t = trim(p);
    if t.len() == 0 {
        None
    } else if t[0] == '$' {
        Some(t)
    } else {
        Some(seq!['$', '.'] + dot_path_from(encode_utf8(t), 0))
    }
}

proof fn lemma_digit_run_step(b: Seq<u8>, k: int)
    requires
        0 <= k < b.len(),
        is_digit_byte(b[k]),
    ensures
        digit_run(b, k) == 1 + digit_run(b, k + 1),
{
}

/// Turns a user path into a JSONPath expression (see `normalized_path`).
pub fn normalize_json_path(path: &str) -> (r: Result<String, ContextCutterError>)
    ensures
        match normalized_path(path@) {
            None => r matches Err(ContextCutterError::InvalidJsonPath(m)) && m@
                == "json path must not be empty"@,
            Some(n) => r matches Ok(s) && s@ == n,
        },
{
    let cs = str_to_chars(path);
    let t = trim_chars(&cs);
    if t.len() == 0 {
        return Err(ContextCutterError::InvalidJsonPath("json path must not be empty".to_owned()));
    }
    let ts = chars_to_string(&t);
    if t[0] == '$' {
        return Ok(ts);
    }
    let b = ts.as_str().as_bytes();
    let ghost bb = b@;
    assert(bb == encode_utf8(t@));
    let mut out: Vec<char> = Vec::new();
    out.push('$');
    out.push('.');
    let mut i: usize = 0;
    while i < b.len()
        invariant
            b@ == bb,
            i <= bb.len(),
            out@ + dot_path_from(bb, i as int) == seq!['$', '.'] + dot_path_from(bb, 0),
        decreases bb.len() - i,
    {
        let ghost before = out@;
        let mut converted = false;
        if b[i] == 46u8 {
            let mut j: usize = i + 1;
            while j < b.len() && 48u8 <= b[j] && b[j] <= 57u8
                invariant
                    b@ == bb,
                    i + 1 <= j <= bb.len(),
                    digit_run(bb, i + 1) == (j - (i + 1)) + digit_run(bb, j as int),
                decreases bb.len() - j,
            {
                proof {
                    lemma_digit_run_step(bb, j as int);
                }
                j += 1;
            }
            assert(digit_run(bb, j as int) == 0);
            if j > i + 1 && (j == b.len() || b[j] == 46u8 || b[j] == 91u8) {
                out.push('[');
                let mut k: usize = i + 1;
                while k < j
                    invariant
                        b@ == bb,
                        i + 1 <= k <= j <= bb.len(),
                        out@ == before + seq!['['] + bytes_as_chars(bb.subrange(i + 1, k as int)),
                    decreases j - k,
                {
                    out.push(b[k] as char);
                    k += 1;
                    assert(bytes_as_chars(bb.subrange(i + 1, k as int)) =~= bytes_as_chars(
                        bb.subrange(i + 1, k - 1),
                    ).push(bb[k - 1] as char));
                }
                out.push(']');
                assert(dot_path_from(bb, i as int) == seq!['['] + bytes_as_chars(
                    bb.subrange(i + 1, j as int),
                ) + seq![']'] + dot_path_from(bb, j as int));
                assert(out@ + dot_path_from(bb, j as int) =~= before + dot_path_from(bb, i as int));
                i = j;
                converted = true;
            }
        }
        if !converted {
            out.push(b[i] as char);
            proof {
                let j = i + 1 + digit_run(bb, i + 1);
                assert(!(bb[i as int] == 46u8 && j > i + 1 && (j == bb.len() || bb[j] == 46u8
                    || bb[j] == 91u8)));
                assert(dot_path_from(bb, i as int) == seq![bb[i as int] as char] + dot_path_from(
                    bb,
                    i + 1,
                ));
            }
            assert(out@ + dot_path_from(bb, i + 1) =~= before + dot_path_from(bb, i as int));
            i += 1;
        }
    }
    assert(dot_path_from(bb, i as int) =~= Seq::<char>::empty());
    assert(out@ =~= seq!['$', '.'] + dot_path_from(bb, 0));
    Ok(chars_to_string(&out))
}


/// The outcome of running JSONPath expression `path` against the JSON document
/// with text `doc`: the compact texts of the selected values, in the order the
/// query engine returns them, or the message of the error when the document does
/// not parse or the expression is rejected.
pub uninterp spec fn json_path_select(doc: Seq<char>, path: Seq<char>) -> Result<Seq<Seq<char>>, Seq<char>>;

/// Trusted: parses `doc` with `serde_json::from_str`, runs `JsonPath::query` of
/// `jsonpath_rust` with `path`, and writes each selected value with `to_string`, or
/// the failing call's error with `to_string`. The contract claims that this outcome
/// is a function of the two texts (named `json_path_select`).
#[verifier::external_body]
fn select_json_path(doc: &str, path: &str) -> (r: Result<Vec<String>, String>)
    ensures
        match json_path_select(doc@, path@) {
            Ok(ms) => r matches Ok(v) && v@.map_values(|s: String| s@) == ms,
            Err(m) => r matches Err(e) && e@ == m,
        },
{
    let value: serde_json::Value = match serde_json::from_str(doc) {
        Ok(v) => v,
        Err(e) => return Err(e.to_string()),
    };
    match value.query(path) {
        Ok(found) => {
            let mut out = Vec::new();
            for m in found {
                out.push(m.to_string());
            }
            Ok(out)
        },
        Err(e) => Err(e.to_string()),
    }
}

/// The texts `ms` separated by commas.
pub open spec fn comma_join(ms: Seq<Seq<char>>) -> Seq<char>
    decreases ms.len(),
{
    if ms.len() == 0 {
        Seq::empty()
    } else if ms.len() == 1 {
        ms[0]
    } else {
        comma_join(ms.drop_last()) + seq![','] + ms.last()
    }
}

/// What a query answers for its selected values: `null` for none, the value itself
/// for one, and a JSON array of them for several.
pub open spec fn matches_text(ms: Seq<Seq<char>>) -> Seq<char> {
    if ms.len() == 0 {
        "null"@
    } else if ms.len() == 1 {
        ms[0]
    } else {
        seq!['['] + comma_join(ms) + seq![']']
    }
}

/// Renders the values a query selected (see `matches_text`).
pub fn render_matches(ms: &Vec<String>) -> (r: String)
    ensures
        r@ == matches_text(ms@.map_values(|s: String| s@)),
{
    let ghost mv = ms@.map_values(|s: String| s@);
    if ms.len() == 0 {
        return "null".to_owned();
    }
    if ms.len() == 1 {
        return ms[0].clone();
    }
    let mut out: Vec<char> = Vec::new();
    out.push('[');
    let mut i: usize = 0;
    while i < ms.len()
        invariant
            mv == ms@.map_values(|s: String| s@),
            mv.len() == ms@.len(),
            i <= ms@.len(),
            out@ == seq!['['] + comma_join(mv.take(i as int)),
        decreases ms@.len() - i,
    {
        if i > 0 {
            out.push(',');
        }
        push_str(&mut out, ms[i].as_str());
        assert(mv.take(i + 1).drop_last() =~= mv.take(i as int));
        assert(mv[i as int] == ms@[i as int]@);
        i += 1;
        assert(out@ =~= seq!['['] + comma_join(mv.take(i as int)));
    }
    out.push(']');
    assert(mv.take(ms@.len() as int) =~= mv);
    chars_to_string(&out)
}

/// Runs a path query against a document. The path is normalized first (see
/// `normalized_path`); the answer is written as `matches_text` gives it.
pub fn query_json_path(value: &JsonValue, json_path: &str) -> (r: Result<String, ContextCutterError>)
    ensures
        match normalized_path(json_path@) {
            None => r matches Err(ContextCutterError::InvalidJsonPath(m)) && m@
                == "json path must not be empty"@,
            Some(n) => match json_path_select(json_text(value@), n) {
                Ok(ms) => r matches Ok(t) && t@ == matches_text(ms),
                Err(e) => r matches Err(ContextCutterError::InvalidJsonPath(m)) && m@ == e,
            },
        },
{
    let normalized = normalize_json_path(json_path)?;
    let doc = to_json_string(value);
    match select_json_path(doc.as_str(), normalized.as_str()) {
        Ok(ms) => Ok(render_matches(&ms)),
        Err(e) => Err(ContextCutterError::InvalidJsonPath(e)),
    }
}

proof fn lemma_scalar_summary_wf(v: JsonView)
    requires
        wf(v),
    ensures
        wf(scalar_summary(v)),
{
}

proof fn lemma_object_wf(e: Seq<Member>)
    requires
        distinct_keys(e),
        forall|i: int| 0 <= i < e.len() ==> wf(#[trigger] e[i].1),
    ensures
        wf(JsonView::Object(e)),
{
    crate::json::lemma_members_wf(e);
}

proof fn lemma_key_strs_wf(e: Seq<Member>)
    ensures
        crate::json::items_wf(key_strs(e)),
{
    lemma_key_strs(e);
    crate::json::lemma_items_wf(key_strs(e));
}

proof fn lemma_keys_differ()
    ensures
        "_type"@ != "item_keys"@,
        "_type"@ != "item"@,
        "_type"@ != "item_type"@,
        "_teaser"@ != "_type"@,
        "_teaser"@ != "keys"@,
        "_teaser"@ != "structure"@,
        "_type"@ != "keys"@,
        "_type"@ != "structure"@,
        "keys"@ != "structure"@,
{
    reveal_strlit("_type");
    reveal_strlit("item_keys");
    reveal_strlit("item");
    reveal_strlit("item_type");
    reveal_strlit("_teaser");
    reveal_strlit("keys");
    reveal_strlit("structure");
    assert("_type"@[0] != "item_keys"@[0]);
    assert("_type"@[0] != "item"@[0]);
    assert("_type"@[0] != "item_type"@[0]);
    assert("_teaser"@[2] != "_type"@[2]);
    assert("_teaser"@[0] != "keys"@[0]);
    assert("_teaser"@[0] != "structure"@[0]);
    assert("_type"@[0] != "keys"@[0]);
    assert("_type"@[0] != "structure"@[0]);
    assert("keys"@[0] != "structure"@[0]);
}

/// The summary of a well-formed value is well formed.
pub proof fn lemma_summary_wf(v: JsonView, depth: nat)
    requires
        wf(v),
    ensures
        wf(summary_of(v, depth)),
    decreases v,
{
    lemma_keys_differ();
    if depth >= MAX_DEPTH {
        lemma_scalar_summary_wf(v);
    } else {
        match v {
            JsonView::Object(e) => {
                let ms = member_summaries(e, depth + 1);
                lemma_member_summaries(e, depth + 1);
                crate::json::lemma_members_wf(e);
                crate::json::lemma_members_wf(ms);
                assert forall|i: int| 0 <= i < ms.len() implies wf(#[trigger] ms[i].1) by {
                    assert(decreases_to!(v => e));
                    assert(decreases_to!(e => e[i]));
                    assert(decreases_to!(e[i] => e[i].1));
                    lemma_summary_wf(e[i].1, depth + 1);
                }
                assert(distinct_keys(ms)) by {
                    assert forall|a: int, b: int| 0 <= a < b < ms.len() implies #[trigger] ms[a].0
                        != #[trigger] ms[b].0 by {
                        assert(e[a].0 != e[b].0);
                    }
                }
            },
            JsonView::Array(a) => {
                if a.len() > 0 {
                    crate::json::lemma_items_wf(a);
                    assert(wf(a[0]));
                    match a[0] {
                        JsonView::Object(fe) => {
                            lemma_key_strs_wf(sort_by_key(null_members(fe)));
                            lemma_object_wf(
                                seq![
                                    ("_type"@, JsonView::Str(array_label(a.len()))),
                                    ("item_keys"@, JsonView::Array(sorted_key_strs(fe))),
                                ],
                            );
                        },
                        JsonView::Array(_) => {
                            assert(decreases_to!(v => a));
                            assert(decreases_to!(a => a[0]));
                            lemma_summary_wf(a[0], depth + 1);
                            lemma_object_wf(
                                seq![
                                    ("_type"@, JsonView::Str(array_label(a.len()))),
                                    ("item"@, summary_of(a[0], depth + 1)),
                                ],
                            );
                        },
                        _ => {
                            lemma_scalar_summary_wf(a[0]);
                            lemma_object_wf(
                                seq![
                                    ("_type"@, JsonView::Str(array_label(a.len()))),
                                    ("item_type"@, scalar_summary(a[0])),
                                ],
                            );
                        },
                    }
                }
            },
            _ => {
                lemma_scalar_summary_wf(v);
            },
        }
    }
}

/// Law: the teaser of a well-formed document is itself well-formed JSON (distinct
/// keys at every depth), so it can be parsed back.
pub proof fn law_teaser_is_well_formed(v: JsonView)
    requires
        wf(v),
    ensures
        wf(teaser_of(v)),
{
    lemma_keys_differ();
    lemma_summary_wf(v, 0);
    match v {
        JsonView::Object(e) => {
            lemma_key_strs_wf(sort_by_key(null_members(e)));
            lemma_object_wf(
                seq![
                    ("_teaser"@, JsonView::Bool(true)),
                    ("_type"@, JsonView::Str("object"@)),
                    ("keys"@, JsonView::Array(sorted_key_strs(e))),
                    ("structure"@, summary_of(v, 0)),
                ],
            );
        },
        JsonView::Array(a) => {
            lemma_object_wf(
                seq![
                    ("_teaser"@, JsonView::Bool(true)),
                    ("_type"@, JsonView::Str(array_label(a.len()))),
                    ("structure"@, summary_of(v, 0)),
                ],
            );
        },
        _ => {
            lemma_object_wf(
                seq![
                    ("_teaser"@, JsonView::Bool(true)),
                    ("_type"@, JsonView::Str(kind_name(v))),
                    ("structure"@, summary_of(v, 0)),
                ],
            );
        },
    }
}

/// Law (long strings): at any depth, a string value longer than `MAX_STRING_LEN`
/// UTF-8 bytes is summarized by its kind, the string `"string"`, whatever it holds.
pub proof fn law_long_string_summarized_by_kind(s: Seq<char>, depth: nat)
    requires
        encode_utf8(s).len() > MAX_STRING_LEN,
    ensures
        summary_of(JsonView::Str(s), depth) == JsonView::Str("string"@),
{
}

/// Law (long strings in a teaser): in the teaser of an object, the structure lists
/// every member under its key, and a member holding a string longer than
/// `MAX_STRING_LEN` UTF-8 bytes is shown as `"string"`, not as its text.
pub proof fn law_teaser_hides_long_strings(e: Seq<Member>, i: int)
    requires
        0 <= i < e.len(),
        e[i].1 matches JsonView::Str(s) && encode_utf8(s).len() > MAX_STRING_LEN,
    ensures
        get_in(teaser_of(JsonView::Object(e)), "structure"@) matches Some(JsonView::Object(ms)) && ms.len()
            == e.len() && ms[i] == (e[i].0, JsonView::Str("string"@)),
{
    lemma_keys_differ();
    lemma_member_summaries(e, 1);
    let t = teaser_of(JsonView::Object(e));
    let items = seq![
        ("_teaser"@, JsonView::Bool(true)),
        ("_type"@, JsonView::Str("object"@)),
        ("keys"@, JsonView::Array(sorted_key_strs(e))),
        ("structure"@, summary_of(JsonView::Object(e), 0)),
    ];
    assert(items.drop_first().drop_first().drop_first().drop_first().len() == 0);
    assert(crate::json::member_value(items, "structure"@) == Some(summary_of(JsonView::Object(e), 0))) by {
        reveal_with_fuel(crate::json::member_value, 5);
        assert(items.drop_first()[0].0 == "_type"@);
        assert(items.drop_first().drop_first()[0].0 == "keys"@);
        assert(items.drop_first().drop_first().drop_first()[0].0 == "structure"@);
    }
    law_long_string_summarized_by_kind(e[i].1->Str_0, 1);
}

/// Digits to the end of the bytes run to the end.
proof fn lemma_digit_run_to_end(b: Seq<u8>, k: int)
    requires
        0 <= k <= b.len(),
        forall|m: int| k <= m < b.len() ==> is_digit_byte(#[trigger] b[m]),
    ensures
        digit_run(b, k) == b.len() - k,
    decreases b.len() - k,
{
    if k < b.len() {
        lemma_digit_run_to_end(b, k + 1);
    }
}

/// Bytes with no `.` among them are copied as they are.
proof fn lemma_dot_path_copies(b: Seq<u8>, i: int, n: int)
    requires
        0 <= i <= n <= b.len(),
        forall|m: int| i <= m < n ==> #[trigger] b[m] != 46u8,
    ensures
        dot_path_from(b, i) == bytes_as_chars(b.subrange(i, n)) + dot_path_from(b, n),
    decreases n - i,
{
    if i < n {
        lemma_dot_path_copies(b, i + 1, n);
        assert(bytes_as_chars(b.subrange(i, n)) =~= seq![b[i] as char] + bytes_as_chars(b.subrange(i + 1, n)));
    } else {
        assert(bytes_as_chars(b.subrange(i, n)) =~= Seq::<char>::empty());
    }
}

/// An ASCII character.
pub open spec fn is_ascii_char(c: char) -> bool {
    (c as u32) < 128
}

/// The UTF-8 encoding of ASCII text is one byte per character, with the same code.
proof fn lemma_ascii_encoding(s: Seq<char>)
    requires
        forall|m: int| 0 <= m < s.len() ==> is_ascii_char(#[trigger] s[m]),
    ensures
        encode_utf8(s).len() == s.len(),
        forall|m: int| 0 <= m < s.len() ==> #[trigger] encode_utf8(s)[m] as u32 == s[m] as u32,
    decreases s.len(),
{
    if s.len() > 0 {
        let c = s[0] as u32;
        assert(is_ascii_char(s[0]));
        assert((c & 0x7F) as u8 as u32 == c) by (bit_vector)
            requires
                c < 128,
        ;
        lemma_ascii_encoding(s.drop_first());
        assert forall|m: int| 0 <= m < s.len() implies #[trigger] encode_utf8(s)[m] as u32 == s[m] as u32 by {
            if m > 0 {
                assert(s.drop_first()[m - 1] == s[m]);
            }
        }
    }
}

/// Law (numeric last segment): a dot path whose last segment is all digits reads
/// that segment as an array index, as it does for a numeric segment in the
/// middle: `k.d` becomes `$.k[d]` for a key `k` (ASCII, without `.`, not starting
/// with `$` or whitespace) and digits `d`.
pub proof fn law_numeric_last_segment_is_an_index(k: Seq<char>, d: Seq<char>)
    requires
        k.len() > 0,
        d.len() > 0,
        k[0] != '$',
        !is_ws(k[0]),
        forall|m: int| 0 <= m < k.len() ==> is_ascii_char(#[trigger] k[m]) && k[m] != '.',
        forall|m: int| 0 <= m < d.len() ==> '0' <= #[trigger] d[m] <= '9',
    ensures
        normalized_path(k + seq!['.'] + d) == Some(seq!['$', '.'] + k + seq!['['] + d + seq![']']),
{
    let p = k + seq!['.'] + d;
    assert(p[0] == k[0]);
    assert(p.last() == d.last());
    assert(!is_ws(p.last()));
    assert(trim_start(p) == p);
    assert(trim_end(p) == p);
    assert forall|m: int| 0 <= m < p.len() implies is_ascii_char(#[trigger] p[m]) by {
        if m < k.len() {
            assert(p[m] == k[m]);
        } else if m > k.len() {
            assert(p[m] == d[m - k.len() - 1]);
        }
    }
    lemma_ascii_encoding(p);
    let b = encode_utf8(p);
    let n = k.len() as int;
    assert forall|m: int| 0 <= m < n implies #[trigger] b[m] != 46u8 by {
        assert(b[m] as u32 == p[m] as u32);
        assert(p[m] == k[m]);
        if b[m] == 46u8 {
            vstd::utf8::char_u32_cast(k[m], 46u32);
            vstd::utf8::char_u32_cast('.', 46u32);
        }
    }
    assert(b[n] as u32 == p[n] as u32);
    assert(b[n] == 46u8);
    assert forall|m: int| n + 1 <= m < b.len() implies is_digit_byte(#[trigger] b[m]) by {
        assert(b[m] as u32 == p[m] as u32);
        assert(p[m] == d[m - n - 1]);
    }
    lemma_dot_path_copies(b, 0, n);
    lemma_digit_run_to_end(b, n + 1);
    assert(dot_path_from(b, b.len() as int) == Seq::<char>::empty());
    assert(dot_path_from(b, n) == seq!['['] + bytes_as_chars(b.subrange(n + 1, b.len() as int)) + seq![']']);
    assert(bytes_as_chars(b.subrange(0, n)) =~= k) by {
        assert forall|m: int| 0 <= m < n implies bytes_as_chars(b.subrange(0, n))[m] == k[m] by {
            assert(b[m] as u32 == p[m] as u32);
            assert(p[m] == k[m]);
            vstd::utf8::char_u32_cast(k[m], b[m] as u32);
            assert(b[m] as char == (b[m] as u32) as char);
        }
    }
    assert(bytes_as_chars(b.subrange(n + 1, b.len() as int)) =~= d) by {
        assert forall|m: int| 0 <= m < d.len() implies bytes_as_chars(b.subrange(n + 1, b.len() as int))[m]
            == d[m] by {
            assert(b[n + 1 + m] as u32 == p[n + 1 + m] as u32);
            assert(p[n + 1 + m] == d[m]);
            vstd::utf8::char_u32_cast(d[m], b[n + 1 + m] as u32);
            assert(b[n + 1 + m] as char == (b[n + 1 + m] as u32) as char);
        }
    }
    assert(seq!['$', '.'] + dot_path_from(b, 0) =~= seq!['$', '.'] + k + seq!['['] + d + seq![']']);
}

/// Law (several matches): the answer for two selected values is the JSON array
/// of both texts.
pub proof fn law_two_matches_make_an_array(a: Seq<char>, b: Seq<char>)
    ensures
        matches_text(seq![a, b]) == seq!['['] + a + seq![','] + b + seq![']'],
{
    reveal_with_fuel(comma_join, 2);
    assert(seq![a, b].drop_last() =~= seq![a]);
    assert(comma_join(seq![a]) == a);
    assert(comma_join(seq![a, b]) == comma_join(seq![a]) + seq![','] + b);
    assert(seq!['['] + (a + seq![','] + b) + seq![']'] =~= seq!['['] + a + seq![','] + b + seq![']']);
}

/// Law (every match is listed): once there are two or more selected values, one
/// more value adds one more element to the answer's array, after a comma, and
/// keeps the others as they were.
pub proof fn law_one_more_match(ms: Seq<Seq<char>>, m: Seq<char>)
    requires
        ms.len() >= 2,
    ensures
        matches_text(ms.push(m)) == matches_text(ms).drop_last() + seq![','] + m + seq![']'],
        matches_text(ms).last() == ']',
{
    assert(ms.push(m).drop_last() =~= ms);
    let j = seq!['['] + comma_join(ms);
    assert(matches_text(ms) == j + seq![']']);
    assert((j + seq![']']).drop_last() =~= j);
    assert(matches_text(ms.push(m)) =~= j + seq![','] + m + seq![']']);
}

} // verus!
