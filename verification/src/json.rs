//! The JSON document model used throughout the library, and its compact text form.

use vstd::prelude::*;

use crate::text::{chars_to_string, decimal, hex_lower, hex_lower_exec, push_decimal, push_str, str_to_chars};

verus! {

/// A JSON number as the parser hands it over: a non-negative integer, a negative
/// integer, or a floating-point number kept as its decimal text together with
/// whether its magnitude lies below the summary limit.
#[derive(Clone, Debug)]
pub enum JsonNumber {
    PosInt(u64),
    NegInt(i64),
    Float { text: String, below_limit: bool },
}

/// An owned JSON value. Object entries keep their order.
#[derive(Debug)]
pub enum JsonValue {
    Null,
    Bool(bool),
    Number(JsonNumber),
    Str(String),
    Array(Vec<JsonValue>),
    Object(Vec<(String, JsonValue)>),
}

/// The mathematical view of a JSON number.
pub enum NumberView {
    PosInt(u64),
    NegInt(i64),
    Float { text: Seq<char>, below_limit: bool },
}

/// The mathematical view of a JSON value.
pub enum JsonView {
    Null,
    Bool(bool),
    Number(NumberView),
    Str(Seq<char>),
    Array(Seq<JsonView>),
    Object(Seq<(Seq<char>, JsonView)>),
}

pub open spec fn number_view(n: JsonNumber) -> NumberView {
    match n {
        JsonNumber::PosInt(u) => NumberView::PosInt(u),
        JsonNumber::NegInt(i) => NumberView::NegInt(i),
        JsonNumber::Float { text, below_limit } => NumberView::Float { text: text@, below_limit },
    }
}

pub open spec fn json_view(v: JsonValue) -> JsonView
    decreases v, 0nat,
{
    match v {
        JsonValue::Null => JsonView::Null,
        JsonValue::Bool(b) => JsonView::Bool(b),
        JsonValue::Number(n) => JsonView::Number(number_view(n)),
        JsonValue::Str(s) => JsonView::Str(s@),
        JsonValue::Array(a) => JsonView::Array(items_view(a@)),
        JsonValue::Object(o) => JsonView::Object(entries_view(o@)),
    }
}

pub open spec fn items_view(s: Seq<JsonValue>) -> Seq<JsonView>
    decreases s, 1nat,
{
    if s.len() == 0 {
        Seq::empty()
    } else {
        items_view(s.drop_last()).push(json_view(s.last()))
    }
}

pub open spec fn entries_view(s: Seq<(String, JsonValue)>) -> Seq<(Seq<char>, JsonView)>
    decreases s, 1nat,
{
    if s.len() == 0 {
        Seq::empty()
    } else {
        entries_view(s.drop_last()).push((s.last().0@, json_view(s.last().1)))
    }
}

impl View for JsonValue {
    type V = JsonView;

    open spec fn view(&self) -> JsonView {
        json_view(*self)
    }
}


/// The compact escape of one character inside a JSON string literal.
pub open spec fn escape_char(c: char) -> Seq<char> {
    if c == '"' {
        seq!['\\', '"']
    } else if c == '\\' {
        seq!['\\', '\\']
    } else if c == '\u{8}' {
        seq!['\\', 'b']
    } else if c == '\u{c}' {
        seq!['\\', 'f']
    } else if c == '\n' {
        seq!['\\', 'n']
    } else if c == '\r' {
        seq!['\\', 'r']
    } else if c == '\t' {
        seq!['\\', 't']
    } else if (c as u32) < 0x20 {
        seq!['\\', 'u', '0', '0', hex_lower((c as u32 / 16) as nat), hex_lower((c as u32 % 16) as nat)]
    } else {
        seq![c]
    }
}

/// The escaped body of a JSON string literal.
pub open spec fn escape_str(s: Seq<char>) -> Seq<char>
    decreases s.len(),
{
    if s.len() == 0 {
        Seq::empty()
    } else {
        escape_str(s.drop_last()) + escape_char(s.last())
    }
}

/// A JSON string literal for `s`.
pub open spec fn quoted(s: Seq<char>) -> Seq<char> {
    seq!['"'] + escape_str(s) + seq!['"']
}

/// The text of a JSON number.
pub open spec fn number_text(n: NumberView) -> Seq<char> {
    match n {
        NumberView::PosInt(u) => decimal(u as nat),
        NumberView::NegInt(i) => if i < 0 {
            seq!['-'] + decimal((-i) as nat)
        } else {
            decimal(i as nat)
        },
        NumberView::Float { text, below_limit } => text,
    }
}

/// The compact JSON text of a value: no whitespace, entries in order.
pub open spec fn json_text(v: JsonView) -> Seq<char>
    decreases v, 0nat,
{
    match v {
        JsonView::Null => seq!['n', 'u', 'l', 'l'],
        JsonView::Bool(b) => if b {
            seq!['t', 'r', 'u', 'e']
        } else {
            seq!['f', 'a', 'l', 's', 'e']
        },
        JsonView::Number(n) => number_text(n),
        JsonView::Str(s) => quoted(s),
        JsonView::Array(items) => seq!['['] + items_text(items) + seq![']'],
        JsonView::Object(entries) => seq!['{'] + members_text(entries) + seq!['}'],
    }
}

/// The texts of `items` separated by commas.
pub open spec fn items_text(items: Seq<JsonView>) -> Seq<char>
    decreases items, 1nat,
{
    if items.len() == 0 {
        Seq::empty()
    } else if items.len() == 1 {
        json_text(items[0])
    } else {
        items_text(items.drop_last()) + seq![','] + json_text(items.last())
    }
}

/// The texts of `"key":value` members separated by commas.
pub open spec fn members_text(entries: Seq<(Seq<char>, JsonView)>) -> Seq<char>
    decreases entries, 1nat,
{
    if entries.len() == 0 {
        Seq::empty()
    } else if entries.len() == 1 {
        quoted(entries[0].0) + seq![':'] + json_text(entries[0].1)
    } else {
        members_text(entries.drop_last()) + seq![','] + quoted(entries.last().0) + seq![':']
            + json_text(entries.last().1)
    }
}

pub proof fn lemma_items_view(s: Seq<JsonValue>)
    ensures
        items_view(s).len() == s.len(),
        forall|i: int| 0 <= i < s.len() ==> #[trigger] items_view(s)[i] == json_view(s[i]),
    decreases s.len(),
{
    if s.len() > 0 {
        lemma_items_view(s.drop_last());
    }
}

pub proof fn lemma_entries_view(s: Seq<(String, JsonValue)>)
    ensures
        entries_view(s).len() == s.len(),
        forall|i: int|
            0 <= i < s.len() ==> #[trigger] entries_view(s)[i] == (s[i].0@, json_view(s[i].1)),
    decreases s.len(),
{
    if s.len() > 0 {
        lemma_entries_view(s.drop_last());
    }
}

/// Appends one escaped character.
fn push_escaped_char(out: &mut Vec<char>, c: char)
    ensures
        final(out)@ == old(out)@ + escape_char(c),
{
    let u = c as u32;
    if c == '"' {
        out.push('\\');
        out.push('"');
    } else if c == '\\' {
        out.push('\\');
        out.push('\\');
    } else if c == '\u{8}' {
        out.push('\\');
        out.push('b');
    } else if c == '\u{c}' {
        out.push('\\');
        out.push('f');
    } else if c == '\n' {
        out.push('\\');
        out.push('n');
    } else if c == '\r' {
        out.push('\\');
        out.push('r');
    } else if c == '\t' {
        out.push('\\');
        out.push('t');
    } else if u < 0x20 {
        out.push('\\');
        out.push('u');
        out.push('0');
        out.push('0');
        out.push(hex_lower_exec((u / 16) as u8));
        out.push(hex_lower_exec((u % 16) as u8));
    } else {
        out.push(c);
    }
    assert(final(out)@ =~= old(out)@ + escape_char(c));
}

/// Appends a JSON string literal for `s`.
pub fn push_quoted(out: &mut Vec<char>, s: &str)
    ensures
        final(out)@ == old(out)@ + quoted(s@),
{
    let cs = str_to_chars(s);
    let ghost start = out@;
    out.push('"');
    let mut i: usize = 0;
    while i < cs.len()
        invariant
            i <= cs@.len(),
            out@ == start + seq!['"'] + escape_str(cs@.take(i as int)),
        decreases cs@.len() - i,
    {
        let ghost before = out@;
        push_escaped_char(out, cs[i]);
        assert(cs@.take(i + 1).drop_last() =~= cs@.take(i as int));
        i += 1;
        assert(out@ =~= start + seq!['"'] + escape_str(cs@.take(i as int)));
    }
    out.push('"');
    assert(cs@.take(cs@.len() as int) =~= s@);
    assert(out@ =~= start + quoted(s@));
}

/// Appends the text of a number.
fn push_number(out: &mut Vec<char>, n: &JsonNumber)
    ensures
        final(out)@ == old(out)@ + number_text(number_view(*n)),
{
    match n {
        JsonNumber::PosInt(u) => {
            push_decimal(out, *u);
        },
        JsonNumber::NegInt(i) => {
            if *i < 0 {
                out.push('-');
                let m: u64 = (0i128 - (*i as i128)) as u64;
                push_decimal(out, m);
                assert(final(out)@ =~= old(out)@ + number_text(number_view(*n)));
            } else {
                push_decimal(out, *i as u64);
            }
        },
        JsonNumber::Float { text, below_limit } => {
            push_str(out, text.as_str());
        },
    }
}

/// Appends the compact JSON text of `v`.
#[verifier::loop_isolation(false)]
#[verifier::spinoff_prover]
#[verifier::rlimit(50)]
pub fn push_json(out: &mut Vec<char>, v: &JsonValue)
    ensures
        final(out)@ == old(out)@ + json_text(v@),
    decreases v,
{
    match v {
        JsonValue::Null => {
            out.push('n');
            out.push('u');
            out.push('l');
            out.push('l');
            assert(final(out)@ =~= old(out)@ + json_text(v@));
        },
        JsonValue::Bool(b) => {
            if *b {
                out.push('t');
                out.push('r');
                out.push('u');
                out.push('e');
            } else {
                out.push('f');
                out.push('a');
                out.push('l');
                out.push('s');
                out.push('e');
            }
            assert(final(out)@ =~= old(out)@ + json_text(v@));
        },
        JsonValue::Number(n) => {
            push_number(out, n);
        },
        JsonValue::Str(s) => {
            push_quoted(out, s.as_str());
        },
        JsonValue::Array(items) => {
            let ghost start = out@;
            let ghost iv = items_view(items@);
            proof {
                lemma_items_view(items@);
            }
            out.push('[');
            let mut i: usize = 0;
            while i < items.len()
                invariant
                    i <= items@.len(),
                    iv == items_view(items@),
                    iv.len() == items@.len(),
                    forall|k: int| 0 <= k < items@.len() ==> #[trigger] iv[k] == json_view(items@[k]),
                    out@ == start + seq!['['] + items_text(iv.take(i as int)),
                decreases items@.len() - i,
            {
                if i > 0 {
                    out.push(',');
                }
                proof {
                    assert(decreases_to!(*items => items@));
                    assert(decreases_to!(items@ => items@[i as int]));
                }
                push_json(out, &items[i]);
                assert(iv.take(i + 1).drop_last() =~= iv.take(i as int));
                assert(iv.take(i + 1).last() == json_view(items@[i as int]));
                i += 1;
                assert(out@ =~= start + seq!['['] + items_text(iv.take(i as int)));
            }
            out.push(']');
            assert(iv.take(items@.len() as int) =~= iv);
            assert(out@ =~= start + json_text(v@));
        },
        JsonValue::Object(entries) => {
            let ghost start = out@;
            let ghost ev = entries_view(entries@);
            proof {
                lemma_entries_view(entries@);
            }
            out.push('{');
            let mut i: usize = 0;
            while i < entries.len()
                invariant
                    i <= entries@.len(),
                    ev == entries_view(entries@),
                    ev.len() == entries@.len(),
                    forall|k: int|
                        0 <= k < entries@.len() ==> #[trigger] ev[k] == (
                            entries@[k].0@,
                            json_view(entries@[k].1),
                        ),
                    out@ == start + seq!['{'] + members_text(ev.take(i as int)),
                decreases entries@.len() - i,
            {
                if i > 0 {
                    out.push(',');
                }
                push_quoted(out, entries[i].0.as_str());
                out.push(':');
                proof {
                    assert(decreases_to!(*entries => entries@));
                    assert(decreases_to!(entries@ => entries@[i as int]));
                    assert(decreases_to!(entries@[i as int] => entries@[i as int].1));
                }
                push_json(out, &entries[i].1);
                assert(ev.take(i + 1).drop_last() =~= ev.take(i as int));
                assert(ev.take(i + 1).last() == ev[i as int]);
                i += 1;
                assert(out@ =~= start + seq!['{'] + members_text(ev.take(i as int)));
            }
            out.push('}');
            assert(ev.take(entries@.len() as int) =~= ev);
            assert(out@ =~= start + json_text(v@));
        },
    }
}

/// The compact JSON text of `v`, as `serde_json::to_string` writes it.
pub fn to_json_string(v: &JsonValue) -> (r: String)
    ensures
        r@ == json_text(v@),
{
    let mut out: Vec<char> = Vec::new();
    push_json(&mut out, v);
    assert(out@ =~= json_text(v@));
    chars_to_string(&out)
}


/// No key occurs twice among object members.
pub open spec fn distinct_keys(s: Seq<(Seq<char>, JsonView)>) -> bool {
    forall|i: int, j: int| 0 <= i < j < s.len() ==> #[trigger] s[i].0 != #[trigger] s[j].0
}

/// A well-formed value: object keys are distinct and negative integers are negative,
/// at every depth, as the parser produces them.
pub open spec fn wf(v: JsonView) -> bool
    decreases v, 0nat,
{
    match v {
        JsonView::Number(NumberView::NegInt(i)) => i < 0,
        JsonView::Array(s) => items_wf(s),
        JsonView::Object(e) => distinct_keys(e) && members_wf(e),
        _ => true,
    }
}

pub open spec fn items_wf(s: Seq<JsonView>) -> bool
    decreases s, 1nat,
{
    s.len() == 0 || (items_wf(s.drop_last()) && wf(s.last()))
}

pub open spec fn members_wf(s: Seq<(Seq<char>, JsonView)>) -> bool
    decreases s, 1nat,
{
    s.len() == 0 || (members_wf(s.drop_last()) && wf(s.last().1))
}

pub proof fn lemma_items_wf(s: Seq<JsonView>)
    ensures
        items_wf(s) <==> forall|i: int| 0 <= i < s.len() ==> wf(#[trigger] s[i]),
    decreases s.len(),
{
    if s.len() > 0 {
        lemma_items_wf(s.drop_last());
        if forall|i: int| 0 <= i < s.len() ==> wf(#[trigger] s[i]) {
            assert forall|i: int| 0 <= i < s.drop_last().len() implies wf(#[trigger] s.drop_last()[i]) by {
                assert(s.drop_last()[i] == s[i]);
            }
        }
        if items_wf(s) {
            assert forall|i: int| 0 <= i < s.len() implies wf(#[trigger] s[i]) by {
                if i < s.len() - 1 {
                    assert(s.drop_last()[i] == s[i]);
                }
            }
        }
    }
}

pub proof fn lemma_members_wf(s: Seq<(Seq<char>, JsonView)>)
    ensures
        members_wf(s) <==> forall|i: int| 0 <= i < s.len() ==> wf(#[trigger] s[i].1),
    decreases s.len(),
{
    if s.len() > 0 {
        lemma_members_wf(s.drop_last());
        if forall|i: int| 0 <= i < s.len() ==> wf(#[trigger] s[i].1) {
            assert forall|i: int| 0 <= i < s.drop_last().len() implies wf(#[trigger] s.drop_last()[i].1) by {
                assert(s.drop_last()[i] == s[i]);
            }
        }
        if members_wf(s) {
            assert forall|i: int| 0 <= i < s.len() implies wf(#[trigger] s[i].1) by {
                if i < s.len() - 1 {
                    assert(s.drop_last()[i] == s[i]);
                }
            }
        }
    }
}


impl JsonNumber {
    /// A copy of this number.
    pub fn duplicate(&self) -> (r: JsonNumber)
        ensures
            number_view(r) == number_view(*self),
    {
        match self {
            JsonNumber::PosInt(u) => JsonNumber::PosInt(*u),
            JsonNumber::NegInt(i) => JsonNumber::NegInt(*i),
            JsonNumber::Float { text, below_limit } => JsonNumber::Float {
                text: text.clone(),
                below_limit: *below_limit,
            },
        }
    }
}

impl JsonValue {
    /// A copy of this value, at every depth.
    #[verifier::loop_isolation(false)]
    pub fn duplicate(&self) -> (r: JsonValue)
        ensures
            r@ == self@,
        decreases self,
    {
        match self {
            JsonValue::Null => JsonValue::Null,
            JsonValue::Bool(b) => JsonValue::Bool(*b),
            JsonValue::Number(n) => JsonValue::Number(n.duplicate()),
            JsonValue::Str(s) => JsonValue::Str(s.clone()),
            JsonValue::Array(items) => {
                let mut out: Vec<JsonValue> = Vec::new();
                let mut i: usize = 0;
                while i < items.len()
                    invariant
                        i <= items@.len(),
                        out@.len() == i,
                        forall|k: int| 0 <= k < i ==> #[trigger] json_view(out@[k]) == json_view(items@[k]),
                    decreases items@.len() - i,
                {
                    proof {
                        assert(decreases_to!(*items => items@));
                        assert(decreases_to!(items@ => items@[i as int]));
                    }
                    let c = items[i].duplicate();
                    out.push(c);
                    i += 1;
                }
                proof {
                    lemma_items_view(out@);
                    lemma_items_view(items@);
                    assert(items_view(out@) =~= items_view(items@));
                }
                JsonValue::Array(out)
            },
            JsonValue::Object(entries) => {
                let mut out: Vec<(String, JsonValue)> = Vec::new();
                let mut i: usize = 0;
                while i < entries.len()
                    invariant
                        i <= entries@.len(),
                        out@.len() == i,
                        forall|k: int|
                            0 <= k < i ==> #[trigger] out@[k].0@ == entries@[k].0@ && json_view(out@[k].1)
                                == json_view(entries@[k].1),
                    decreases entries@.len() - i,
                {
                    proof {
                        assert(decreases_to!(*entries => entries@));
                        assert(decreases_to!(entries@ => entries@[i as int]));
                        assert(decreases_to!(entries@[i as int] => entries@[i as int].1));
                    }
                    let c = entries[i].1.duplicate();
                    let k = entries[i].0.clone();
                    out.push((k, c));
                    i += 1;
                }
                proof {
                    lemma_entries_view(out@);
                    lemma_entries_view(entries@);
                    assert(entries_view(out@) =~= entries_view(entries@));
                }
                JsonValue::Object(out)
            },
        }
    }
}


impl Clone for JsonValue {
    /// A copy of this value, at every depth.
    fn clone(&self) -> (r: JsonValue)
        ensures
            r@ == self@,
    {
        self.duplicate()
    }
}

/// The value of the first member named `k`.
pub open spec fn member_value(e: Seq<(Seq<char>, JsonView)>, k: Seq<char>) -> Option<JsonView>
    decreases e.len(),
{
    if e.len() == 0 {
        None
    } else if e[0].0 == k {
        Some(e[0].1)
    } else {
        member_value(e.drop_first(), k)
    }
}

/// The member named `k` of an object (`Value::get` with a key); nothing for other
/// values.
pub open spec fn get_in(v: JsonView, k: Seq<char>) -> Option<JsonView> {
    match v {
        JsonView::Object(e) => member_value(e, k),
        _ => None,
    }
}

/// The string held by the member named `k` of an object, if it holds a string
/// (`v[k].as_str()`).
pub open spec fn str_in(v: JsonView, k: Seq<char>) -> Option<Seq<char>> {
    match get_in(v, k) {
        Some(JsonView::Str(s)) => Some(s),
        _ => None,
    }
}

/// The member named `key` of an object value.
pub fn get_member<'a>(v: &'a JsonValue, key: &str) -> (r: Option<&'a JsonValue>)
    ensures
        match r {
            Some(x) => get_in(v@, key@) == Some(x@),
            None => get_in(v@, key@) is None,
        },
{
    match v {
        JsonValue::Object(entries) => {
            let k = key.to_owned();
            proof {
                lemma_entries_view(entries@);
            }
            let ghost e = entries_view(entries@);
            let mut i: usize = 0;
            assert(e.skip(0) =~= e);
            assert(v@ == JsonView::Object(e));
            while i < entries.len()
                invariant
                    v@ == JsonView::Object(e),
                    e == entries_view(entries@),
                    e.len() == entries@.len(),
                    forall|j: int| 0 <= j < entries@.len() ==> #[trigger] e[j] == (entries@[j].0@, json_view(entries@[j].1)),
                    k@ == key@,
                    i <= entries@.len(),
                    member_value(e, key@) == member_value(e.skip(i as int), key@),
                decreases entries@.len() - i,
            {
                assert(e.skip(i as int)[0] == e[i as int]);
                assert(e.skip(i as int).drop_first() =~= e.skip(i + 1));
                if entries[i].0 == k {
                    assert(e.skip(i as int)[0].0 == key@);
                    assert(member_value(e.skip(i as int), key@) == Some(json_view(entries@[i as int].1)));
                    assert(v@ == JsonView::Object(e));
                    return Some(&entries[i].1);
                }
                i += 1;
            }
            None
        },
        _ => None,
    }
}

/// The string held by the member named `key` of an object value, if any.
pub fn str_member(v: &JsonValue, key: &str) -> (r: Option<String>)
    ensures
        match r {
            Some(s) => str_in(v@, key@) == Some(s@),
            None => str_in(v@, key@) is None,
        },
{
    match get_member(v, key) {
        Some(JsonValue::Str(s)) => Some(s.clone()),
        _ => None,
    }
}

} // verus!
