//! Key-order normalization of JSON values and the handle identifiers derived
//! from the normalized text.

use sha2::Digest;
use vstd::prelude::*;
use vstd::string::*;
use vstd::utf8::encode_utf8;

use crate::error::ContextCutterError;
use crate::json::json_text;
use crate::text::{chars_to_string, hex_lower, hex_lower_exec, str_to_chars};

use crate::json::{
    JsonValue, JsonView, distinct_keys, entries_view, items_view, items_wf, json_view, lemma_entries_view,
    lemma_items_view, lemma_items_wf, lemma_members_wf, members_wf, wf,
};

verus! {

/// One object member in the view.
pub type Member = (Seq<char>, JsonView);

/// Lexicographic order on keys, by code point. On UTF-8 text this is the byte
/// order in which `String`'s `Ord` compares.
pub open spec fn key_lt(a: Seq<char>, b: Seq<char>) -> bool
    decreases a.len(),
{
    if a.len() == 0 {
        b.len() > 0
    } else if b.len() == 0 {
        false
    } else if a[0] != b[0] {
        a[0] < b[0]
    } else {
        key_lt(a.drop_first(), b.drop_first())
    }
}

pub proof fn lemma_key_lt_irreflexive(a: Seq<char>)
    ensures
        !key_lt(a, a),
    decreases a.len(),
{
    if a.len() > 0 {
        lemma_key_lt_irreflexive(a.drop_first());
    }
}

pub proof fn lemma_key_lt_transitive(a: Seq<char>, b: Seq<char>, c: Seq<char>)
    requires
        key_lt(a, b),
        key_lt(b, c),
    ensures
        key_lt(a, c),
    decreases a.len(),
{
    if a.len() > 0 && b.len() > 0 && c.len() > 0 {
        if a[0] == b[0] && b[0] == c[0] {
            lemma_key_lt_transitive(a.drop_first(), b.drop_first(), c.drop_first());
        }
    }
}

pub proof fn lemma_key_lt_total(a: Seq<char>, b: Seq<char>)
    ensures
        a == b || key_lt(a, b) || key_lt(b, a),
    decreases a.len(),
{
    if a.len() > 0 && b.len() > 0 {
        if a[0] == b[0] {
            lemma_key_lt_total(a.drop_first(), b.drop_first());
            if a.drop_first() == b.drop_first() {
                assert(a =~= seq![a[0]] + a.drop_first());
                assert(b =~= seq![b[0]] + b.drop_first());
            }
        } else {
        }
    } else if a.len() == 0 && b.len() == 0 {
        assert(a =~= b);
    }
}

pub proof fn lemma_key_lt_asymmetric(a: Seq<char>, b: Seq<char>)
    requires
        key_lt(a, b),
    ensures
        !key_lt(b, a),
{
    if key_lt(b, a) {
        lemma_key_lt_transitive(a, b, a);
        lemma_key_lt_irreflexive(a);
    }
}

/// Members listed in strictly increasing key order.
pub open spec fn sorted_by_key(s: Seq<Member>) -> bool {
    forall|i: int, j: int| 0 <= i < j < s.len() ==> key_lt(#[trigger] s[i].0, #[trigger] s[j].0)
}

/// No key occurs twice.
pub open spec fn keys_distinct(s: Seq<Member>) -> bool {
    forall|i: int, j: int| 0 <= i < j < s.len() ==> #[trigger] s[i].0 != #[trigger] s[j].0
}

/// Two listings hold the same members.
pub open spec fn same_members(s: Seq<Member>, t: Seq<Member>) -> bool {
    forall|m: Member| s.contains(m) <==> t.contains(m)
}

/// Inserts `m` in front of the first member with a greater key.
pub open spec fn insert_by_key(s: Seq<Member>, m: Member) -> Seq<Member>
    decreases s.len(),
{
    if s.len() == 0 {
        seq![m]
    } else if key_lt(m.0, s[0].0) {
        seq![m] + s
    } else {
        seq![s[0]] + insert_by_key(s.drop_first(), m)
    }
}

/// The members of `s` listed by increasing key.
pub open spec fn sort_by_key(s: Seq<Member>) -> Seq<Member>
    decreases s.len(),
{
    if s.len() == 0 {
        Seq::empty()
    } else {
        insert_by_key(sort_by_key(s.drop_last()), s.last())
    }
}

proof fn lemma_insert_by_key(s: Seq<Member>, m: Member)
    requires
        sorted_by_key(s),
        forall|i: int| 0 <= i < s.len() ==> s[i].0 != m.0,
    ensures
        sorted_by_key(insert_by_key(s, m)),
        insert_by_key(s, m).len() == s.len() + 1,
        forall|x: Member| #[trigger] insert_by_key(s, m).contains(x) <==> (s.contains(x) || x == m),
    decreases s.len(),
{
    let r = insert_by_key(s, m);
    if s.len() == 0 {
        assert forall|x: Member| #[trigger] r.contains(x) <==> (s.contains(x) || x == m) by {
            if r.contains(x) {
                assert(r[0] == x);
            }
            if x == m {
                assert(r[0] == m);
            }
        }
    } else if key_lt(m.0, s[0].0) {
        assert forall|i: int, j: int| 0 <= i < j < r.len() implies key_lt(#[trigger] r[i].0, #[trigger] r[j].0) by {
            if i == 0 {
                assert(r[j] == s[j - 1]);
                if j - 1 > 0 {
                    lemma_key_lt_transitive(m.0, s[0].0, s[j - 1].0);
                }
            } else {
                assert(r[i] == s[i - 1]);
                assert(r[j] == s[j - 1]);
            }
        }
        assert forall|x: Member| #[trigger] r.contains(x) <==> (s.contains(x) || x == m) by {
            if r.contains(x) {
                let k = choose|k: int| 0 <= k < r.len() && r[k] == x;
                if k > 0 {
                    assert(s[k - 1] == x);
                }
            }
            if s.contains(x) {
                let k = choose|k: int| 0 <= k < s.len() && s[k] == x;
                assert(r[k + 1] == x);
            }
            if x == m {
                assert(r[0] == m);
            }
        }
    } else {
        let t = s.drop_first();
        assert(sorted_by_key(t)) by {
            assert forall|i: int, j: int| 0 <= i < j < t.len() implies key_lt(#[trigger] t[i].0, #[trigger] t[j].0) by {
                assert(t[i] == s[i + 1]);
                assert(t[j] == s[j + 1]);
            }
        }
        lemma_insert_by_key(t, m);
        let rt = insert_by_key(t, m);
        assert(r == seq![s[0]] + rt);
        lemma_key_lt_total(m.0, s[0].0);
        assert(key_lt(s[0].0, m.0));
        assert forall|i: int, j: int| 0 <= i < j < r.len() implies key_lt(#[trigger] r[i].0, #[trigger] r[j].0) by {
            if i == 0 {
                assert(r[j] == rt[j - 1]);
                assert(rt.contains(rt[j - 1]));
                if rt[j - 1] != m {
                    assert(t.contains(rt[j - 1]));
                    let k = choose|k: int| 0 <= k < t.len() && t[k] == rt[j - 1];
                    assert(s[k + 1] == t[k]);
                }
            } else {
                assert(r[i] == rt[i - 1]);
                assert(r[j] == rt[j - 1]);
            }
        }
        assert forall|x: Member| #[trigger] r.contains(x) <==> (s.contains(x) || x == m) by {
            if r.contains(x) {
                let k = choose|k: int| 0 <= k < r.len() && r[k] == x;
                if k > 0 {
                    assert(rt[k - 1] == x);
                    assert(rt.contains(x));
                    if t.contains(x) {
                        let q = choose|q: int| 0 <= q < t.len() && t[q] == x;
                        assert(s[q + 1] == x);
                    }
                } else {
                    assert(s[0] == x);
                }
            }
            if s.contains(x) {
                let k = choose|k: int| 0 <= k < s.len() && s[k] == x;
                if k == 0 {
                    assert(r[0] == x);
                } else {
                    assert(t[k - 1] == x);
                    assert(t.contains(x));
                    assert(rt.contains(x));
                    let q = choose|q: int| 0 <= q < rt.len() && rt[q] == x;
                    assert(r[q + 1] == x);
                }
            }
            if x == m {
                assert(rt.contains(m));
                let q = choose|q: int| 0 <= q < rt.len() && rt[q] == m;
                assert(r[q + 1] == m);
            }
        }
    }
}

/// Sorting members with distinct keys lists each of them once, in increasing key order.
pub proof fn lemma_sort_by_key(s: Seq<Member>)
    requires
        keys_distinct(s),
    ensures
        sorted_by_key(sort_by_key(s)),
        sort_by_key(s).len() == s.len(),
        same_members(sort_by_key(s), s),
    decreases s.len(),
{
    if s.len() > 0 {
        let p = s.drop_last();
        assert(keys_distinct(p)) by {
            assert forall|i: int, j: int| 0 <= i < j < p.len() implies #[trigger] p[i].0 != #[trigger] p[j].0 by {
                assert(p[i] == s[i]);
                assert(p[j] == s[j]);
            }
        }
        lemma_sort_by_key(p);
        let sp = sort_by_key(p);
        assert forall|i: int| 0 <= i < sp.len() implies sp[i].0 != s.last().0 by {
            assert(sp.contains(sp[i]));
            assert(p.contains(sp[i]));
            let k = choose|k: int| 0 <= k < p.len() && p[k] == sp[i];
            assert(s[k] == sp[i]);
        }
        lemma_insert_by_key(sp, s.last());
        assert forall|m: Member| sort_by_key(s).contains(m) <==> s.contains(m) by {
            if s.contains(m) {
                let k = choose|k: int| 0 <= k < s.len() && s[k] == m;
                if k < s.len() - 1 {
                    assert(p[k] == m);
                    assert(p.contains(m));
                }
            }
            if p.contains(m) {
                let k = choose|k: int| 0 <= k < p.len() && p[k] == m;
                assert(s[k] == m);
            }
        }
    }
}

/// Two listings in strictly increasing key order that hold the same members are equal.
pub proof fn lemma_sorted_unique(s: Seq<Member>, t: Seq<Member>)
    requires
        sorted_by_key(s),
        sorted_by_key(t),
        same_members(s, t),
    ensures
        s == t,
    decreases s.len(),
{
    if s.len() == 0 {
        if t.len() > 0 {
            assert(t.contains(t[0]));
        }
        assert(s =~= t);
    } else {
        assert(s.contains(s[0]));
        assert(t.contains(s[0]));
        let j = choose|j: int| 0 <= j < t.len() && t[j] == s[0];
        assert(t.contains(t[0]));
        assert(s.contains(t[0]));
        let i = choose|i: int| 0 <= i < s.len() && s[i] == t[0];
        if j > 0 {
            assert(key_lt(t[0].0, t[j].0));
            if i > 0 {
                assert(key_lt(s[0].0, s[i].0));
                lemma_key_lt_asymmetric(t[0].0, s[0].0);
            } else {
                lemma_key_lt_irreflexive(s[0].0);
            }
        }
        assert(t[0] == s[0]);
        let s1 = s.drop_first();
        let t1 = t.drop_first();
        assert(sorted_by_key(s1)) by {
            assert forall|a: int, b: int| 0 <= a < b < s1.len() implies key_lt(#[trigger] s1[a].0, #[trigger] s1[b].0) by {
                assert(s1[a] == s[a + 1]);
                assert(s1[b] == s[b + 1]);
            }
        }
        assert(sorted_by_key(t1)) by {
            assert forall|a: int, b: int| 0 <= a < b < t1.len() implies key_lt(#[trigger] t1[a].0, #[trigger] t1[b].0) by {
                assert(t1[a] == t[a + 1]);
                assert(t1[b] == t[b + 1]);
            }
        }
        assert forall|m: Member| s1.contains(m) <==> t1.contains(m) by {
            if s1.contains(m) {
                let a = choose|a: int| 0 <= a < s1.len() && s1[a] == m;
                assert(s[a + 1] == m);
                assert(s.contains(m));
                assert(t.contains(m));
                let b = choose|b: int| 0 <= b < t.len() && t[b] == m;
                if b == 0 {
                    assert(key_lt(s[0].0, s[a + 1].0));
                    lemma_key_lt_irreflexive(m.0);
                }
                assert(t1[b - 1] == m);
            }
            if t1.contains(m) {
                let a = choose|a: int| 0 <= a < t1.len() && t1[a] == m;
                assert(t[a + 1] == m);
                assert(t.contains(m));
                assert(s.contains(m));
                let b = choose|b: int| 0 <= b < s.len() && s[b] == m;
                if b == 0 {
                    assert(key_lt(t[0].0, t[a + 1].0));
                    lemma_key_lt_irreflexive(m.0);
                }
                assert(s1[b - 1] == m);
            }
        }
        lemma_sorted_unique(s1, t1);
        assert(s =~= seq![s[0]] + s1);
        assert(t =~= seq![t[0]] + t1);
    }
}


/// The canonical form of a value: every object lists its members by increasing
/// key, at every depth; everything else is kept.
pub open spec fn canon(v: JsonView) -> JsonView
    decreases v, 0nat,
{
    match v {
        JsonView::Array(s) => JsonView::Array(canon_items(s)),
        JsonView::Object(e) => JsonView::Object(sort_by_key(canon_members(e))),
        _ => v,
    }
}

pub open spec fn canon_items(s: Seq<JsonView>) -> Seq<JsonView>
    decreases s, 1nat,
{
    if s.len() == 0 {
        Seq::empty()
    } else {
        canon_items(s.drop_last()).push(canon(s.last()))
    }
}

pub open spec fn canon_members(s: Seq<Member>) -> Seq<Member>
    decreases s, 1nat,
{
    if s.len() == 0 {
        Seq::empty()
    } else {
        canon_members(s.drop_last()).push((s.last().0, canon(s.last().1)))
    }
}

pub proof fn lemma_canon_items(s: Seq<JsonView>)
    ensures
        canon_items(s).len() == s.len(),
        forall|i: int| 0 <= i < s.len() ==> #[trigger] canon_items(s)[i] == canon(s[i]),
    decreases s.len(),
{
    if s.len() > 0 {
        lemma_canon_items(s.drop_last());
    }
}

pub proof fn lemma_canon_members(s: Seq<Member>)
    ensures
        canon_members(s).len() == s.len(),
        forall|i: int|
            0 <= i < s.len() ==> #[trigger] canon_members(s)[i] == (s[i].0, canon(s[i].1)),
    decreases s.len(),
{
    if s.len() > 0 {
        lemma_canon_members(s.drop_last());
    }
}

/// `a` and `b` are the same document up to the order in which objects list their
/// members, at every depth.
pub open spec fn same_up_to_key_order(a: JsonView, b: JsonView) -> bool
    decreases a, 1nat,
{
    match a {
        JsonView::Array(x) => match b {
            JsonView::Array(y) => x.len() == y.len() && forall|i: int|
                0 <= i < x.len() ==> same_up_to_key_order(#[trigger] x[i], y[i]),
            _ => false,
        },
        JsonView::Object(x) => match b {
            JsonView::Object(y) => x.len() == y.len() && forall|i: int|
                0 <= i < x.len() ==> has_counterpart(#[trigger] x[i], y),
            _ => false,
        },
        _ => a == b,
    }
}

/// `y` holds a member with the key of `m` and the same document up to key order.
pub open spec fn has_counterpart(m: Member, y: Seq<Member>) -> bool
    decreases m, 0nat,
{
    exists|j: int| 0 <= j < y.len() && y[j].0 == m.0 && same_up_to_key_order(m.1, #[trigger] y[j].1)
}

proof fn lemma_canon_members_keys(s: Seq<Member>)
    requires
        distinct_keys(s),
    ensures
        keys_distinct(canon_members(s)),
{
    lemma_canon_members(s);
    let c = canon_members(s);
    assert forall|i: int, j: int| 0 <= i < j < c.len() implies #[trigger] c[i].0 != #[trigger] c[j].0 by {
        assert(c[i].0 == s[i].0);
        assert(c[j].0 == s[j].0);
    }
}

proof fn lemma_sort_same_members(cx: Seq<Member>, cy: Seq<Member>)
    requires
        keys_distinct(cx),
        keys_distinct(cy),
        same_members(cx, cy),
    ensures
        sort_by_key(cx) == sort_by_key(cy),
{
    lemma_sort_by_key(cx);
    lemma_sort_by_key(cy);
    let sx = sort_by_key(cx);
    let sy = sort_by_key(cy);
    assert forall|m: Member| sx.contains(m) <==> sy.contains(m) by {
        assert(sx.contains(m) <==> cx.contains(m));
        assert(sy.contains(m) <==> cy.contains(m));
        assert(cx.contains(m) <==> cy.contains(m));
    }
    lemma_sorted_unique(sx, sy);
}

proof fn lemma_distinct_no_dup(s: Seq<Member>)
    requires
        keys_distinct(s),
    ensures
        s.no_duplicates(),
{
    assert forall|i: int, j: int| 0 <= i < s.len() && 0 <= j < s.len() && i != j implies s[i] != s[j] by {
        if i < j {
            assert(s[i].0 != s[j].0);
        } else {
            assert(s[j].0 != s[i].0);
        }
    }
}

/// Two duplicate-free listings of equal length, the first contained in the second,
/// hold the same members.
proof fn lemma_same_members_by_count(cx: Seq<Member>, cy: Seq<Member>)
    requires
        keys_distinct(cx),
        keys_distinct(cy),
        cx.len() == cy.len(),
        forall|m: Member| cx.contains(m) ==> cy.contains(m),
    ensures
        same_members(cx, cy),
{
    broadcast use vstd::set::group_set_axioms, vstd::seq_lib::seq_to_set_is_finite;

    lemma_distinct_no_dup(cx);
    lemma_distinct_no_dup(cy);
    cx.unique_seq_to_set();
    cy.unique_seq_to_set();
    let sx = cx.to_set();
    let sy = cy.to_set();
    assert(sx.subset_of(sy)) by {
        assert forall|m: Member| sx.contains(m) implies sy.contains(m) by {
            assert(cx.contains(m));
        }
    }
    assert forall|m: Member| cy.contains(m) implies cx.contains(m) by {
        assert(sy.contains(m));
        if !cx.contains(m) {
            assert(!sx.contains(m));
            sx.lemma_subset_not_in_lt(sy, m);
        }
    }
}

/// Law: documents that differ only in the order of object members have the same
/// canonical form.
pub proof fn law_canon_ignores_key_order(a: JsonView, b: JsonView)
    requires
        wf(a),
        wf(b),
        same_up_to_key_order(a, b),
    ensures
        canon(a) == canon(b),
    decreases a, 2nat,
{
    match a {
        JsonView::Array(x) => {
            law_items_ignore_key_order(x, b->Array_0);
        },
        JsonView::Object(x) => {
            let y = b->Object_0;
            assert(b is Object);
            assert(forall|i: int| 0 <= i < x.len() ==> has_counterpart(#[trigger] x[i], y));
            law_members_ignore_key_order(x, y);
        },
        _ => {},
    }
}

proof fn law_items_ignore_key_order(x: Seq<JsonView>, y: Seq<JsonView>)
    requires
        items_wf(x),
        items_wf(y),
        x.len() == y.len(),
        forall|i: int| 0 <= i < x.len() ==> same_up_to_key_order(#[trigger] x[i], y[i]),
    ensures
        canon_items(x) == canon_items(y),
    decreases x, 1nat,
{
    lemma_items_wf(x);
    lemma_items_wf(y);
    lemma_canon_items(x);
    lemma_canon_items(y);
    assert forall|i: int| 0 <= i < x.len() implies canon_items(x)[i] == canon_items(y)[i] by {
        law_canon_ignores_key_order(x[i], y[i]);
    }
    assert(canon_items(x) =~= canon_items(y));
}

proof fn law_members_ignore_key_order(x: Seq<Member>, y: Seq<Member>)
    requires
        distinct_keys(x),
        distinct_keys(y),
        members_wf(x),
        members_wf(y),
        x.len() == y.len(),
        forall|i: int| 0 <= i < x.len() ==> has_counterpart(#[trigger] x[i], y),
    ensures
        sort_by_key(canon_members(x)) == sort_by_key(canon_members(y)),
    decreases x, 1nat,
{
    lemma_members_wf(x);
    lemma_members_wf(y);
    lemma_canon_members(x);
    lemma_canon_members(y);
    lemma_canon_members_keys(x);
    lemma_canon_members_keys(y);
    let cx = canon_members(x);
    let cy = canon_members(y);
    assert forall|m: Member| cx.contains(m) implies cy.contains(m) by {
        let i = choose|i: int| 0 <= i < cx.len() && cx[i] == m;
        assert(has_counterpart(x[i], y));
        let j = choose|j: int|
            0 <= j < y.len() && y[j].0 == x[i].0 && same_up_to_key_order(x[i].1, #[trigger] y[j].1);
        assert(wf(x[i].1));
        assert(wf(y[j].1));
        law_canon_ignores_key_order(x[i].1, y[j].1);
        assert(cy[j] == m);
    }
    lemma_same_members_by_count(cx, cy);
    lemma_sort_same_members(cx, cy);
}

/// Every object, at every depth, lists its members in strictly increasing key order.
pub open spec fn sorted_deep(v: JsonView) -> bool
    decreases v,
{
    match v {
        JsonView::Array(s) => forall|i: int| 0 <= i < s.len() ==> sorted_deep(#[trigger] s[i]),
        JsonView::Object(e) => sorted_by_key(e) && forall|i: int| 0 <= i < e.len() ==> sorted_deep(#[trigger] e[i].1),
        _ => true,
    }
}

proof fn lemma_sorted_keys_distinct(s: Seq<Member>)
    requires
        sorted_by_key(s),
    ensures
        distinct_keys(s),
{
    assert forall|i: int, j: int| 0 <= i < j < s.len() implies #[trigger] s[i].0 != #[trigger] s[j].0 by {
        if s[i].0 == s[j].0 {
            lemma_key_lt_irreflexive(s[i].0);
        }
    }
}

proof fn lemma_canon_props(v: JsonView)
    requires
        wf(v),
    ensures
        wf(canon(v)),
        sorted_deep(canon(v)),
        same_up_to_key_order(canon(v), v),
    decreases v,
{
    match v {
        JsonView::Array(x) => {
            lemma_items_wf(x);
            lemma_canon_items(x);
            let c = canon_items(x);
            assert forall|i: int| 0 <= i < c.len() implies wf(#[trigger] c[i]) && sorted_deep(c[i])
                && same_up_to_key_order(c[i], x[i]) by {
                assert(decreases_to!(v => x));
                assert(decreases_to!(x => x[i]));
                lemma_canon_props(x[i]);
            }
            lemma_items_wf(c);
            assert(canon(v) == JsonView::Array(c));
            assert(c.len() == x.len());
            assert(forall|i: int| 0 <= i < c.len() ==> same_up_to_key_order(#[trigger] c[i], x[i]));
        },
        JsonView::Object(e) => {
            lemma_members_wf(e);
            lemma_canon_members(e);
            lemma_canon_members_keys(e);
            let cm = canon_members(e);
            lemma_sort_by_key(cm);
            let st = sort_by_key(cm);
            assert forall|i: int| #![trigger st[i]] 0 <= i < st.len() implies wf(st[i].1) && sorted_deep(st[i].1)
                && has_counterpart(st[i], e) by {
                assert(st.contains(st[i]));
                assert(cm.contains(st[i]));
                let k = choose|k: int| 0 <= k < cm.len() && cm[k] == st[i];
                assert(decreases_to!(v => e));
                assert(decreases_to!(e => e[k]));
                assert(decreases_to!(e[k] => e[k].1));
                lemma_canon_props(e[k].1);
                assert(st[i].1 == canon(e[k].1));
                assert(same_up_to_key_order(st[i].1, e[k].1));
            }
            lemma_sorted_keys_distinct(st);
            lemma_members_wf(st);
        },
        _ => {},
    }
}

/// Law: the canonical form lists the members of every object, at every depth, in
/// increasing key order, holds the same document up to that order, and is its own
/// canonical form.
pub proof fn law_canon_idempotent(v: JsonView)
    requires
        wf(v),
    ensures
        sorted_deep(canon(v)),
        same_up_to_key_order(canon(v), v),
        canon(canon(v)) == canon(v),
{
    lemma_canon_props(v);
    law_canon_ignores_key_order(canon(v), v);
}

/// Whether `a` sorts before `b` as `String`'s order does.
pub fn key_less(a: &str, b: &str) -> (r: bool)
    ensures
        r == key_lt(a@, b@),
{
    let x = str_to_chars(a);
    let y = str_to_chars(b);
    let mut i: usize = 0;
    assert(x@.skip(0) =~= x@);
    assert(y@.skip(0) =~= y@);
    while i < x.len() && i < y.len()
        invariant
            x@ == a@,
            y@ == b@,
            i <= x@.len(),
            i <= y@.len(),
            key_lt(a@, b@) == key_lt(x@.skip(i as int), y@.skip(i as int)),
        decreases x@.len() - i,
    {
        if x[i] != y[i] {
            assert(x@.skip(i as int)[0] == x@[i as int]);
            assert(y@.skip(i as int)[0] == y@[i as int]);
            return x[i] < y[i];
        }
        assert(x@.skip(i as int).drop_first() =~= x@.skip(i + 1));
        assert(y@.skip(i as int).drop_first() =~= y@.skip(i + 1));
        i += 1;
    }
    i < y.len()
}

/// Where member `m` goes in the key-sorted `r`: the first position holding a greater key.
fn insertion_point(r: &Vec<(String, JsonValue)>, key: &String) -> (p: usize)
    ensures
        p <= r@.len(),
        forall|k: int| 0 <= k < p ==> !key_lt(key@, #[trigger] r@[k].0@),
        p < r@.len() ==> key_lt(key@, r@[p as int].0@),
{
    let mut j: usize = 0;
    while j < r.len()
        invariant
            j <= r@.len(),
            forall|k: int| 0 <= k < j ==> !key_lt(key@, #[trigger] r@[k].0@),
        decreases r@.len() - j,
    {
        if key_less(key.as_str(), r[j].0.as_str()) {
            return j;
        }
        j += 1;
    }
    j
}

/// Inserts a member into a key-sorted listing that does not hold its key yet,
/// keeping the listing sorted.
pub fn insert_member_sorted(out: &mut Vec<(String, JsonValue)>, key: String, val: JsonValue)
    requires
        sorted_by_key(entries_view(old(out)@)),
        forall|k: int| 0 <= k < old(out)@.len() ==> #[trigger] old(out)@[k].0@ != key@,
    ensures
        final(out)@.len() == old(out)@.len() + 1,
        sorted_by_key(entries_view(final(out)@)),
        forall|y: Member|
            #[trigger] entries_view(final(out)@).contains(y) <==> (entries_view(old(out)@).contains(y)
                || y == (key@, val@)),
{
    let ghost before = entries_view(out@);
    let ghost m: Member = (key@, val@);
    proof {
        lemma_entries_view(out@);
        assert forall|k: int| 0 <= k < before.len() implies #[trigger] before[k].0 != m.0 by {
            assert(before[k].0 == out@[k].0@);
        }
    }
    let p = insertion_point(out, &key);
    out.insert(p, (key, val));
    proof {
        lemma_entries_view(out@);
        let after = entries_view(out@);
        assert(after =~= before.insert(p as int, m)) by {
            lemma_entries_view_insert(out@, p as int, before, m);
        }
        assert forall|a: int, b: int| 0 <= a < b < after.len() implies key_lt(#[trigger] after[a].0, #[trigger] after[b].0) by {
            lemma_insert_keeps_order(before, m, p as int, a, b);
        }
        assert forall|y: Member| #[trigger] after.contains(y) <==> (before.contains(y) || y == m) by {
            lemma_insert_members(before, m, p as int, y);
        }
    }
}

/// The canonical form of `v`: object members sorted by key at every depth.
#[verifier::loop_isolation(false)]
pub fn canonicalize_json_value(v: &JsonValue) -> (r: JsonValue)
    requires
        wf(v@),
    ensures
        r@ == canon(v@),
    decreases v,
{
    match v {
        JsonValue::Array(items) => {
            let ghost x = items_view(items@);
            proof {
                lemma_items_view(items@);
                lemma_items_wf(x);
                lemma_canon_items(x);
            }
            let mut out: Vec<JsonValue> = Vec::new();
            let mut i: usize = 0;
            while i < items.len()
                invariant
                    i <= items@.len(),
                    out@.len() == i,
                    forall|k: int| 0 <= k < i ==> #[trigger] json_view(out@[k]) == canon(x[k]),
                decreases items@.len() - i,
            {
                proof {
                    assert(decreases_to!(*items => items@));
                    assert(decreases_to!(items@ => items@[i as int]));
                    assert(x[i as int] == json_view(items@[i as int]));
                }
                let c = canonicalize_json_value(&items[i]);
                out.push(c);
                i += 1;
            }
            proof {
                lemma_items_view(out@);
                assert(items_view(out@) =~= canon_items(x));
            }
            JsonValue::Array(out)
        },
        JsonValue::Object(entries) => {
            let ghost e = entries_view(entries@);
            let ghost cm = canon_members(e);
            proof {
                lemma_entries_view(entries@);
                lemma_members_wf(e);
                lemma_canon_members(e);
                lemma_canon_members_keys(e);
                assert(v@ == JsonView::Object(e));
                assert(members_wf(e));
            }
            let mut out: Vec<(String, JsonValue)> = Vec::new();
            let mut i: usize = 0;
            while i < entries.len()
                invariant
                    i <= entries@.len(),
                    out@.len() == i,
                    sorted_by_key(entries_view(out@)),
                    same_members(entries_view(out@), cm.take(i as int)),
                decreases entries@.len() - i,
            {
                proof {
                    assert(decreases_to!(*entries => entries@));
                    assert(decreases_to!(entries@ => entries@[i as int]));
                    assert(decreases_to!(entries@[i as int] => entries@[i as int].1));
                    assert(e[i as int] == (entries@[i as int].0@, json_view(entries@[i as int].1)));
                    assert(wf(e[i as int].1));
                }
                let c = canonicalize_json_value(&entries[i].1);
                let key = entries[i].0.clone();
                let ghost before = entries_view(out@);
                let ghost m: Member = (key@, c@);
                assert(m == cm[i as int]);
                proof {
                    let ti = cm.take(i as int);
                    assert forall|k: int| 0 <= k < before.len() implies #[trigger] before[k].0 != m.0 by {
                        assert(before.contains(before[k]));
                        assert(ti.contains(before[k]));
                        let q = choose|q: int| 0 <= q < ti.len() && ti[q] == before[k];
                        assert(cm[q] == before[k]);
                    }
                    lemma_entries_view(out@);
                    assert forall|k: int| 0 <= k < out@.len() implies #[trigger] out@[k].0@ != key@ by {
                        assert(before[k].0 == out@[k].0@);
                    }
                }
                insert_member_sorted(&mut out, key, c);
                proof {
                    let after = entries_view(out@);
                    let ti = cm.take(i as int);
                    let ti1 = cm.take(i + 1);
                    assert forall|y: Member| after.contains(y) <==> ti1.contains(y) by {
                        if ti1.contains(y) {
                            let q = choose|q: int| 0 <= q < ti1.len() && ti1[q] == y;
                            if q < i {
                                assert(ti[q] == y);
                            }
                        }
                        if ti.contains(y) {
                            let q = choose|q: int| 0 <= q < ti.len() && ti[q] == y;
                            assert(ti1[q] == y);
                        }
                        if y == m {
                            assert(ti1[i as int] == y);
                        }
                    }
                }
                i += 1;
            }
            proof {
                assert(cm.take(entries@.len() as int) =~= cm);
                lemma_sort_by_key(cm);
                let sv = entries_view(out@);
                assert forall|y: Member| sv.contains(y) <==> sort_by_key(cm).contains(y) by {
                    assert(sort_by_key(cm).contains(y) <==> cm.contains(y));
                }
                lemma_sorted_unique(sv, sort_by_key(cm));
            }
            JsonValue::Object(out)
        },
        JsonValue::Null => JsonValue::Null,
        JsonValue::Bool(b) => JsonValue::Bool(*b),
        JsonValue::Number(n) => JsonValue::Number(n.duplicate()),
        JsonValue::Str(s) => JsonValue::Str(s.clone()),
    }
}

proof fn lemma_entries_view_insert(s: Seq<(String, JsonValue)>, p: int, before: Seq<Member>, m: Member)
    requires
        0 <= p < s.len(),
        entries_view(s).len() == s.len(),
        before.len() + 1 == s.len(),
        forall|k: int| 0 <= k < p ==> #[trigger] entries_view(s)[k] == before[k],
        entries_view(s)[p] == m,
        forall|k: int| p < k < s.len() ==> #[trigger] entries_view(s)[k] == before[k - 1],
    ensures
        entries_view(s) =~= before.insert(p, m),
{
}

proof fn lemma_insert_keeps_order(before: Seq<Member>, m: Member, p: int, a: int, b: int)
    requires
        sorted_by_key(before),
        0 <= p <= before.len(),
        forall|k: int| 0 <= k < p ==> !key_lt(m.0, #[trigger] before[k].0),
        p < before.len() ==> key_lt(m.0, before[p].0),
        forall|k: int| 0 <= k < before.len() ==> #[trigger] before[k].0 != m.0,
        0 <= a < b < before.len() + 1,
    ensures
        key_lt(before.insert(p, m)[a].0, before.insert(p, m)[b].0),
{
    let after = before.insert(p, m);
    if a < p && b < p {
    } else if a < p && b == p {
        lemma_key_lt_total(m.0, before[a].0);
    } else if a < p && b > p {
    } else if a == p {
        if b - 1 > p {
            lemma_key_lt_transitive(m.0, before[p].0, before[b - 1].0);
        }
    } else {
    }
}

proof fn lemma_insert_members(before: Seq<Member>, m: Member, p: int, y: Member)
    requires
        0 <= p <= before.len(),
    ensures
        before.insert(p, m).contains(y) <==> (before.contains(y) || y == m),
{
    let after = before.insert(p, m);
    if after.contains(y) {
        let k = choose|k: int| 0 <= k < after.len() && after[k] == y;
        if k < p {
            assert(before[k] == y);
        } else if k > p {
            assert(before[k - 1] == y);
        }
    }
    if before.contains(y) {
        let k = choose|k: int| 0 <= k < before.len() && before[k] == y;
        if k < p {
            assert(after[k] == y);
        } else {
            assert(after[k + 1] == y);
        }
    }
    if y == m {
        assert(after[p] == y);
    }
}


/// The SHA-256 digest of `data`.
pub uninterp spec fn sha256(data: Seq<u8>) -> Seq<u8>;

/// Trusted: calls `sha2::Sha256::digest`. The contract claims that the result is
/// the SHA-256 digest of the input bytes (named `sha256`), 32 bytes long.
#[verifier::external_body]
pub(crate) fn sha256_digest(data: &[u8]) -> (r: Vec<u8>)
    ensures
        r@ == sha256(data@),
        r@.len() == 32,
{
    sha2::Sha256::digest(data).to_vec()
}

/// Two lower-case hexadecimal digits per byte.
pub open spec fn hex_bytes(b: Seq<u8>) -> Seq<char>
    decreases b.len(),
{
    if b.len() == 0 {
        Seq::empty()
    } else {
        hex_bytes(b.drop_last()) + seq![hex_lower((b.last() / 16) as nat), hex_lower((b.last() % 16) as nat)]
    }
}

/// The handle of a document: `hdl_` and the first twelve hexadecimal digits of the
/// SHA-256 digest of the UTF-8 bytes of its canonical compact text.
pub open spec fn handle_id_of(v: JsonView) -> Seq<char> {
    seq!['h', 'd', 'l', '_'] + hex_bytes(sha256(encode_utf8(json_text(canon(v)))).take(6))
}

/// Whether `c` is a lower-case hexadecimal digit.
pub open spec fn is_lower_hex(c: char) -> bool {
    ('0' <= c <= '9') || ('a' <= c <= 'f')
}

proof fn lemma_hex_bytes(b: Seq<u8>)
    ensures
        hex_bytes(b).len() == 2 * b.len(),
        forall|i: int| 0 <= i < hex_bytes(b).len() ==> is_lower_hex(#[trigger] hex_bytes(b)[i]),
    decreases b.len(),
{
    if b.len() > 0 {
        lemma_hex_bytes(b.drop_last());
        let p = hex_bytes(b.drop_last());
        let q = seq![hex_lower((b.last() / 16) as nat), hex_lower((b.last() % 16) as nat)];
        assert forall|i: int| 0 <= i < (p + q).len() implies is_lower_hex(#[trigger] (p + q)[i]) by {
            if i < p.len() {
                assert((p + q)[i] == p[i]);
            } else {
                assert((p + q)[i] == q[i - p.len()]);
            }
        }
    }
}

/// The handle for a SHA-256 digest: `hdl_` and the lower-case hexadecimal digits
/// of its first six bytes.
pub fn handle_from_digest(digest: &[u8]) -> (r: String)
    requires
        digest@.len() >= 6,
    ensures
        r@ == seq!['h', 'd', 'l', '_'] + hex_bytes(digest@.take(6)),
        r@.len() == 16,
        forall|i: int| 4 <= i < 16 ==> is_lower_hex(#[trigger] r@[i]),
{
    let mut out: Vec<char> = Vec::new();
    out.push('h');
    out.push('d');
    out.push('l');
    out.push('_');
    let ghost d = digest@;
    let mut i: usize = 0;
    while i < 6
        invariant
            digest@ == d,
            d.len() >= 6,
            i <= 6,
            out@ == seq!['h', 'd', 'l', '_'] + hex_bytes(d.take(i as int)),
        decreases 6 - i,
    {
        let b = digest[i];
        out.push(hex_lower_exec(b / 16));
        out.push(hex_lower_exec(b % 16));
        assert(d.take(i + 1).drop_last() =~= d.take(i as int));
        i += 1;
        assert(out@ =~= seq!['h', 'd', 'l', '_'] + hex_bytes(d.take(i as int)));
    }
    proof {
        lemma_hex_bytes(d.take(6));
        let hx = hex_bytes(d.take(6));
        assert forall|i: int| 4 <= i < 16 implies is_lower_hex(#[trigger] out@[i]) by {
            assert(out@[i] == hx[i - 4]);
        }
    }
    chars_to_string(&out)
}

/// Returns `hdl_<12 hex>` for a document: deterministic and independent of the
/// order of object members.
pub fn compute_handle_id(value: &JsonValue) -> (r: Result<String, ContextCutterError>)
    requires
        wf(value@),
    ensures
        r matches Ok(h) && h@ == handle_id_of(value@),
        r matches Ok(h) && h@.len() == 16 && h@.take(4) == seq!['h', 'd', 'l', '_'] && (forall|i: int|
            4 <= i < 16 ==> is_lower_hex(#[trigger] h@[i])),
{
    let canonical = canonicalize_json_value(value);
    let text = crate::json::to_json_string(&canonical);
    let digest = sha256_digest(text.as_str().as_bytes());
    let h = handle_from_digest(digest.as_slice());
    assert(h@.take(4) =~= seq!['h', 'd', 'l', '_']);
    Ok(h)
}

/// Law: documents that differ only in the order of object members get the same handle.
pub proof fn law_handle_ignores_key_order(a: JsonView, b: JsonView)
    requires
        wf(a),
        wf(b),
        same_up_to_key_order(a, b),
    ensures
        handle_id_of(a) == handle_id_of(b),
{
    law_canon_ignores_key_order(a, b);
}

/// The members of an object with distinct keys, listed by increasing key.
pub fn sorted_members(entries: &Vec<(String, JsonValue)>) -> (r: Vec<(String, JsonValue)>)
    requires
        distinct_keys(entries_view(entries@)),
    ensures
        entries_view(r@) == sort_by_key(entries_view(entries@)),
{
    let ghost e = entries_view(entries@);
    proof {
        lemma_entries_view(entries@);
    }
    let mut sorted: Vec<(String, JsonValue)> = Vec::new();
    let mut i: usize = 0;
    while i < entries.len()
        invariant
            e == entries_view(entries@),
            e.len() == entries@.len(),
            distinct_keys(e),
            forall|k: int| 0 <= k < entries@.len() ==> #[trigger] e[k] == (entries@[k].0@, json_view(entries@[k].1)),
            i <= entries@.len(),
            sorted@.len() == i,
            sorted_by_key(entries_view(sorted@)),
            same_members(entries_view(sorted@), e.take(i as int)),
        decreases entries@.len() - i,
    {
        let key = entries[i].0.clone();
        let val = entries[i].1.duplicate();
        let ghost before = entries_view(sorted@);
        let ghost m: Member = (key@, val@);
        let ghost ti = e.take(i as int);
        let ghost ti1 = e.take(i + 1);
        proof {
            assert(m == e[i as int]);
            lemma_entries_view(sorted@);
            assert forall|k: int| 0 <= k < sorted@.len() implies #[trigger] sorted@[k].0@ != key@ by {
                assert(before[k].0 == sorted@[k].0@);
                assert(before.contains(before[k]));
                assert(ti.contains(before[k]));
                let q = choose|q: int| 0 <= q < ti.len() && ti[q] == before[k];
                assert(e[q] == before[k]);
                assert(e[q].0 != e[i as int].0);
            }
        }
        insert_member_sorted(&mut sorted, key, val);
        proof {
            let after = entries_view(sorted@);
            assert forall|y: Member| after.contains(y) <==> ti1.contains(y) by {
                if ti1.contains(y) {
                    let q = choose|q: int| 0 <= q < ti1.len() && ti1[q] == y;
                    if q < i {
                        assert(ti[q] == y);
                    }
                }
                if ti.contains(y) {
                    let q = choose|q: int| 0 <= q < ti.len() && ti[q] == y;
                    assert(ti1[q] == y);
                }
                if y == m {
                    assert(ti1[i as int] == y);
                }
            }
        }
        i += 1;
    }
    proof {
        assert(e.take(entries@.len() as int) =~= e);
        assert(keys_distinct(e)) by {
            assert forall|a: int, b: int| 0 <= a < b < e.len() implies #[trigger] e[a].0 != #[trigger] e[b].0 by {}
        }
        lemma_sort_by_key(e);
        let sv = entries_view(sorted@);
        assert forall|y: Member| sv.contains(y) <==> sort_by_key(e).contains(y) by {
            assert(sort_by_key(e).contains(y) <==> e.contains(y));
        }
        lemma_sorted_unique(sv, sort_by_key(e));
    }
    sorted
}

} // verus!
