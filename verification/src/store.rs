//! Bounded in-memory stores of JSON documents: the handle store with idle expiry
//! and least-recently-used eviction, and a plain keyed store.

use std::collections::VecDeque;

use dashmap::DashMap;
use vstd::prelude::*;

use crate::error::ContextCutterError;
use crate::json::{JsonValue, JsonView, json_text, to_json_string, wf};

verus! {

/// `dashmap::DashMap`, a concurrent hash map. Its contents are opaque to Verus and
/// are spoken of through `stored_entries` and `stored_documents`.
#[verifier::external_type_specification]
#[verifier::external_body]
#[verifier::reject_recursive_types(K)]
#[verifier::reject_recursive_types(V)]
#[verifier::reject_recursive_types(S)]
pub struct ExDashMap<K, V, S>(DashMap<K, V, S>);

/// A stored document and the time of its last access.
#[derive(Clone, Debug)]
pub struct StoreEntry {
    pub value: JsonValue,
    pub last_accessed: u128,
}

impl View for StoreEntry {
    type V = (JsonView, u128);

    open spec fn view(&self) -> (JsonView, u128) {
        (self.value@, self.last_accessed)
    }
}

/// What a map of store entries holds, by key.
pub uninterp spec fn stored_entries(m: DashMap<String, StoreEntry>) -> Map<Seq<char>, (JsonView, u128)>;

/// Trusted: calls `DashMap::new`. The contract claims that the new map is empty.
#[verifier::external_body]
fn entries_new() -> (r: DashMap<String, StoreEntry>)
    ensures
        stored_entries(r) =~= Map::empty(),
{
    DashMap::new()
}

/// Trusted: calls `DashMap::insert`. The contract claims that the key now maps to
/// the given entry and nothing else changed.
#[verifier::external_body]
fn entries_insert(m: &mut DashMap<String, StoreEntry>, key: String, entry: StoreEntry)
    ensures
        stored_entries(*final(m)) == stored_entries(*old(m)).insert(key@, entry@),
{
    m.insert(key, entry);
}

/// Trusted: calls `DashMap::get` and clones the entry found. The contract claims that
/// the result is the entry stored under the key, if any.
#[verifier::external_body]
fn entries_get(m: &DashMap<String, StoreEntry>, key: &str) -> (r: Option<StoreEntry>)
    ensures
        match r {
            Some(e) => stored_entries(*m).contains_key(key@) && stored_entries(*m)[key@] == e@,
            None => !stored_entries(*m).contains_key(key@),
        },
{
    m.get(key).map(|e| e.value().clone())
}

/// Trusted: calls `DashMap::remove`. The contract claims that the key no longer maps
/// to anything, nothing else changed, and the result tells whether it did before.
#[verifier::external_body]
fn entries_remove(m: &mut DashMap<String, StoreEntry>, key: &str) -> (r: bool)
    ensures
        stored_entries(*final(m)) == stored_entries(*old(m)).remove(key@),
        r == stored_entries(*old(m)).contains_key(key@),
{
    m.remove(key).is_some()
}

/// Trusted: calls `DashMap::len`. The contract claims that the result is the number
/// of keys.
#[verifier::external_body]
fn entries_len(m: &DashMap<String, StoreEntry>) -> (r: usize)
    requires
        stored_entries(*m).dom().finite(),
    ensures
        r == stored_entries(*m).len(),
{
    m.len()
}

/// Trusted: walks the map with `DashMap::iter`, taking each key with the time of its
/// last access. The contract claims that every key occurs exactly once, with its
/// entry's time; the order is the walk's, which the contract leaves open.
#[verifier::external_body]
fn entries_access_times(m: &DashMap<String, StoreEntry>) -> (r: Vec<(String, u128)>)
    ensures
        forall|i: int|
            0 <= i < r@.len() ==> stored_entries(*m).contains_key(#[trigger] r@[i].0@)
                && stored_entries(*m)[r@[i].0@].1 == r@[i].1,
        forall|i: int, j: int| 0 <= i < j < r@.len() ==> #[trigger] r@[i].0@ != #[trigger] r@[j].0@,
        forall|k: Seq<char>|
            #[trigger] stored_entries(*m).contains_key(k) ==> exists|i: int|
                0 <= i < r@.len() && #[trigger] r@[i].0@ == k,
{
    m.iter().map(|kv| (kv.key().clone(), kv.value().last_accessed)).collect()
}


/// How many documents the handle store keeps, and how long an idle one lives.
#[derive(Clone, Copy, Debug)]
pub struct StoreConfig {
    pub max_handles: usize,
    /// Idle lifetime in nanoseconds.
    pub ttl_nanos: u128,
}

/// The handle store's state: documents by handle with their last access time, the
/// order of recent use (least recent first), and the configuration.
pub struct StoreState {
    pub entries: Map<Seq<char>, (JsonView, u128)>,
    pub order: Seq<Seq<char>>,
    pub max_handles: nat,
    pub ttl: u128,
}

/// Whether an entry last used at `last` has outlived `ttl` at time `now` (the time
/// between them counts as zero when `now` is earlier).
pub open spec fn is_expired_at(last: u128, now: u128, ttl: u128) -> bool {
    (if now >= last { now - last } else { 0 }) > ttl
}

/// `s` without the occurrences of `x`.
pub open spec fn without(s: Seq<Seq<char>>, x: Seq<char>) -> Seq<Seq<char>>
    decreases s.len(),
{
    if s.len() == 0 {
        s
    } else if s.last() == x {
        without(s.drop_last(), x)
    } else {
        without(s.drop_last(), x).push(s.last())
    }
}

/// The use order after `x` was used: `x` moves to the most recent end.
pub open spec fn touched(s: Seq<Seq<char>>, x: Seq<char>) -> Seq<Seq<char>> {
    without(s, x).push(x)
}

/// Eviction: while more documents are held than allowed, the least recently used
/// handle leaves the order and its document, if still held, leaves the store.
pub open spec fn evicted(
    entries: Map<Seq<char>, (JsonView, u128)>,
    order: Seq<Seq<char>>,
    max: nat,
) -> (Map<Seq<char>, (JsonView, u128)>, Seq<Seq<char>>)
    decreases order.len(),
{
    if entries.len() <= max || order.len() == 0 {
        (entries, order)
    } else {
        evicted(entries.remove(order[0]), order.drop_first(), max)
    }
}

/// The state after storing `v` under `id` at time `now`.
pub open spec fn after_insert(st: StoreState, id: Seq<char>, v: JsonView, now: u128) -> StoreState {
    let (e, o) = evicted(st.entries.insert(id, (v, now)), touched(st.order, id), st.max_handles);
    StoreState { entries: e, order: o, ..st }
}

/// The state after looking up `id` at time `now`, and the document found: an expired
/// entry is dropped and not returned; a live one is returned and marked as used now.
pub open spec fn after_get(st: StoreState, id: Seq<char>, now: u128) -> (StoreState, Option<JsonView>) {
    if !st.entries.contains_key(id) {
        (st, None)
    } else if is_expired_at(st.entries[id].1, now, st.ttl) {
        (StoreState { entries: st.entries.remove(id), ..st }, None)
    } else {
        (
            StoreState {
                entries: st.entries.insert(id, (st.entries[id].0, now)),
                order: touched(st.order, id),
                ..st
            },
            Some(st.entries[id].0),
        )
    }
}

/// Whether `k` holds an entry that has expired at `now`.
pub open spec fn dead_at(st: StoreState, k: Seq<char>, now: u128) -> bool {
    st.entries.contains_key(k) && is_expired_at(st.entries[k].1, now, st.ttl)
}

/// `s` without the elements in `gone`, in order.
pub open spec fn without_all(s: Seq<Seq<char>>, gone: Set<Seq<char>>) -> Seq<Seq<char>>
    decreases s.len(),
{
    if s.len() == 0 {
        s
    } else if gone.contains(s.last()) {
        without_all(s.drop_last(), gone)
    } else {
        without_all(s.drop_last(), gone).push(s.last())
    }
}

/// The handles whose entries have expired at `now`.
pub open spec fn dead_set(st: StoreState, now: u128) -> Set<Seq<char>> {
    Set::new(|k: Seq<char>| dead_at(st, k, now))
}

/// The state after sweeping at time `now`: expired entries leave the store and the
/// use order.
pub open spec fn after_sweep(st: StoreState, now: u128) -> StoreState {
    StoreState {
        entries: Map::new(
            |k: Seq<char>| st.entries.contains_key(k) && !dead_at(st, k, now),
            |k: Seq<char>| st.entries[k],
        ),
        order: without_all(st.order, dead_set(st, now)),
        ..st
    }
}

/// The invariant of the handle store: every held handle is in the use order, the
/// order names each handle once, no more documents are held than allowed, and
/// every held document is well formed.
pub open spec fn store_inv(st: StoreState) -> bool {
    &&& st.entries.dom().finite()
    &&& forall|k: Seq<char>| #[trigger] st.entries.contains_key(k) ==> wf(st.entries[k].0)
    &&& forall|k: Seq<char>| #[trigger] st.entries.contains_key(k) ==> st.order.contains(k)
    &&& st.order.no_duplicates()
    &&& st.entries.len() <= st.max_handles
}

pub proof fn lemma_without(s: Seq<Seq<char>>, x: Seq<char>)
    ensures
        forall|y: Seq<char>| #[trigger] without(s, x).contains(y) <==> (s.contains(y) && y != x),
        s.no_duplicates() ==> without(s, x).no_duplicates(),
        !s.contains(x) ==> without(s, x) == s,
    decreases s.len(),
{
    if s.len() > 0 {
        let p = s.drop_last();
        lemma_without(p, x);
        assert forall|y: Seq<char>| #[trigger] without(s, x).contains(y) <==> (s.contains(y) && y != x) by {
            if s.contains(y) {
                let k = choose|k: int| 0 <= k < s.len() && s[k] == y;
                if k < s.len() - 1 {
                    assert(p[k] == y);
                    assert(p.contains(y));
                }
            }
            if p.contains(y) {
                let k = choose|k: int| 0 <= k < p.len() && p[k] == y;
                assert(s[k] == y);
            }
            if without(s, x).contains(y) && s.last() != x {
                let w = without(p, x);
                let k = choose|k: int| 0 <= k < w.push(s.last()).len() && w.push(s.last())[k] == y;
                if k < w.len() {
                    assert(w[k] == y);
                    assert(w.contains(y));
                } else {
                    assert(s[s.len() - 1] == y);
                }
            }
            if s.contains(y) && y != x && s.last() != x {
                let w = without(p, x);
                if y == s.last() {
                    assert(w.push(s.last())[w.len() as int] == y);
                } else {
                    let k = choose|k: int| 0 <= k < s.len() && s[k] == y;
                    assert(p[k] == y);
                    assert(w.contains(y));
                    let q = choose|q: int| 0 <= q < w.len() && w[q] == y;
                    assert(w.push(s.last())[q] == y);
                }
            }
        }
        if s.no_duplicates() {
            assert(p.no_duplicates()) by {
                assert forall|i: int, j: int| 0 <= i < p.len() && 0 <= j < p.len() && i != j implies p[i] != p[j] by {
                    assert(p[i] == s[i]);
                    assert(p[j] == s[j]);
                }
            }
            if s.last() != x {
                let w = without(p, x);
                assert(!p.contains(s.last())) by {
                    if p.contains(s.last()) {
                        let k = choose|k: int| 0 <= k < p.len() && p[k] == s.last();
                        assert(s[k] == s[s.len() - 1]);
                    }
                }
                assert(!w.contains(s.last()));
                assert forall|i: int, j: int| 0 <= i < w.push(s.last()).len() && 0 <= j < w.push(s.last()).len() && i != j implies w.push(s.last())[i] != w.push(s.last())[j] by {
                    if i == w.len() {
                        assert(w.contains(w[j]));
                    } else if j == w.len() {
                        assert(w.contains(w[i]));
                    }
                }
            }
        }
        if !s.contains(x) {
            assert(!p.contains(x)) by {
                if p.contains(x) {
                    let k = choose|k: int| 0 <= k < p.len() && p[k] == x;
                    assert(s[k] == x);
                }
            }
            assert(s.last() != x) by {
                assert(s[s.len() - 1] == s.last());
            }
            assert(s =~= p.push(s.last()));
        }
    }
}

proof fn lemma_without_at(s: Seq<Seq<char>>, x: Seq<char>, j: int)
    requires
        s.no_duplicates(),
        0 <= j < s.len(),
        s[j] == x,
    ensures
        without(s, x) == s.remove(j),
    decreases s.len(),
{
    let p = s.drop_last();
    if j == s.len() - 1 {
        assert(!p.contains(x)) by {
            if p.contains(x) {
                let k = choose|k: int| 0 <= k < p.len() && p[k] == x;
                assert(s[k] == s[j]);
            }
        }
        lemma_without(p, x);
        assert(s.remove(j) =~= p);
    } else {
        assert(p.no_duplicates()) by {
            assert forall|a: int, b: int| 0 <= a < p.len() && 0 <= b < p.len() && a != b implies p[a] != p[b] by {
                assert(p[a] == s[a]);
                assert(p[b] == s[b]);
            }
        }
        lemma_without_at(p, x, j);
        assert(s.last() != x) by {
            assert(s[s.len() - 1] != s[j]);
        }
        assert(s.remove(j) =~= p.remove(j).push(s.last()));
    }
}

proof fn lemma_evicted(
    entries: Map<Seq<char>, (JsonView, u128)>,
    order: Seq<Seq<char>>,
    max: nat,
)
    requires
        entries.dom().finite(),
        forall|k: Seq<char>| #[trigger] entries.contains_key(k) ==> order.contains(k),
        order.no_duplicates(),
    ensures
        ({
            let (e, o) = evicted(entries, order, max);
            &&& e.dom().finite()
            &&& forall|k: Seq<char>| #[trigger] e.contains_key(k) ==> o.contains(k)
            &&& o.no_duplicates()
            &&& e.len() <= max
            &&& forall|k: Seq<char>| #[trigger] e.contains_key(k) ==> entries.contains_key(k) && e[k] == entries[k]
            &&& forall|k: Seq<char>| #[trigger] o.contains(k) ==> order.contains(k)
        }),
    decreases order.len(),
{
    if entries.len() <= max || order.len() == 0 {
        if order.len() == 0 && entries.len() > max {
            assert(entries.dom() =~= Set::<Seq<char>>::empty()) by {
                assert forall|k: Seq<char>| !entries.dom().contains(k) by {
                    if entries.contains_key(k) {
                        assert(order.contains(k));
                    }
                }
            }
        }
    } else {
        let e1 = entries.remove(order[0]);
        let o1 = order.drop_first();
        assert forall|k: Seq<char>| #[trigger] e1.contains_key(k) implies o1.contains(k) by {
            assert(order.contains(k));
            let q = choose|q: int| 0 <= q < order.len() && order[q] == k;
            assert(q != 0);
            assert(o1[q - 1] == k);
        }
        assert(o1.no_duplicates()) by {
            assert forall|a: int, b: int| 0 <= a < o1.len() && 0 <= b < o1.len() && a != b implies o1[a] != o1[b] by {
                assert(o1[a] == order[a + 1]);
                assert(o1[b] == order[b + 1]);
            }
        }
        lemma_evicted(e1, o1, max);
        let (e, o) = evicted(e1, o1, max);
        assert forall|k: Seq<char>| #[trigger] o.contains(k) implies order.contains(k) by {
            assert(o1.contains(k));
            let q = choose|q: int| 0 <= q < o1.len() && o1[q] == k;
            assert(order[q + 1] == k);
        }
    }
}

pub proof fn lemma_without_all(s: Seq<Seq<char>>, gone: Set<Seq<char>>)
    ensures
        forall|y: Seq<char>| #[trigger] without_all(s, gone).contains(y) <==> (s.contains(y) && !gone.contains(y)),
        s.no_duplicates() ==> without_all(s, gone).no_duplicates(),
    decreases s.len(),
{
    if s.len() > 0 {
        let p = s.drop_last();
        lemma_without_all(p, gone);
        let w = without_all(p, gone);
        assert forall|y: Seq<char>| #[trigger] without_all(s, gone).contains(y) implies (s.contains(y) && !gone.contains(y)) by {
            let r = without_all(s, gone);
            let k = choose|k: int| 0 <= k < r.len() && r[k] == y;
            if gone.contains(s.last()) {
                assert(r == w);
                assert(w.contains(y));
                assert(p.contains(y));
                let q = choose|q: int| 0 <= q < p.len() && p[q] == y;
                assert(s[q] == y);
            } else {
                assert(r == w.push(s.last()));
                if k < w.len() {
                    assert(w[k] == y);
                    assert(w.contains(y));
                    assert(p.contains(y));
                    let q = choose|q: int| 0 <= q < p.len() && p[q] == y;
                    assert(s[q] == y);
                } else {
                    assert(s[s.len() - 1] == y);
                }
            }
        }
        assert forall|y: Seq<char>| s.contains(y) && !gone.contains(y) implies #[trigger] without_all(s, gone).contains(y) by {
            let r = without_all(s, gone);
            let k = choose|k: int| 0 <= k < s.len() && s[k] == y;
            if k == s.len() - 1 {
                assert(!gone.contains(s.last()));
                assert(r == w.push(s.last()));
                assert(r[w.len() as int] == y);
            } else {
                assert(p[k] == y);
                assert(p.contains(y));
                assert(w.contains(y));
                let q = choose|q: int| 0 <= q < w.len() && w[q] == y;
                if gone.contains(s.last()) {
                    assert(r == w);
                } else {
                    assert(r == w.push(s.last()));
                    assert(r[q] == y);
                }
            }
        }
        if s.no_duplicates() {
            assert(p.no_duplicates()) by {
                assert forall|i: int, j: int| 0 <= i < p.len() && 0 <= j < p.len() && i != j implies p[i] != p[j] by {
                    assert(p[i] == s[i]);
                    assert(p[j] == s[j]);
                }
            }
            if !gone.contains(s.last()) {
                assert(!p.contains(s.last())) by {
                    if p.contains(s.last()) {
                        let k = choose|k: int| 0 <= k < p.len() && p[k] == s.last();
                        assert(s[k] == s[s.len() - 1]);
                    }
                }
                assert(!w.contains(s.last()));
                assert forall|i: int, j: int| 0 <= i < w.push(s.last()).len() && 0 <= j < w.push(s.last()).len() && i != j implies w.push(s.last())[i] != w.push(s.last())[j] by {
                    if i == w.len() {
                        assert(w.contains(w[j]));
                    } else if j == w.len() {
                        assert(w.contains(w[i]));
                    }
                }
            }
        }
    }
}

proof fn lemma_evicted_keeps_last(
    entries: Map<Seq<char>, (JsonView, u128)>,
    order: Seq<Seq<char>>,
    max: nat,
    k: Seq<char>,
)
    requires
        entries.dom().finite(),
        max >= 1,
        entries.contains_key(k),
        order.len() > 0,
        order.last() == k,
        order.no_duplicates(),
        forall|x: Seq<char>| #[trigger] entries.contains_key(x) ==> order.contains(x),
    ensures
        evicted(entries, order, max).0.contains_key(k),
        evicted(entries, order, max).0[k] == entries[k],
    decreases order.len(),
{
    if entries.len() <= max || order.len() == 0 {
    } else {
        if order[0] == k {
            assert(order.len() == 1) by {
                if order.len() > 1 {
                    assert(order[0] == order[order.len() - 1]);
                }
            }
            assert(entries.dom() =~= set![k]) by {
                assert forall|x: Seq<char>| entries.dom().contains(x) implies x == k by {
                    assert(order.contains(x));
                }
            }
            assert(entries.len() == 1);
        }
        let e1 = entries.remove(order[0]);
        let o1 = order.drop_first();
        assert forall|x: Seq<char>| #[trigger] e1.contains_key(x) implies o1.contains(x) by {
            assert(order.contains(x));
            let q = choose|q: int| 0 <= q < order.len() && order[q] == x;
            assert(q != 0);
            assert(o1[q - 1] == x);
        }
        assert(o1.no_duplicates()) by {
            assert forall|a: int, b: int| 0 <= a < o1.len() && 0 <= b < o1.len() && a != b implies o1[a] != o1[b] by {
                assert(o1[a] == order[a + 1]);
                assert(o1[b] == order[b + 1]);
            }
        }
        lemma_evicted_keeps_last(e1, o1, max, k);
    }
}

/// Law (read after write): a document just stored under a handle is what a lookup
/// of that handle returns, unless it has expired by then, as long as the store
/// may hold at least one document.
pub proof fn law_get_after_insert(st: StoreState, id: Seq<char>, v: JsonView, now: u128, later: u128)
    requires
        store_inv(st),
        st.max_handles >= 1,
        !is_expired_at(now, later, st.ttl),
    ensures
        after_get(after_insert(st, id, v, now), id, later).1 == Some(v),
{
    let e1 = st.entries.insert(id, (v, now));
    let o1 = touched(st.order, id);
    lemma_without(st.order, id);
    let w = without(st.order, id);
    assert forall|x: Seq<char>| #[trigger] e1.contains_key(x) implies o1.contains(x) by {
        if x == id {
            assert(o1[w.len() as int] == x);
        } else {
            assert(st.order.contains(x));
            assert(w.contains(x));
            let q = choose|q: int| 0 <= q < w.len() && w[q] == x;
            assert(o1[q] == x);
        }
    }
    assert(o1.no_duplicates()) by {
        assert(!w.contains(id));
        assert forall|a: int, b: int| 0 <= a < o1.len() && 0 <= b < o1.len() && a != b implies o1[a] != o1[b] by {
            if a == w.len() {
                assert(w.contains(w[b]));
            } else if b == w.len() {
                assert(w.contains(w[a]));
            }
        }
    }
    lemma_evicted_keeps_last(e1, o1, st.max_handles, id);
}

/// Law (read after read): a successful lookup marks the document as used at that
/// time, so a later lookup of the same handle that comes before the document has
/// been idle longer than the TTL since the first lookup returns the same document,
/// however long ago it was stored.
pub proof fn law_get_after_get(st: StoreState, id: Seq<char>, t: u128, later: u128)
    requires
        after_get(st, id, t).1 is Some,
        !is_expired_at(t, later, st.ttl),
    ensures
        after_get(after_get(st, id, t).0, id, later).1 == after_get(st, id, t).1,
        after_get(after_get(st, id, t).0, id, later).0.entries[id].1 == later,
{
}

/// Eviction only drops handles from the least recently used end of the order.
proof fn lemma_evicted_suffix(
    entries: Map<Seq<char>, (JsonView, u128)>,
    order: Seq<Seq<char>>,
    max: nat,
)
    ensures
        exists|j: int| 0 <= j <= order.len() && #[trigger] order.skip(j) == evicted(entries, order, max).1,
    decreases order.len(),
{
    if entries.len() <= max || order.len() == 0 {
        assert(order.skip(0) =~= order);
    } else {
        let o1 = order.drop_first();
        lemma_evicted_suffix(entries.remove(order[0]), o1, max);
        let j = choose|j: int| 0 <= j <= o1.len() && #[trigger] o1.skip(j) == evicted(entries.remove(order[0]), o1, max).1;
        assert(order.skip(j + 1) =~= o1.skip(j));
    }
}

/// Storing keeps the store's invariant.
pub proof fn lemma_after_insert_inv(st: StoreState, id: Seq<char>, v: JsonView, now: u128)
    requires
        store_inv(st),
        wf(v),
    ensures
        store_inv(after_insert(st, id, v, now)),
{
    let e1 = st.entries.insert(id, (v, now));
    let o1 = touched(st.order, id);
    lemma_without(st.order, id);
    let w = without(st.order, id);
    assert forall|k: Seq<char>| #[trigger] e1.contains_key(k) implies o1.contains(k) by {
        if k == id {
            assert(o1[w.len() as int] == k);
        } else {
            assert(st.order.contains(k));
            assert(w.contains(k));
            let q = choose|q: int| 0 <= q < w.len() && w[q] == k;
            assert(o1[q] == k);
        }
    }
    assert(o1.no_duplicates()) by {
        assert(!w.contains(id));
        assert forall|a: int, b: int| 0 <= a < o1.len() && 0 <= b < o1.len() && a != b implies o1[a] != o1[b] by {
            if a == w.len() {
                assert(w.contains(w[b]));
            } else if b == w.len() {
                assert(w.contains(w[a]));
            }
        }
    }
    lemma_evicted(e1, o1, st.max_handles);
    let (e, o) = evicted(e1, o1, st.max_handles);
    assert forall|k: Seq<char>| #[trigger] e.contains_key(k) implies wf(e[k].0) by {
        assert(e1.contains_key(k));
    }
}

/// Law (storing again): storing a document under the handle it was just stored
/// under keeps the same handles in the same order of use, and only renews the
/// access time; so repeated stores of one payload do not grow the store.
pub proof fn law_store_again_keeps_handles(st: StoreState, id: Seq<char>, v: JsonView, t1: u128, t2: u128)
    requires
        store_inv(st),
        wf(v),
        st.max_handles >= 1,
    ensures
        after_insert(after_insert(st, id, v, t1), id, v, t2).entries.dom() == after_insert(st, id, v, t1).entries.dom(),
        after_insert(after_insert(st, id, v, t1), id, v, t2).order == after_insert(st, id, v, t1).order,
        after_insert(after_insert(st, id, v, t1), id, v, t2).entries[id] == (v, t2),
{
    let s1 = after_insert(st, id, v, t1);
    let e1 = st.entries.insert(id, (v, t1));
    let o1 = touched(st.order, id);
    lemma_after_insert_inv(st, id, v, t1);
    lemma_without(st.order, id);
    let w = without(st.order, id);
    assert forall|x: Seq<char>| #[trigger] e1.contains_key(x) implies o1.contains(x) by {
        if x == id {
            assert(o1[w.len() as int] == x);
        } else {
            assert(st.order.contains(x));
            assert(w.contains(x));
            let q = choose|q: int| 0 <= q < w.len() && w[q] == x;
            assert(o1[q] == x);
        }
    }
    assert(o1.no_duplicates()) by {
        assert(!w.contains(id));
        assert forall|a: int, b: int| 0 <= a < o1.len() && 0 <= b < o1.len() && a != b implies o1[a] != o1[b] by {
            if a == w.len() {
                assert(w.contains(w[b]));
            } else if b == w.len() {
                assert(w.contains(w[a]));
            }
        }
    }
    lemma_evicted_keeps_last(e1, o1, st.max_handles, id);
    lemma_evicted_suffix(e1, o1, st.max_handles);
    let j = choose|j: int| 0 <= j <= o1.len() && #[trigger] o1.skip(j) == evicted(e1, o1, st.max_handles).1;
    let o = s1.order;
    assert(o == o1.skip(j));
    assert(s1.entries.contains_key(id));
    assert(o.contains(id));
    assert(o.len() > 0);
    assert(o.last() == id) by {
        assert(o[o.len() - 1] == o1[o1.len() - 1]);
    }
    lemma_without_at(o, id, o.len() - 1);
    assert(o.remove(o.len() - 1).push(id) =~= o);
    let e2 = s1.entries.insert(id, (v, t2));
    assert(e2.dom() =~= s1.entries.dom());
    assert(e2.len() == s1.entries.len());
}

/// Law (use order): moving a handle to the most recent end keeps every handle
/// once, puts that handle last, and keeps the others in their order: the handle's
/// old place, if it had one, is taken out.
pub proof fn law_touched(s: Seq<Seq<char>>, x: Seq<char>)
    requires
        s.no_duplicates(),
    ensures
        touched(s, x).no_duplicates(),
        touched(s, x).len() > 0,
        touched(s, x).last() == x,
        touched(s, x).drop_last() == without(s, x),
        !s.contains(x) ==> without(s, x) == s,
        forall|j: int| 0 <= j < s.len() && #[trigger] s[j] == x ==> without(s, x) == s.remove(j),
{
    lemma_without(s, x);
    let w = without(s, x);
    assert(!w.contains(x));
    let t = touched(s, x);
    assert(t.drop_last() =~= w);
    assert forall|a: int, b: int| 0 <= a < t.len() && 0 <= b < t.len() && a != b implies t[a] != t[b] by {
        if a == w.len() {
            assert(w.contains(w[b]));
        } else if b == w.len() {
            assert(w.contains(w[a]));
        }
    }
    assert forall|j: int| 0 <= j < s.len() && #[trigger] s[j] == x implies without(s, x) == s.remove(j) by {
        lemma_without_at(s, x, j);
    }
}

/// The held documents once the first `n` handles of the use order are dropped.
pub open spec fn dropped_first(
    entries: Map<Seq<char>, (JsonView, u128)>,
    order: Seq<Seq<char>>,
    n: int,
) -> Map<Seq<char>, (JsonView, u128)> {
    Map::new(|k: Seq<char>| entries.contains_key(k) && !order.take(n).contains(k), |k: Seq<char>| entries[k])
}

/// Law (eviction): eviction drops the least recently used handles first, only
/// while more documents are held than allowed, and leaves the others unchanged:
/// for some number `j` of handles taken from the front of the use order, the
/// remaining order is the rest, the documents left are exactly those whose handle
/// was not taken, and before each handle was taken more than `max` documents were
/// held; afterwards at most `max` are.
pub proof fn law_eviction(entries: Map<Seq<char>, (JsonView, u128)>, order: Seq<Seq<char>>, max: nat)
    requires
        entries.dom().finite(),
        forall|k: Seq<char>| #[trigger] entries.contains_key(k) ==> order.contains(k),
        order.no_duplicates(),
    ensures
        evicted(entries, order, max).0.len() <= max,
        exists|j: int|
            0 <= j <= order.len() && #[trigger] order.skip(j) == evicted(entries, order, max).1
                && evicted(entries, order, max).0 == dropped_first(entries, order, j) && forall|n: int|
                0 <= n < j ==> (#[trigger] dropped_first(entries, order, n)).len() > max,
    decreases order.len(),
{
    lemma_evicted(entries, order, max);
    if entries.len() <= max || order.len() == 0 {
        assert(order.skip(0) =~= order);
        assert(dropped_first(entries, order, 0) =~= entries);
    } else {
        let e1 = entries.remove(order[0]);
        let o1 = order.drop_first();
        assert forall|k: Seq<char>| #[trigger] e1.contains_key(k) implies o1.contains(k) by {
            assert(order.contains(k));
            let q = choose|q: int| 0 <= q < order.len() && order[q] == k;
            assert(q != 0);
            assert(o1[q - 1] == k);
        }
        assert(o1.no_duplicates()) by {
            assert forall|a: int, b: int| 0 <= a < o1.len() && 0 <= b < o1.len() && a != b implies o1[a] != o1[b] by {
                assert(o1[a] == order[a + 1]);
                assert(o1[b] == order[b + 1]);
            }
        }
        law_eviction(e1, o1, max);
        let j1 = choose|j: int|
            0 <= j <= o1.len() && #[trigger] o1.skip(j) == evicted(e1, o1, max).1
                && evicted(e1, o1, max).0 == dropped_first(e1, o1, j) && forall|n: int|
                0 <= n < j ==> (#[trigger] dropped_first(e1, o1, n)).len() > max;
        assert forall|n: int| 0 <= n <= o1.len() implies #[trigger] dropped_first(entries, order, n + 1)
            == dropped_first(e1, o1, n) by {
            let ta = order.take(n + 1);
            let tb = o1.take(n);
            assert forall|k: Seq<char>| ta.contains(k) <==> (k == order[0] || tb.contains(k)) by {
                if ta.contains(k) {
                    let q = choose|q: int| 0 <= q < ta.len() && ta[q] == k;
                    if q > 0 {
                        assert(tb[q - 1] == k);
                    }
                }
                if tb.contains(k) {
                    let q = choose|q: int| 0 <= q < tb.len() && tb[q] == k;
                    assert(ta[q + 1] == k);
                }
                if k == order[0] {
                    assert(ta[0] == k);
                }
            }
            assert(dropped_first(entries, order, n + 1) =~= dropped_first(e1, o1, n));
        }
        assert(order.skip(j1 + 1) =~= o1.skip(j1));
        assert(dropped_first(entries, order, 0) =~= entries);
        assert forall|n: int| 0 <= n < j1 + 1 implies (#[trigger] dropped_first(entries, order, n)).len() > max by {
            if n > 0 {
                assert(dropped_first(entries, order, (n - 1) + 1) == dropped_first(e1, o1, n - 1));
            }
        }
        assert(evicted(entries, order, max).0 == dropped_first(entries, order, j1 + 1));
    }
}

/// Whether some string of `v` equals `x`.
fn vec_has(v: &Vec<String>, x: &String) -> (r: bool)
    ensures
        r == exists|i: int| 0 <= i < v@.len() && #[trigger] v@[i]@ == x@,
{
    let mut i: usize = 0;
    while i < v.len()
        invariant
            i <= v@.len(),
            forall|k: int| 0 <= k < i ==> #[trigger] v@[k]@ != x@,
        decreases v@.len() - i,
    {
        if v[i] == *x {
            return true;
        }
        i += 1;
    }
    false
}

/// The process-wide handle store: documents by handle, bounded in number, with
/// idle expiry and least-recently-used eviction.
pub struct GlobalStore {
    entries: DashMap<String, StoreEntry>,
    lru_order: VecDeque<String>,
    config: StoreConfig,
}

impl GlobalStore {
    /// The store's state.
    pub closed spec fn state(&self) -> StoreState {
        StoreState {
            entries: stored_entries(self.entries),
            order: self.lru_order@.map_values(|s: String| s@),
            max_handles: self.config.max_handles as nat,
            ttl: self.config.ttl_nanos,
        }
    }

    /// The configuration the store was made with.
    pub closed spec fn spec_config(&self) -> StoreConfig {
        self.config
    }

    /// The store's invariant holds.
    pub open spec fn wf(&self) -> bool {
        store_inv(self.state())
    }

    /// An empty store with the given configuration.
    pub fn new_with_config(config: StoreConfig) -> (r: GlobalStore)
        ensures
            r.wf(),
            r.state().entries == Map::<Seq<char>, (JsonView, u128)>::empty(),
            r.state().order == Seq::<Seq<char>>::empty(),
            r.state().max_handles == config.max_handles,
            r.state().ttl == config.ttl_nanos,
            r.spec_config() == config,
    {
        let r = GlobalStore { entries: entries_new(), lru_order: VecDeque::new(), config };
        assert(r.state().order =~= Seq::<Seq<char>>::empty());
        r
    }

    /// Moves `handle_id` to the most recently used end of the use order.
    fn touch_lru(&mut self, handle_id: &str)
        requires
            old(self).state().order.no_duplicates(),
        ensures
            final(self).state().order == touched(old(self).state().order, handle_id@),
            final(self).state().order.no_duplicates(),
            final(self).state().order.last() == handle_id@,
            final(self).state().order.drop_last() == without(old(self).state().order, handle_id@),
            final(self).state().entries == old(self).state().entries,
            final(self).config == old(self).config,
    {
        let id = handle_id.to_owned();
        let ghost o = self.state().order;
        let mut j: usize = 0;
        let mut found = false;
        while j < self.lru_order.len() && !found
            invariant
                self.lru_order@.map_values(|s: String| s@) == o,
                o.len() == self.lru_order@.len(),
                j <= self.lru_order@.len(),
                found ==> j < o.len() && o[j as int] == id@,
                forall|k: int| 0 <= k < j ==> o[k] != id@,
            decreases self.lru_order@.len() - j, if found { 0int } else { 1int },
        {
            if self.lru_order[j] == id {
                found = true;
            } else {
                j += 1;
            }
        }
        proof {
            lemma_without(o, id@);
        }
        if found {
            let ghost before = self.lru_order@;
            assert(o[j as int] == id@);
            self.lru_order.remove(j);
            proof {
                lemma_without_at(o, id@, j as int);
                assert(self.lru_order@.map_values(|s: String| s@) =~= o.remove(j as int));
            }
        } else {
            assert(!o.contains(id@)) by {
                if o.contains(id@) {
                    let k = choose|k: int| 0 <= k < o.len() && o[k] == id@;
                    assert(o[k] != id@);
                }
            }
        }
        self.lru_order.push_back(id);
        assert(self.state().order =~= touched(o, handle_id@));
        proof {
            law_touched(o, handle_id@);
        }
    }

    /// Whether an entry last used at `last_accessed` has expired at `now`.
    fn is_expired(&self, last_accessed: u128, now: u128) -> (r: bool)
        ensures
            r == is_expired_at(last_accessed, now, self.state().ttl),
    {
        let idle: u128 = if now >= last_accessed { now - last_accessed } else { 0 };
        idle > self.config.ttl_nanos
    }

    /// Drops least recently used handles while more documents are held than allowed.
    fn evict_if_needed(&mut self)
        requires
            old(self).state().entries.dom().finite(),
            forall|k: Seq<char>| #[trigger] old(self).state().entries.contains_key(k) ==> old(self).state().order.contains(k),
            old(self).state().order.no_duplicates(),
        ensures
            (final(self).state().entries, final(self).state().order) == evicted(
                old(self).state().entries,
                old(self).state().order,
                old(self).state().max_handles,
            ),
            final(self).state().entries.len() <= old(self).state().max_handles,
            exists|j: int|
                0 <= j <= old(self).state().order.len() && #[trigger] old(self).state().order.skip(j)
                    == final(self).state().order && final(self).state().entries == dropped_first(
                    old(self).state().entries,
                    old(self).state().order,
                    j,
                ) && forall|n: int|
                    0 <= n < j ==> (#[trigger] dropped_first(
                        old(self).state().entries,
                        old(self).state().order,
                        n,
                    )).len() > old(self).state().max_handles,
            final(self).config == old(self).config,
    {
        let ghost st0 = self.state();
        proof {
            law_eviction(st0.entries, st0.order, st0.max_handles);
        }
        let ghost target = evicted(self.state().entries, self.state().order, self.state().max_handles);
        let ghost cfg = self.config;
        loop
            invariant
                self.config == cfg,
                self.state().entries.dom().finite(),
                evicted(self.state().entries, self.state().order, self.state().max_handles) == target,
            ensures
                (self.state().entries, self.state().order) == target,
            decreases self.lru_order@.len(),
        {
            if entries_len(&self.entries) <= self.config.max_handles {
                break;
            }
            let ghost o = self.state().order;
            match self.lru_order.pop_front() {
                Some(oldest) => {
                    assert(oldest@ == o[0]);
                    entries_remove(&mut self.entries, oldest.as_str());
                    assert(self.state().order =~= o.drop_first());
                },
                None => {
                    break;
                },
            }
        }
    }

    /// Looks up `handle_id` at time `now`: an expired entry is removed and `None`
    /// returned; a live one is marked as used now and a copy of its document returned.
    pub fn get(&mut self, handle_id: &str, now: u128) -> (r: Option<JsonValue>)
        requires
            old(self).wf(),
        ensures
            final(self).wf(),
            r matches Some(v) ==> wf(v@),
            (final(self).state(), match r { Some(v) => Some(v@), None => None }) == after_get(
                old(self).state(),
                handle_id@,
                now,
            ),
            final(self).spec_config() == old(self).spec_config(),
    {
        let ghost st = self.state();
        match entries_get(&self.entries, handle_id) {
            None => None,
            Some(entry) => {
                if self.is_expired(entry.last_accessed, now) {
                    entries_remove(&mut self.entries, handle_id);
                    proof {
                        assert forall|k: Seq<char>| #[trigger] self.state().entries.contains_key(k) implies self.state().order.contains(k) by {
                            assert(st.entries.contains_key(k));
                        }
                        assert(self.state().entries.dom() =~= st.entries.dom().remove(handle_id@));
                    }
                    return None;
                }
                let out = entry.value.clone();
                entries_insert(
                    &mut self.entries,
                    handle_id.to_owned(),
                    StoreEntry { value: entry.value, last_accessed: now },
                );
                self.touch_lru(handle_id);
                proof {
                    let w = without(st.order, handle_id@);
                    lemma_without(st.order, handle_id@);
                    assert(self.state().entries.dom() =~= st.entries.dom());
                    assert forall|k: Seq<char>| #[trigger] self.state().entries.contains_key(k) implies self.state().order.contains(k) by {
                        if k == handle_id@ {
                            assert(self.state().order[w.len() as int] == k);
                        } else {
                            assert(st.order.contains(k));
                            assert(w.contains(k));
                            let q = choose|q: int| 0 <= q < w.len() && w[q] == k;
                            assert(self.state().order[q] == k);
                        }
                    }
                    assert(!w.contains(handle_id@));
                    assert forall|a: int, b: int| 0 <= a < self.state().order.len() && 0 <= b < self.state().order.len() && a != b implies self.state().order[a] != self.state().order[b] by {
                        if a == w.len() {
                            assert(w.contains(w[b]));
                        } else if b == w.len() {
                            assert(w.contains(w[a]));
                        }
                    }
                }
                Some(out)
            },
        }
    }

    /// Removes every entry that has expired at `now`, from the store and from the
    /// use order.
    pub fn sweep_expired(&mut self, now: u128)
        requires
            old(self).wf(),
        ensures
            final(self).wf(),
            final(self).state() == after_sweep(old(self).state(), now),
            final(self).spec_config() == old(self).spec_config(),
    {
        let ghost st = self.state();
        let ghost dead = dead_set(st, now);
        let times = entries_access_times(&self.entries);
        let mut expired: Vec<String> = Vec::new();
        let mut i: usize = 0;
        while i < times.len()
            invariant
                self.state() == st,
                dead == dead_set(st, now),
                i <= times@.len(),
                forall|q: int|
                    0 <= q < times@.len() ==> st.entries.contains_key(#[trigger] times@[q].0@)
                        && st.entries[times@[q].0@].1 == times@[q].1,
                forall|q: int| 0 <= q < expired@.len() ==> dead.contains(#[trigger] expired@[q]@),
                forall|q: int|
                    0 <= q < i && dead.contains(#[trigger] times@[q].0@) ==> exists|p: int|
                        0 <= p < expired@.len() && #[trigger] expired@[p]@ == times@[q].0@,
            decreases times@.len() - i,
        {
            let ghost k = times@[i as int].0@;
            assert(st.entries.contains_key(k) && st.entries[k].1 == times@[i as int].1);
            let exp_now = self.is_expired(times[i].1, now);
            let ghost old_exp = expired@;
            if exp_now {
                expired.push(times[i].0.clone());
                assert(dead_at(st, k, now));
                assert(dead.contains(k));
                assert(expired@[expired@.len() - 1]@ == k);
            } else {
                assert(!dead_at(st, k, now));
            }
            assert forall|q: int| 0 <= q < i + 1 && dead.contains(#[trigger] times@[q].0@) implies exists|p: int|
                0 <= p < expired@.len() && #[trigger] expired@[p]@ == times@[q].0@ by {
                if q == i {
                    assert(exp_now);
                    assert(expired@[expired@.len() - 1]@ == times@[i as int].0@);
                } else {
                    let p = choose|p: int| 0 <= p < old_exp.len() && #[trigger] old_exp[p]@ == times@[q].0@;
                    assert(expired@[p] == old_exp[p]);
                }
            }
            i += 1;
        }
        // `expired` names exactly the dead handles
        assert forall|k: Seq<char>| dead.contains(k) implies exists|p: int|
            0 <= p < expired@.len() && #[trigger] expired@[p]@ == k by {
            assert(st.entries.contains_key(k));
            let q = choose|q: int| 0 <= q < times@.len() && #[trigger] times@[q].0@ == k;
            assert(dead.contains(times@[q].0@));
        }
        let mut r: usize = 0;
        while r < expired.len()
            invariant
                self.config == old(self).config,
                self.lru_order@ == old(self).lru_order@,
                r <= expired@.len(),
                forall|q: int| 0 <= q < expired@.len() ==> dead.contains(#[trigger] expired@[q]@),
                forall|k: Seq<char>| dead.contains(k) ==> exists|p: int|
                    0 <= p < expired@.len() && #[trigger] expired@[p]@ == k,
                self.state().entries == Map::new(
                    |k: Seq<char>| st.entries.contains_key(k) && !(exists|p: int| 0 <= p < r && #[trigger] expired@[p]@ == k),
                    |k: Seq<char>| st.entries[k],
                ),
            decreases expired@.len() - r,
        {
            entries_remove(&mut self.entries, expired[r].as_str());
            r += 1;
            assert(self.state().entries =~= Map::new(
                |k: Seq<char>| st.entries.contains_key(k) && !(exists|p: int| 0 <= p < r && #[trigger] expired@[p]@ == k),
                |k: Seq<char>| st.entries[k],
            ));
        }
        assert(self.state().entries =~= after_sweep(st, now).entries) by {
            assert forall|k: Seq<char>| st.entries.contains_key(k) implies (dead_at(st, k, now) <==> exists|p: int| 0 <= p < expired@.len() && #[trigger] expired@[p]@ == k) by {
                if exists|p: int| 0 <= p < expired@.len() && #[trigger] expired@[p]@ == k {
                    let p = choose|p: int| 0 <= p < expired@.len() && #[trigger] expired@[p]@ == k;
                    assert(dead.contains(expired@[p]@));
                }
                if dead_at(st, k, now) {
                    assert(dead.contains(k));
                }
            }
        }
        let ghost o = st.order;
        let mut kept: VecDeque<String> = VecDeque::new();
        let mut j: usize = 0;
        while j < self.lru_order.len()
            invariant
                self.lru_order@.map_values(|s: String| s@) == o,
                o.len() == self.lru_order@.len(),
                j <= o.len(),
                forall|k: Seq<char>| dead.contains(k) <==> exists|p: int|
                    0 <= p < expired@.len() && #[trigger] expired@[p]@ == k,
                kept@.map_values(|s: String| s@) == without_all(o.take(j as int), dead),
            decreases o.len() - j,
        {
            let id = &self.lru_order[j];
            assert(id@ == o[j as int]);
            if !vec_has(&expired, id) {
                kept.push_back(id.clone());
            }
            assert(o.take(j + 1).drop_last() =~= o.take(j as int));
            j += 1;
            assert(kept@.map_values(|s: String| s@) =~= without_all(o.take(j as int), dead));
        }
        self.lru_order = kept;
        proof {
            assert(o.take(o.len() as int) =~= o);
            let ns = self.state();
            lemma_without_all(o, dead);
            vstd::set_lib::lemma_len_subset(ns.entries.dom(), st.entries.dom());
            assert forall|k: Seq<char>| #[trigger] ns.entries.contains_key(k) implies ns.order.contains(k) by {
                assert(o.contains(k));
            }
        }
    }

    /// Stores `value` under `handle_id` at time `now`, then evicts least recently
    /// used documents beyond the limit.
    pub fn insert(&mut self, handle_id: String, value: JsonValue, now: u128)
        requires
            old(self).wf(),
            wf(value@),
        ensures
            final(self).wf(),
            final(self).state() == after_insert(old(self).state(), handle_id@, value@, now),
            final(self).spec_config() == old(self).spec_config(),
    {
        let ghost st = self.state();
        let key = handle_id.clone();
        entries_insert(&mut self.entries, handle_id, StoreEntry { value, last_accessed: now });
        self.touch_lru(key.as_str());
        proof {
            let e1 = st.entries.insert(key@, (value@, now));
            let o1 = touched(st.order, key@);
            lemma_without(st.order, key@);
            assert forall|k: Seq<char>| #[trigger] e1.contains_key(k) implies o1.contains(k) by {
                if k == key@ {
                    assert(o1[o1.len() - 1] == k);
                } else {
                    assert(st.entries.contains_key(k));
                    assert(without(st.order, key@).contains(k));
                    let q = choose|q: int| 0 <= q < without(st.order, key@).len() && without(st.order, key@)[q] == k;
                    assert(o1[q] == k);
                }
            }
            assert(o1.no_duplicates()) by {
                let w = without(st.order, key@);
                assert(!w.contains(key@));
                assert forall|a: int, b: int| 0 <= a < o1.len() && 0 <= b < o1.len() && a != b implies o1[a] != o1[b] by {
                    if a == w.len() {
                        assert(w.contains(w[b]));
                    } else if b == w.len() {
                        assert(w.contains(w[a]));
                    }
                }
            }
            lemma_evicted(e1, o1, st.max_handles);
        }
        self.evict_if_needed();
    }
}


/// What a map of documents holds, by key.
pub uninterp spec fn stored_documents(m: DashMap<String, JsonValue>) -> Map<Seq<char>, JsonView>;

/// Trusted: calls `DashMap::new`. The contract claims that the new map is empty.
#[verifier::external_body]
fn documents_new() -> (r: DashMap<String, JsonValue>)
    ensures
        stored_documents(r) =~= Map::empty(),
{
    DashMap::new()
}

/// Trusted: calls `DashMap::insert`. The contract claims that the key now maps to
/// the given document and nothing else changed.
#[verifier::external_body]
fn documents_insert(m: &mut DashMap<String, JsonValue>, key: String, value: JsonValue)
    ensures
        stored_documents(*final(m)) == stored_documents(*old(m)).insert(key@, value@),
{
    m.insert(key, value);
}

/// Trusted: calls `DashMap::get` and clones the document found. The contract claims
/// that the result is the document stored under the key, if any.
#[verifier::external_body]
fn documents_get(m: &DashMap<String, JsonValue>, key: &str) -> (r: Option<JsonValue>)
    ensures
        match r {
            Some(v) => stored_documents(*m).contains_key(key@) && stored_documents(*m)[key@] == v@,
            None => !stored_documents(*m).contains_key(key@),
        },
{
    m.get(key).map(|e| e.value().clone())
}

/// Trusted: calls `DashMap::remove`. The contract claims that the key no longer maps
/// to anything, nothing else changed, and the result tells whether it did before.
#[verifier::external_body]
fn documents_remove(m: &mut DashMap<String, JsonValue>, key: &str) -> (r: bool)
    ensures
        stored_documents(*final(m)) == stored_documents(*old(m)).remove(key@),
        r == stored_documents(*old(m)).contains_key(key@),
{
    m.remove(key).is_some()
}

/// Trusted: calls `DashMap::len`. The contract claims that the result is the number
/// of keys.
#[verifier::external_body]
fn documents_len(m: &DashMap<String, JsonValue>) -> (r: usize)
    requires
        stored_documents(*m).dom().finite(),
    ensures
        r == stored_documents(*m).len(),
{
    m.len()
}

/// Trusted: calls `DashMap::clear`. The contract claims that the map is empty after.
#[verifier::external_body]
fn documents_clear(m: &mut DashMap<String, JsonValue>)
    ensures
        stored_documents(*final(m)) =~= Map::empty(),
{
    m.clear();
}

/// An explicit keyed store of JSON documents.
pub struct ContextStore {
    inner: DashMap<String, JsonValue>,
}

impl Default for ContextStore {
    /// An empty store.
    fn default() -> (r: ContextStore)
        ensures
            r.wf(),
            r.documents() == Map::<Seq<char>, JsonView>::empty(),
    {
        ContextStore::new()
    }
}

impl ContextStore {
    /// The documents held, by key.
    pub closed spec fn documents(&self) -> Map<Seq<char>, JsonView> {
        stored_documents(self.inner)
    }

    /// The store holds finitely many documents (true of every store made by `new`
    /// and changed by the methods below).
    pub open spec fn wf(&self) -> bool {
        self.documents().dom().finite()
    }

    /// Creates a new empty store.
    pub fn new() -> (r: ContextStore)
        ensures
            r.wf(),
            r.documents() == Map::<Seq<char>, JsonView>::empty(),
    {
        ContextStore { inner: documents_new() }
    }

    /// Stores the parsed payload under `handle_id`; a payload that did not parse
    /// (its parser's message in `parsed`) is refused and nothing changes.
    pub fn insert(&mut self, handle_id: &str, parsed: Result<JsonValue, String>) -> (r: Result<(), ContextCutterError>)
        requires
            old(self).wf(),
        ensures
            final(self).wf(),
            match parsed {
                Ok(v) => r is Ok && final(self).documents() == old(self).documents().insert(handle_id@, v@),
                Err(e) => r matches Err(ContextCutterError::InvalidJson(m)) && m@ == e@
                    && final(self).documents() == old(self).documents(),
            },
    {
        match parsed {
            Ok(v) => {
                documents_insert(&mut self.inner, handle_id.to_owned(), v);
                Ok(())
            },
            Err(e) => Err(ContextCutterError::InvalidJson(e)),
        }
    }

    /// The compact JSON text of the document under `handle_id`, if any.
    pub fn get(&self, handle_id: &str) -> (r: Result<Option<String>, ContextCutterError>)
        ensures
            match r {
                Ok(Some(t)) => self.documents().contains_key(handle_id@) && t@ == json_text(
                    self.documents()[handle_id@],
                ),
                Ok(None) => !self.documents().contains_key(handle_id@),
                Err(_) => false,
            },
    {
        match documents_get(&self.inner, handle_id) {
            Some(v) => Ok(Some(to_json_string(&v))),
            None => Ok(None),
        }
    }

    /// The number of stored documents.
    pub fn len(&self) -> (r: usize)
        requires
            self.wf(),
        ensures
            r == self.documents().len(),
    {
        documents_len(&self.inner)
    }

    /// Whether no document is stored.
    pub fn is_empty(&self) -> (r: bool)
        requires
            self.wf(),
        ensures
            r == (self.documents().len() == 0),
            r == (self.documents() == Map::<Seq<char>, JsonView>::empty()),
    {
        let n = documents_len(&self.inner);
        proof {
            if n == 0 {
                assert(self.documents().dom() =~= Set::<Seq<char>>::empty());
                assert(self.documents() =~= Map::<Seq<char>, JsonView>::empty());
            }
        }
        n == 0
    }

    /// Removes every document.
    pub fn clear(&mut self)
        ensures
            final(self).wf(),
            final(self).documents() == Map::<Seq<char>, JsonView>::empty(),
    {
        documents_clear(&mut self.inner);
    }

    /// Removes the document under `handle_id`, telling whether there was one.
    pub fn remove(&mut self, handle_id: &str) -> (r: bool)
        requires
            old(self).wf(),
        ensures
            final(self).wf(),
            final(self).documents() == old(self).documents().remove(handle_id@),
            r == old(self).documents().contains_key(handle_id@),
    {
        documents_remove(&mut self.inner, handle_id)
    }
}

} // verus!
