//! The store / teaser / query operations on the handle store.

use vstd::prelude::*;
use vstd::string::*;

use crate::canonical::{compute_handle_id, handle_id_of};
use crate::error::ContextCutterError;
use crate::json::{JsonValue, JsonView, json_text, wf};
use crate::parser::{generate_teaser_from_value, json_path_select, matches_text, normalized_path, query_json_path, teaser_of};
use crate::store::{GlobalStore, after_get, after_insert, is_expired_at, law_get_after_insert, store_inv};
use crate::text::{all_ws, has_nul_byte, is_blank};

verus! {

/// Stores a parsed payload in the handle store and returns its handle.
///
/// `json_str` is the payload's text and `parsed` what the JSON parser made of it
/// (its message when it did not parse). A text holding a zero byte is refused before
/// parsing matters; a payload that did not parse is refused; otherwise the document
/// is stored at time `now` under its handle.
pub fn engine_store(
    store: &mut GlobalStore,
    json_str: &str,
    parsed: Result<JsonValue, String>,
    now: u128,
) -> (r: Result<String, ContextCutterError>)
    requires
        old(store).wf(),
        parsed matches Ok(v) ==> wf(v@),
    ensures
        final(store).wf(),
        final(store).spec_config() == old(store).spec_config(),
        if json_str.spec_bytes().contains(0u8) {
            &&& r matches Err(ContextCutterError::Validation(m))
            &&& m@ == "json payload must not contain null bytes"@
            &&& final(store).state() == old(store).state()
        } else {
            match parsed {
                Err(e) => {
                    &&& r matches Err(ContextCutterError::InvalidJson(m))
                    &&& m@ == e@
                    &&& final(store).state() == old(store).state()
                },
                Ok(v) => {
                    &&& r matches Ok(h)
                    &&& h@ == handle_id_of(v@)
                    &&& final(store).state() == after_insert(old(store).state(), h@, v@, now)
                },
            }
        },
{
    if has_nul_byte(json_str) {
        return Err(ContextCutterError::Validation("json payload must not contain null bytes".to_owned()));
    }
    let value = match parsed {
        Ok(v) => v,
        Err(e) => {
            return Err(ContextCutterError::InvalidJson(e));
        },
    };
    let handle_id = match compute_handle_id(&value) {
        Ok(h) => h,
        Err(e) => {
            return Err(e);
        },
    };
    store.insert(handle_id.clone(), value, now);
    Ok(handle_id)
}

/// Returns the teaser text of the document stored under `handle_id`, looked up at
/// time `now`.
pub fn engine_teaser(store: &mut GlobalStore, handle_id: &str, now: u128) -> (r: Result<String, ContextCutterError>)
    requires
        old(store).wf(),
    ensures
        final(store).wf(),
        final(store).spec_config() == old(store).spec_config(),
        if all_ws(handle_id@) {
            &&& r matches Err(ContextCutterError::Validation(m))
            &&& m@ == "handle_id must not be empty"@
            &&& final(store).state() == old(store).state()
        } else {
            let (st, found) = after_get(old(store).state(), handle_id@, now);
            &&& final(store).state() == st
            &&& match found {
                None => r matches Err(ContextCutterError::UnknownHandle(m)) && m@ == handle_id@,
                Some(v) => r matches Ok(t) && t@ == json_text(teaser_of(v)),
            }
        },
{
    if is_blank(handle_id) {
        return Err(ContextCutterError::Validation("handle_id must not be empty".to_owned()));
    }
    match store.get(handle_id, now) {
        None => Err(ContextCutterError::UnknownHandle(handle_id.to_owned())),
        Some(v) => Ok(generate_teaser_from_value(&v)),
    }
}

/// Runs a path query against the document stored under `handle_id`, looked up at
/// time `now` (see `query_json_path`).
pub fn engine_query(
    store: &mut GlobalStore,
    handle_id: &str,
    json_path: &str,
    now: u128,
) -> (r: Result<String, ContextCutterError>)
    requires
        old(store).wf(),
    ensures
        final(store).wf(),
        final(store).spec_config() == old(store).spec_config(),
        if all_ws(handle_id@) {
            &&& r matches Err(ContextCutterError::Validation(m))
            &&& m@ == "handle_id must not be empty"@
            &&& final(store).state() == old(store).state()
        } else {
            let (st, found) = after_get(old(store).state(), handle_id@, now);
            &&& final(store).state() == st
            &&& match found {
                None => r matches Err(ContextCutterError::UnknownHandle(m)) && m@ == handle_id@,
                Some(v) => match normalized_path(json_path@) {
                    None => r matches Err(ContextCutterError::InvalidJsonPath(m)) && m@
                        == "json path must not be empty"@,
                    Some(n) => match json_path_select(json_text(v), n) {
                        Ok(ms) => r matches Ok(t) && t@ == matches_text(ms),
                        Err(e) => r matches Err(ContextCutterError::InvalidJsonPath(m)) && m@ == e,
                    },
                },
            }
        },
{
    if is_blank(handle_id) {
        return Err(ContextCutterError::Validation("handle_id must not be empty".to_owned()));
    }
    match store.get(handle_id, now) {
        None => Err(ContextCutterError::UnknownHandle(handle_id.to_owned())),
        Some(v) => query_json_path(&v, json_path),
    }
}

/// Law (store, then read back): once a payload has been stored, its handle is not
/// blank, and a lookup of that handle before the entry expires finds the payload,
/// so `engine_teaser` answers with the payload's teaser and `engine_query` queries
/// the payload itself; this holds whenever the store may hold at least one document.
pub proof fn law_lookup_after_store(st: crate::store::StoreState, v: JsonView, now: u128, later: u128)
    requires
        store_inv(st),
        st.max_handles >= 1,
        !is_expired_at(now, later, st.ttl),
    ensures
        !all_ws(handle_id_of(v)),
        after_get(after_insert(st, handle_id_of(v), v, now), handle_id_of(v), later).1 == Some(v),
{
    assert(!crate::text::is_ws(handle_id_of(v)[0]));
    law_get_after_insert(st, handle_id_of(v), v, now, later);
}

} // verus!
