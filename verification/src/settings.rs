//! Numeric settings read from the environment: how they are parsed, and what
//! applies when one is missing, malformed or zero.

use vstd::prelude::*;

use crate::store::StoreConfig;
use crate::text::str_to_chars;

verus! {

/// Payload limit when no setting applies: 10 MiB.
pub const DEFAULT_MAX_PAYLOAD_BYTES: usize = 10485760;

/// Number of documents the handle store keeps when no setting applies.
pub const DEFAULT_MAX_HANDLES: usize = 1000;

/// Idle lifetime of a stored document, in seconds, when no setting applies.
pub const DEFAULT_TTL_SECS: u64 = 3600;

/// Whether `c` is an ASCII decimal digit.
pub open spec fn is_digit(c: char) -> bool {
    '0' <= c <= '9'
}

/// The value of a string of decimal digits.
pub open spec fn digits_value(s: Seq<char>) -> nat
    decreases s.len(),
{
    if s.len() == 0 {
        0
    } else {
        digits_value(s.drop_last()) * 10 + ((s.last() as u32) - 48) as nat
    }
}

/// `s` without a leading `+`.
pub open spec fn unsigned_digits(s: Seq<char>) -> Seq<char> {
    if s.len() > 0 && s[0] == '+' { s.drop_first() } else { s }
}

/// Whether every character of `d` is a decimal digit.
pub open spec fn all_digits(d: Seq<char>) -> bool {
    forall|i: int| 0 <= i < d.len() ==> is_digit(#[trigger] d[i])
}

/// What `from_str` of an unsigned integer type with largest value `max` makes of
/// `s`: an optional `+`, then one or more decimal digits, whose value must not
/// exceed `max`.
pub open spec fn parse_unsigned(s: Seq<char>, max: nat) -> Option<nat> {
    let d = unsigned_digits(s);
    if d.len() == 0 || !all_digits(d) {
        None
    } else if digits_value(d) > max {
        None
    } else {
        Some(digits_value(d))
    }
}

proof fn lemma_digits_prefix(s: Seq<char>, i: int)
    requires
        0 <= i <= s.len(),
        forall|k: int| 0 <= k < s.len() ==> is_digit(#[trigger] s[k]),
    ensures
        digits_value(s.take(i)) <= digits_value(s),
    decreases s.len(),
{
    if i < s.len() {
        let t = s.drop_last();
        assert forall|k: int| 0 <= k < t.len() implies is_digit(#[trigger] t[k]) by {
            assert(t[k] == s[k]);
        }
        lemma_digits_prefix(t, i);
        assert(t.take(i) =~= s.take(i));
    } else {
        assert(s.take(i) =~= s);
    }
}

/// Parses an unsigned decimal integer no larger than `max`, as `from_str` of an
/// unsigned integer type with that largest value does.
fn parse_unsigned_up_to(s: &str, max: u64) -> (r: Option<u64>)
    ensures
        match r {
            Some(v) => parse_unsigned(s@, max as nat) == Some(v as nat),
            None => parse_unsigned(s@, max as nat) is None,
        },
{
    let cs = str_to_chars(s);
    let start: usize = if cs.len() > 0 && cs[0] == '+' { 1 } else { 0 };
    let ghost d = unsigned_digits(s@);
    assert(d =~= cs@.skip(start as int));
    if start >= cs.len() {
        return None;
    }
    let mut v: u64 = 0;
    let mut i: usize = start;
    while i < cs.len()
        invariant
            cs@ == s@,
            d == cs@.skip(start as int),
            d == unsigned_digits(s@),
            d.len() > 0,
            start <= i <= cs@.len(),
            v as nat == digits_value(d.take(i - start)),
            v <= max,
            forall|k: int| 0 <= k < i - start ==> is_digit(#[trigger] d[k]),
        decreases cs@.len() - i,
    {
        let c = cs[i];
        if !('0' <= c && c <= '9') {
            assert(!is_digit(d[i - start]));
            return None;
        }
        let digit = (c as u32 - 48) as u64;
        assert(d.take(i - start + 1).drop_last() =~= d.take(i - start));
        assert(digits_value(d.take(i - start + 1)) == v * 10 + digit);
        let next = match v.checked_mul(10) {
            Some(t) => t.checked_add(digit),
            None => None,
        };
        let fits = match next {
            Some(n) => n <= max,
            None => false,
        };
        if fits {
            v = next.unwrap();
        } else {
            {
                proof {
                    assert(v * 10 + digit > max);
                    if all_digits(d) {
                        lemma_digits_prefix(d, i - start + 1);
                    }
                }
                return None;
            }
        }
        i += 1;
    }
    assert(d.take(i - start) =~= d);
    Some(v)
}

/// What a numeric setting comes to: its value when it parses as an unsigned
/// integer no larger than `max` and is not zero, else `default`.
pub open spec fn setting_value(setting: Option<Seq<char>>, max: nat, default: nat) -> nat {
    match setting {
        Some(s) => match parse_unsigned(s, max) {
            Some(v) => if v > 0 { v } else { default },
            None => default,
        },
        None => default,
    }
}

fn setting_or_default(setting: Option<&str>, max: u64, default: u64) -> (r: u64)
    requires
        default <= max,
    ensures
        r as nat == setting_value(
            match setting {
                Some(s) => Some(s@),
                None => None,
            },
            max as nat,
            default as nat,
        ),
{
    match setting {
        Some(s) => match parse_unsigned_up_to(s, max) {
            Some(v) => if v > 0 { v } else { default },
            None => default,
        },
        None => default,
    }
}

/// The largest accepted response body, in bytes, from the payload-limit setting.
pub fn max_payload_bytes_from(setting: Option<&str>) -> (r: usize)
    ensures
        r as nat == setting_value(
            match setting {
                Some(s) => Some(s@),
                None => None,
            },
            usize::MAX as nat,
            DEFAULT_MAX_PAYLOAD_BYTES as nat,
        ),
{
    setting_or_default(setting, usize::MAX as u64, DEFAULT_MAX_PAYLOAD_BYTES as u64) as usize
}

/// The handle store's configuration from the settings for the number of documents
/// and for their idle lifetime in seconds.
pub fn store_config_from(max_handles: Option<&str>, ttl_secs: Option<&str>) -> (r: StoreConfig)
    ensures
        r.max_handles as nat == setting_value(
            match max_handles {
                Some(s) => Some(s@),
                None => None,
            },
            usize::MAX as nat,
            DEFAULT_MAX_HANDLES as nat,
        ),
        r.ttl_nanos as nat == setting_value(
            match ttl_secs {
                Some(s) => Some(s@),
                None => None,
            },
            u64::MAX as nat,
            DEFAULT_TTL_SECS as nat,
        ) * 1000000000,
{
    let max = setting_or_default(max_handles, usize::MAX as u64, DEFAULT_MAX_HANDLES as u64) as usize;
    let secs = setting_or_default(ttl_secs, u64::MAX, DEFAULT_TTL_SECS);
    assert(secs as u128 * 1000000000u128 <= u64::MAX as u128 * 1000000000u128) by (nonlinear_arith);
    StoreConfig { max_handles: max, ttl_nanos: secs as u128 * 1000000000u128 }
}

} // verus!
