//! Base64url without padding (RFC 4648, section 5), as PKCE and JWTs use it, and a
//! lenient decoder that accepts both alphabets and optional padding.

use vstd::prelude::*;
use vstd::string::*;
use vstd::utf8::{encode_utf8, is_ascii_chars, is_ascii_chars_encode_utf8};

use crate::text::chars_to_string;

verus! {

/// The base64url digit for a six-bit value.
pub open spec fn b64_digit(i: u8) -> char {
    if i < 26 {
        (65 + i) as char
    } else if i < 52 {
        (97 + (i - 26)) as char
    } else if i < 62 {
        (48 + (i - 52)) as char
    } else if i == 62 {
        '-'
    } else {
        '_'
    }
}

/// A character of the base64url alphabet: an ASCII letter or digit, `-` or `_`.
pub open spec fn b64url_char(c: char) -> bool {
    ('A' <= c <= 'Z') || ('a' <= c <= 'z') || ('0' <= c <= '9') || c == '-' || c == '_'
}

/// The digits for one group of up to three bytes: two digits for one byte, three
/// for two, four for three.
pub open spec fn b64_group(g: Seq<u8>) -> Seq<char> {
    let b0 = g[0];
    let b1: u8 = if g.len() > 1 { g[1] } else { 0 };
    let b2: u8 = if g.len() > 2 { g[2] } else { 0 };
    let d0 = b64_digit(b0 / 4);
    let d1 = b64_digit(((b0 % 4) * 16 + b1 / 16) as u8);
    let d2 = b64_digit(((b1 % 16) * 4 + b2 / 64) as u8);
    let d3 = b64_digit(b2 % 64);
    if g.len() == 1 {
        seq![d0, d1]
    } else if g.len() == 2 {
        seq![d0, d1, d2]
    } else {
        seq![d0, d1, d2, d3]
    }
}

/// The base64url text of `s`, without padding: each group of three bytes, and the
/// shorter last group, in turn.
pub open spec fn b64_encode(s: Seq<u8>) -> Seq<char>
    decreases s.len(),
{
    if s.len() == 0 {
        Seq::empty()
    } else if s.len() <= 3 {
        b64_group(s)
    } else {
        b64_group(s.take(3)) + b64_encode(s.skip(3))
    }
}

/// The six-bit value of a digit of either alphabet; padding counts as zero.
pub open spec fn b64_value(c: u8) -> Option<u8> {
    if 65 <= c <= 90 {
        Some((c - 65) as u8)
    } else if 97 <= c <= 122 {
        Some((c - 97 + 26) as u8)
    } else if 48 <= c <= 57 {
        Some((c - 48 + 52) as u8)
    } else if c == 43 || c == 45 {
        Some(62u8)
    } else if c == 47 || c == 95 {
        Some(63u8)
    } else if c == 61 {
        Some(0u8)
    } else {
        None
    }
}

/// The byte at `i` of a group, or padding past its end.
pub open spec fn at_or_pad(g: Seq<u8>, i: int) -> u8 {
    if i < g.len() { g[i] } else { 61u8 }
}

/// Whether a group has a digit other than padding at `i`.
pub open spec fn digit_present(g: Seq<u8>, i: int) -> bool {
    i < g.len() && g[i] != 61u8
}

/// The bytes of one group of up to four digits: the first byte always, the second
/// and the third when the third and the fourth digits are present; no bytes at all
/// when a character is not a digit.
pub open spec fn b64_ungroup(g: Seq<u8>) -> Option<Seq<u8>> {
    match (b64_value(g[0]), b64_value(at_or_pad(g, 1)), b64_value(at_or_pad(g, 2)), b64_value(at_or_pad(g, 3))) {
        (Some(a), Some(b), Some(c), Some(d)) => Some(
            seq![(a * 4 + b / 16) as u8]
                + (if digit_present(g, 2) { seq![((b % 16) * 16 + c / 4) as u8] } else { Seq::empty() })
                + (if digit_present(g, 3) { seq![((c % 4) * 64 + d) as u8] } else { Seq::empty() }),
        ),
        _ => None,
    }
}

/// The bytes that base64 text `b` stands for, group of four by group of four, or
/// `None` when it holds a character that is not a digit of either alphabet.
pub open spec fn b64_decode(b: Seq<u8>) -> Option<Seq<u8>>
    decreases b.len(),
{
    if b.len() == 0 {
        Some(Seq::empty())
    } else {
        let n: int = if b.len() < 4 { b.len() as int } else { 4 };
        match b64_ungroup(b.take(n)) {
            None => None,
            Some(o) => match b64_decode(b.skip(n)) {
                None => None,
                Some(r) => Some(o + r),
            },
        }
    }
}

fn b64_digit_exec(i: u8) -> (c: char)
    requires
        i < 64,
    ensures
        c == b64_digit(i),
{
    if i < 26 {
        (65 + i) as char
    } else if i < 52 {
        (97 + (i - 26)) as char
    } else if i < 62 {
        (48 + (i - 52)) as char
    } else if i == 62 {
        '-'
    } else {
        '_'
    }
}

proof fn lemma_group_bits(b0: u8, b1: u8, b2: u8)
    by (bit_vector)
    ensures
        b0 >> 2u8 == b0 / 4,
        ((b0 & 3u8) << 4u8) | (b1 >> 4u8) == (b0 % 4) * 16 + b1 / 16,
        ((b1 & 15u8) << 2u8) | (b2 >> 6u8) == (b1 % 16) * 4 + b2 / 64,
        b2 & 63u8 == b2 % 64,
{
}

/// Base64url encoding without padding (RFC 4648, section 5).
pub fn base64url_encode(input: &[u8]) -> (r: String)
    ensures
        r@ == b64_encode(input@),
{
    let mut out: Vec<char> = Vec::new();
    let mut i: usize = 0;
    assert(input@.skip(0) =~= input@);
    assert(out@ + b64_encode(input@) =~= b64_encode(input@));
    while i < input.len()
        invariant
            i <= input@.len(),
            b64_encode(input@) == out@ + b64_encode(input@.skip(i as int)),
        decreases input@.len() - i,
    {
        let ghost rest = input@.skip(i as int);
        let n = input.len() - i;
        let b0 = input[i];
        let b1: u8 = if n > 1 { input[i + 1] } else { 0 };
        let b2: u8 = if n > 2 { input[i + 2] } else { 0 };
        proof {
            lemma_group_bits(b0, b1, b2);
        }
        let ghost g = if n <= 3 { rest } else { rest.take(3) };
        assert(g[0] == b0);
        assert(g.len() > 1 ==> g[1] == b1);
        assert(g.len() > 2 ==> g[2] == b2);
        assert(b64_group(g).len() >= 2);
        out.push(b64_digit_exec(b0 >> 2));
        out.push(b64_digit_exec(((b0 & 3) << 4) | (b1 >> 4)));
        if n > 1 {
            out.push(b64_digit_exec(((b1 & 15) << 2) | (b2 >> 6)));
        }
        if n > 2 {
            out.push(b64_digit_exec(b2 & 63));
        }
        proof {
            if n <= 3 {
                assert(b64_encode(rest) == b64_group(rest));
                assert(input@.skip(input@.len() as int) =~= Seq::<u8>::empty());
            } else {
                assert(rest.skip(3) =~= input@.skip(i + 3));
            }
        }
        i = if n > 3 { i + 3 } else { input.len() };
        assert(b64_encode(input@) =~= out@ + b64_encode(input@.skip(i as int)));
    }
    assert(input@.skip(i as int) =~= Seq::<u8>::empty());
    assert(out@ =~= b64_encode(input@));
    chars_to_string(&out)
}

fn b64_value_exec(c: u8) -> (r: Option<u8>)
    ensures
        r == b64_value(c),
{
    if 65 <= c && c <= 90 {
        Some(c - 65)
    } else if 97 <= c && c <= 122 {
        Some(c - 97 + 26)
    } else if 48 <= c && c <= 57 {
        Some(c - 48 + 52)
    } else if c == 43 || c == 45 {
        Some(62)
    } else if c == 47 || c == 95 {
        Some(63)
    } else if c == 61 {
        Some(0)
    } else {
        None
    }
}

proof fn lemma_ungroup_bits(a: u8, b: u8, c: u8, d: u8)
    by (bit_vector)
    requires
        a < 64,
        b < 64,
        c < 64,
        d < 64,
    ensures
        (a << 2u8) | (b >> 4u8) == a * 4 + b / 16,
        (b << 4u8) | (c >> 2u8) == (b % 16) * 16 + c / 4,
        (c << 6u8) | d == (c % 4) * 64 + d,
{
}

/// Decodes base64 or base64url text, with or without padding; `None` when the text
/// holds a character that is not a digit of either alphabet or padding.
pub fn base64url_decode(input: &str) -> (r: Option<Vec<u8>>)
    ensures
        match r {
            Some(v) => b64_decode(input.spec_bytes()) == Some(v@),
            None => b64_decode(input.spec_bytes()) is None,
        },
{
    b64_decode_slice(input.as_bytes())
}

/// Decodes the bytes of base64 or base64url text (see `base64url_decode`).
pub fn b64_decode_slice(bytes: &[u8]) -> (r: Option<Vec<u8>>)
    ensures
        match r {
            Some(v) => b64_decode(bytes@) == Some(v@),
            None => b64_decode(bytes@) is None,
        },
{
    let ghost all = bytes@;
    let mut out: Vec<u8> = Vec::new();
    let mut i: usize = 0;
    assert(all.skip(0) =~= all);
    assert(forall|r: Seq<u8>| out@ + r =~= r);
    while i < bytes.len()
        invariant
            bytes@ == all,
            i <= all.len(),
            b64_decode(all) == match b64_decode(all.skip(i as int)) {
                None => None,
                Some(r) => Some(out@ + r),
            },
        decreases all.len() - i,
    {
        let ghost rest = all.skip(i as int);
        let n: usize = if bytes.len() - i < 4 { bytes.len() - i } else { 4 };
        let ghost g = rest.take(n as int);
        let c0 = bytes[i];
        let c1: u8 = if n > 1 { bytes[i + 1] } else { 61 };
        let c2: u8 = if n > 2 { bytes[i + 2] } else { 61 };
        let c3: u8 = if n > 3 { bytes[i + 3] } else { 61 };
        assert(g[0] == c0);
        assert(at_or_pad(g, 1) == c1);
        assert(at_or_pad(g, 2) == c2);
        assert(at_or_pad(g, 3) == c3);
        let va = b64_value_exec(c0);
        let vb = b64_value_exec(c1);
        let vc = b64_value_exec(c2);
        let vd = b64_value_exec(c3);
        match (va, vb, vc, vd) {
            (Some(a), Some(b), Some(c), Some(d)) => {
                proof {
                    lemma_ungroup_bits(a, b, c, d);
                }
                let ghost before = out@;
                out.push((a << 2) | (b >> 4));
                if n > 2 && c2 != 61 {
                    out.push((b << 4) | (c >> 2));
                }
                if n > 3 && c3 != 61 {
                    out.push((c << 6) | d);
                }
                let ghost o = b64_ungroup(g).unwrap();
                assert(out@ =~= before + o);
                assert(rest.skip(n as int) =~= all.skip(i + n));
                i = i + n;
                assert forall|r: Seq<u8>| before + o + r =~= out@ + r by {}
            },
            _ => {
                return None;
            },
        }
    }
    assert(all.skip(i as int) =~= Seq::<u8>::empty());
    assert(out@ + Seq::<u8>::empty() =~= out@);
    Some(out)
}

/// The bytes of a character sequence that is all ASCII.
pub open spec fn ascii_bytes(cs: Seq<char>) -> Seq<u8> {
    Seq::new(cs.len(), |i: int| cs[i] as u8)
}

proof fn lemma_digit(i: u8)
    requires
        i < 64,
    ensures
        (b64_digit(i) as u32) < 128,
        b64_value(b64_digit(i) as u8) == Some(i),
        b64_digit(i) as u8 != 61u8,
        b64url_char(b64_digit(i)),
{
}

proof fn lemma_group_ascii(g: Seq<u8>)
    requires
        1 <= g.len() <= 3,
    ensures
        b64_group(g).len() == g.len() + 1,
        is_ascii_chars(b64_group(g)),
        forall|k: int| 0 <= k < b64_group(g).len() ==> b64url_char(#[trigger] b64_group(g)[k]),
        b64_ungroup(ascii_bytes(b64_group(g))) == Some(g),
{
    let b0 = g[0];
    let b1: u8 = if g.len() > 1 { g[1] } else { 0 };
    let b2: u8 = if g.len() > 2 { g[2] } else { 0 };
    let s0 = b0 / 4;
    let s1 = ((b0 % 4) * 16 + b1 / 16) as u8;
    let s2 = ((b1 % 16) * 4 + b2 / 64) as u8;
    let s3 = b2 % 64;
    lemma_digit(s0);
    lemma_digit(s1);
    lemma_digit(s2);
    lemma_digit(s3);
    let cs = b64_group(g);
    let bs = ascii_bytes(cs);
    assert forall|k: int| 0 <= k < cs.len() implies b64url_char(#[trigger] cs[k]) by {}
    assert(is_ascii_chars(cs)) by {
        assert forall|k: int| 0 <= k < cs.len() implies '\0' <= #[trigger] cs[k] <= '\u{7f}' by {}
    }
    assert(b64_value(bs[0]) == Some(s0));
    assert(b64_value(at_or_pad(bs, 1)) == Some(s1));
    assert((s0 * 4 + s1 / 16) as u8 == b0) by (nonlinear_arith)
        requires
            s0 == b0 / 4,
            s1 == (b0 % 4) * 16 + b1 / 16,
            b1 < 256,
    ;
    assert(((s1 % 16) * 16 + s2 / 4) as u8 == b1) by (nonlinear_arith)
        requires
            s1 == (b0 % 4) * 16 + b1 / 16,
            s2 == (b1 % 16) * 4 + b2 / 64,
            b0 < 256,
            b1 < 256,
            b2 < 256,
    ;
    assert(((s2 % 4) * 64 + s3) as u8 == b2) by (nonlinear_arith)
        requires
            s2 == (b1 % 16) * 4 + b2 / 64,
            s3 == b2 % 64,
            b2 < 256,
    ;
    let o = b64_ungroup(bs).unwrap();
    if g.len() == 1 {
        assert(b64_value(at_or_pad(bs, 2)) == Some(0u8));
        assert(b64_value(at_or_pad(bs, 3)) == Some(0u8));
        assert(o =~= g);
    } else if g.len() == 2 {
        assert(b64_value(at_or_pad(bs, 2)) == Some(s2));
        assert(b64_value(at_or_pad(bs, 3)) == Some(0u8));
        assert(o =~= g);
    } else {
        assert(b64_value(at_or_pad(bs, 2)) == Some(s2));
        assert(b64_value(at_or_pad(bs, 3)) == Some(s3));
        assert(o =~= g);
    }
}

proof fn lemma_encode_ascii(x: Seq<u8>)
    ensures
        is_ascii_chars(b64_encode(x)),
    decreases x.len(),
{
    if x.len() == 0 {
    } else if x.len() <= 3 {
        lemma_group_ascii(x);
    } else {
        lemma_group_ascii(x.take(3));
        lemma_encode_ascii(x.skip(3));
        let a = b64_group(x.take(3));
        let b = b64_encode(x.skip(3));
        assert forall|k: int| 0 <= k < (a + b).len() implies '\0' <= #[trigger] (a + b)[k] <= '\u{7f}' by {
            if k < a.len() {
                assert((a + b)[k] == a[k]);
            } else {
                assert((a + b)[k] == b[k - a.len()]);
            }
        }
    }
}

proof fn lemma_ascii_bytes_concat(a: Seq<char>, b: Seq<char>)
    ensures
        ascii_bytes(a + b) =~= ascii_bytes(a) + ascii_bytes(b),
{
}

proof fn lemma_encode_nonempty(x: Seq<u8>)
    requires
        x.len() > 0,
    ensures
        b64_encode(x).len() > 0,
{
    if x.len() <= 3 {
        lemma_group_ascii(x);
    } else {
        lemma_group_ascii(x.take(3));
    }
}

proof fn lemma_decode_encode(x: Seq<u8>)
    ensures
        b64_decode(ascii_bytes(b64_encode(x))) == Some(x),
    decreases x.len(),
{
    if x.len() == 0 {
        assert(ascii_bytes(b64_encode(x)).len() == 0);
    } else if x.len() <= 3 {
        let bs = ascii_bytes(b64_encode(x));
        lemma_group_ascii(x);
        assert(bs.take(bs.len() as int) =~= bs);
        assert(bs.skip(bs.len() as int) =~= Seq::<u8>::empty());
        assert(b64_decode(bs.skip(bs.len() as int)) == Some(Seq::<u8>::empty()));
        assert(b64_decode(bs) == Some(x + Seq::<u8>::empty()));
        assert(x + Seq::<u8>::empty() =~= x);
    } else {
        let a = b64_group(x.take(3));
        let b = b64_encode(x.skip(3));
        assert(b64_encode(x) == a + b);
        lemma_group_ascii(x.take(3));
        lemma_encode_nonempty(x.skip(3));
        lemma_decode_encode(x.skip(3));
        lemma_ascii_bytes_concat(a, b);
        let ba = ascii_bytes(a);
        let bb = ascii_bytes(b);
        assert((ba + bb).take(4) =~= ba);
        assert((ba + bb).skip(4) =~= bb);
        assert(ba.len() == 4 && bb.len() > 0);
        assert(b64_ungroup((ba + bb).take(4)) == Some(x.take(3)));
        assert(b64_decode((ba + bb).skip(4)) == Some(x.skip(3)));
        assert(b64_decode(ba + bb) == Some(x.take(3) + x.skip(3)));
        assert(x.take(3) + x.skip(3) =~= x);
    }
}

/// Law: the base64url text of `x` has `(4 * len + 2) / 3` characters, all from
/// the base64url alphabet (no padding).
pub proof fn law_encode_shape(x: Seq<u8>)
    ensures
        b64_encode(x).len() == (4 * x.len() + 2) / 3,
        forall|k: int| 0 <= k < b64_encode(x).len() ==> b64url_char(#[trigger] b64_encode(x)[k]),
    decreases x.len(),
{
    if x.len() == 0 {
    } else if x.len() <= 3 {
        lemma_group_ascii(x);
    } else {
        lemma_group_ascii(x.take(3));
        law_encode_shape(x.skip(3));
        let a = b64_group(x.take(3));
        let b = b64_encode(x.skip(3));
        assert(b64_encode(x) == a + b);
        assert((4 * x.len() + 2) / 3 == 4 + (4 * (x.len() - 3) + 2) / 3);
        assert forall|k: int| 0 <= k < (a + b).len() implies b64url_char(#[trigger] (a + b)[k]) by {
            if k < a.len() {
                assert((a + b)[k] == a[k]);
            } else {
                assert((a + b)[k] == b[k - a.len()]);
            }
        }
    }
}

/// Law: decoding the base64url text of any bytes gives those bytes back.
pub proof fn law_decode_inverts_encode(x: Seq<u8>)
    ensures
        b64_decode(encode_utf8(b64_encode(x))) == Some(x),
{
    lemma_encode_ascii(x);
    let cs = b64_encode(x);
    is_ascii_chars_encode_utf8(cs);
    assert(encode_utf8(cs) =~= ascii_bytes(cs));
    lemma_decode_encode(x);
}

} // verus!
