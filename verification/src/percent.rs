//! Percent encoding of arbitrary bytes, as the patch format stores them:
//! ASCII alphanumerics pass through, every other byte becomes `%` and two
//! uppercase hex digits; decoding accepts either case and passes invalid
//! escapes through unchanged.

use vstd::prelude::*;

use crate::bytes::{spec_contains_byte, spec_hex_value};

verus! {

/// ASCII digits and letters: the bytes the encoder leaves alone.
pub open spec fn is_ascii_alnum(b: u8) -> bool {
    (0x30 <= b <= 0x39) || (0x41 <= b <= 0x5A) || (0x61 <= b <= 0x7A)
}

/// The uppercase hex digit for a value below 16.
pub open spec fn spec_upper_hex_digit(v: u8) -> u8 {
    if v < 10 {
        (v + 0x30) as u8
    } else {
        (v - 10 + 0x41) as u8
    }
}

/// The percent encoding of `s` under the non-alphanumeric set.
pub open spec fn spec_percent_encode(s: Seq<u8>) -> Seq<u8>
    decreases s.len(),
{
    if s.len() == 0 {
        Seq::empty()
    } else if is_ascii_alnum(s[0]) {
        seq![s[0]] + spec_percent_encode(s.drop_first())
    } else {
        seq![0x25u8, spec_upper_hex_digit(s[0] / 16), spec_upper_hex_digit(s[0] % 16)]
            + spec_percent_encode(s.drop_first())
    }
}

/// The percent decoding of `s`: a `%` followed by two hex digits of either
/// case becomes the byte they spell, anything else passes through.
pub open spec fn spec_percent_decode(s: Seq<u8>) -> Seq<u8>
    decreases s.len(),
{
    if s.len() == 0 {
        Seq::empty()
    } else if s[0] == 0x25 && s.len() >= 3 && spec_hex_value(s[1]) is Some && spec_hex_value(
        s[2],
    ) is Some {
        seq![(spec_hex_value(s[1]).unwrap() * 16 + spec_hex_value(s[2]).unwrap()) as u8]
            + spec_percent_decode(s.skip(3))
    } else {
        seq![s[0]] + spec_percent_decode(s.drop_first())
    }
}

/// Relies on `percent_encoding::percent_encode` with the `NON_ALPHANUMERIC`
/// set: ASCII alphanumeric bytes are emitted as themselves, every other byte
/// as `%` followed by its two uppercase hex digits, in input order.
#[verifier::external_body]
pub(crate) fn percent_encode_bytes(s: &[u8]) -> (r: Vec<u8>)
    ensures
        r@ == spec_percent_encode(s@),
{
    percent_encoding::percent_encode(s, percent_encoding::NON_ALPHANUMERIC)
        .to_string()
        .into_bytes()
}

/// Relies on `percent_encoding::percent_decode`: each `%` followed by two hex
/// digits (either case) yields the byte they spell, every other byte is
/// passed through unchanged, in input order.
#[verifier::external_body]
pub(crate) fn percent_decode_bytes(s: &[u8]) -> (r: Vec<u8>)
    ensures
        r@ == spec_percent_decode(s@),
{
    percent_encoding::percent_decode(s).collect()
}

/// Uppercase hex digits carry their value.
proof fn lemma_upper_hex_digit_value(v: u8)
    requires
        v < 16,
    ensures
        spec_hex_value(spec_upper_hex_digit(v)) == Some(v),
{
}

/// The encoder emits no NUL and no comma: its output can be embedded in the
/// NUL- and comma-separated patch format.
pub proof fn lemma_percent_encode_free(s: Seq<u8>)
    ensures
        !spec_contains_byte(spec_percent_encode(s), 0),
        !spec_contains_byte(spec_percent_encode(s), 0x2C),
    decreases s.len(),
{
    if s.len() > 0 {
        lemma_percent_encode_free(s.drop_first());
        let e = spec_percent_encode(s);
        let rest = spec_percent_encode(s.drop_first());
        assert forall|i: int| 0 <= i < e.len() implies e[i] != 0 && e[i] != 0x2C by {
            if is_ascii_alnum(s[0]) {
                if i >= 1 {
                    assert(e[i] == rest[i - 1]);
                    assert(!spec_contains_byte(rest, 0));
                    assert(!spec_contains_byte(rest, 0x2C));
                }
            } else {
                if i >= 3 {
                    assert(e[i] == rest[i - 3]);
                    assert(!spec_contains_byte(rest, 0));
                    assert(!spec_contains_byte(rest, 0x2C));
                }
            }
        }
    }
}

/// Decoding an encoding yields the original bytes.
pub proof fn lemma_percent_roundtrip(s: Seq<u8>)
    ensures
        spec_percent_decode(spec_percent_encode(s)) == s,
    decreases s.len(),
{
    if s.len() > 0 {
        lemma_percent_roundtrip(s.drop_first());
        let e = spec_percent_encode(s);
        let rest = spec_percent_encode(s.drop_first());
        if is_ascii_alnum(s[0]) {
            assert(e =~= seq![s[0]] + rest);
            assert(e[0] == s[0]);
            assert(e[0] != 0x25);
            assert(e.drop_first() =~= rest);
            assert(spec_percent_decode(e) =~= seq![s[0]] + s.drop_first());
            assert(seq![s[0]] + s.drop_first() =~= s);
        } else {
            let hi = spec_upper_hex_digit(s[0] / 16);
            let lo = spec_upper_hex_digit(s[0] % 16);
            assert(e =~= seq![0x25u8, hi, lo] + rest);
            assert(e[0] == 0x25);
            assert(e[1] == hi);
            assert(e[2] == lo);
            lemma_upper_hex_digit_value(s[0] / 16);
            lemma_upper_hex_digit_value(s[0] % 16);
            vstd::arithmetic::div_mod::lemma_fundamental_div_mod(s[0] as int, 16);
            assert(e.skip(3) =~= rest);
            assert((spec_hex_value(e[1]).unwrap() * 16 + spec_hex_value(e[2]).unwrap()) as u8
                == s[0]);
            assert(spec_percent_decode(e) =~= seq![s[0]] + s.drop_first());
            assert(seq![s[0]] + s.drop_first() =~= s);
        }
    }
}

} // verus!
