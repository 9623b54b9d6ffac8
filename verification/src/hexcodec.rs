//! Hex encoding of fingerprint bytes.
//!
//! The executable encoding and decoding are delegated to the `hex` crate;
//! their exact behaviour is stated here over the spec functions `hex_of` and
//! `unhex_of`, and the round trip between the two is proved at the spec level.

use vstd::prelude::*;
use vstd::arithmetic::div_mod::lemma_fundamental_div_mod;

verus! {

/// The lowercase hex digit for a nibble value.
pub open spec fn hex_digit(n: int) -> char {
    if n == 0 { '0' } else if n == 1 { '1' } else if n == 2 { '2' }
    else if n == 3 { '3' } else if n == 4 { '4' } else if n == 5 { '5' }
    else if n == 6 { '6' } else if n == 7 { '7' } else if n == 8 { '8' }
    else if n == 9 { '9' } else if n == 10 { 'a' } else if n == 11 { 'b' }
    else if n == 12 { 'c' } else if n == 13 { 'd' } else if n == 14 { 'e' }
    else { 'f' }
}

/// A character that the decoder accepts: hex digits of either case.
pub open spec fn is_hex_char(c: char) -> bool {
    ('0' as int <= c as int <= '9' as int)
    || ('a' as int <= c as int <= 'f' as int)
    || ('A' as int <= c as int <= 'F' as int)
}

/// The nibble value of an accepted hex character.
pub open spec fn hex_char_val(c: char) -> int {
    if '0' as int <= c as int <= '9' as int {
        c as int - '0' as int
    } else if 'a' as int <= c as int <= 'f' as int {
        c as int - 'a' as int + 10
    } else {
        c as int - 'A' as int + 10
    }
}

/// Lowercase hex encoding of a byte sequence, high nibble first.
pub open spec fn hex_of(bytes: Seq<u8>) -> Seq<char>
    decreases bytes.len(),
{
    if bytes.len() == 0 {
        Seq::<char>::empty()
    } else {
        hex_of(bytes.drop_last())
            + seq![hex_digit(bytes.last() as int / 16), hex_digit(bytes.last() as int % 16)]
    }
}

/// Every character of the sequence is an accepted hex digit.
pub open spec fn is_hex_seq(s: Seq<char>) -> bool {
    forall|i: int| 0 <= i < s.len() ==> is_hex_char(#[trigger] s[i])
}

/// The bytes read from an even-length sequence of hex digits.
pub open spec fn unhex_of(s: Seq<char>) -> Seq<u8>
    decreases s.len(),
{
    if s.len() < 2 {
        Seq::<u8>::empty()
    } else {
        unhex_of(s.subrange(0, s.len() - 2))
            + seq![(hex_char_val(s[s.len() - 2]) * 16 + hex_char_val(s[s.len() - 1])) as u8]
    }
}

/// Relies on `hex::encode`: two lowercase digits per byte, high nibble first.
#[verifier::external_body]
pub fn hex_encode(bytes: &Vec<u8>) -> (r: String)
    ensures
        r@ == hex_of(bytes@),
{
    hex::encode(bytes.as_slice())
}

/// Relies on `hex::decode`: accepts exactly the even-length strings of hex
/// digits (either case) and returns their bytes, high nibble first.
#[verifier::external_body]
pub fn hex_decode(s: &str) -> (r: Option<Vec<u8>>)
    ensures
        (r is Some) == (is_hex_seq(s@) && s@.len() % 2 == 0),
        r matches Some(b) ==> b@ == unhex_of(s@),
{
    hex::decode(s).ok()
}

/// Each digit produced by `hex_digit` is accepted back with its value.
proof fn lemma_hex_digit_val(n: int)
    requires
        0 <= n < 16,
    ensures
        is_hex_char(hex_digit(n)),
        hex_char_val(hex_digit(n)) == n,
{
}

/// Hex encoding is two digits per byte and decodes back to the same bytes.
pub proof fn lemma_hex_round_trip(bytes: Seq<u8>)
    ensures
        hex_of(bytes).len() == 2 * bytes.len(),
        is_hex_seq(hex_of(bytes)),
        unhex_of(hex_of(bytes)) == bytes,
    decreases bytes.len(),
{
    if bytes.len() == 0 {
        assert(unhex_of(hex_of(bytes)) =~= bytes);
    } else {
        let prefix = bytes.drop_last();
        let b = bytes.last() as int;
        lemma_hex_round_trip(prefix);
        lemma_fundamental_div_mod(b, 16);
        lemma_hex_digit_val(b / 16);
        lemma_hex_digit_val(b % 16);
        let s = hex_of(bytes);
        assert(s =~= hex_of(prefix) + seq![hex_digit(b / 16), hex_digit(b % 16)]);
        assert(s.subrange(0, s.len() - 2) =~= hex_of(prefix));
        assert(unhex_of(hex_of(bytes)) =~= bytes);
    }
}

} // verus!
