//! Fingerprint derivation for watermark bit vectors.
//!
//! A bit vector is a sequence of soft bit estimates, carried as fixed-point
//! fractions of [`SOFT_ONE`].  Each value is hard-thresholded at one half
//! (values at or above the half count as 1), the bits are packed eight per
//! byte with the most significant bit first, one extra zero byte is appended
//! when the bit count is not a multiple of eight, and the bytes are
//! hex-encoded.  The result is a lossy, deterministic index key.

use vstd::prelude::*;
use vstd::arithmetic::div_mod::{
    lemma_fundamental_div_mod, lemma_mod_multiples_vanish, lemma_small_mod,
};
use crate::hexcodec::{hex_of, is_hex_seq, unhex_of, hex_encode, hex_decode, lemma_hex_round_trip};

verus! {

/// Fixed-point representation of the soft value 1.0.
pub const SOFT_ONE: u32 = 1_000_000;

/// Fixed-point representation of the threshold 0.5.
pub const SOFT_HALF: u32 = 500_000;

/// The hard bit obtained from one soft value: 1 at or above one half.
pub open spec fn threshold_bit(v: u32) -> bool {
    v >= SOFT_HALF
}

/// The hard bits of a whole soft-bit vector.
pub open spec fn threshold_seq(vals: Seq<u32>) -> Seq<bool> {
    Seq::new(vals.len(), |i: int| threshold_bit(vals[i]))
}

/// The bit at position `k`, reading positions past the end as 0.
pub open spec fn bit_at(bits: Seq<bool>, k: int) -> bool {
    0 <= k < bits.len() && bits[k]
}

/// `bit_at` as the integer 0 or 1.
pub open spec fn bitv(bits: Seq<bool>, k: int) -> int {
    if bit_at(bits, k) { 1int } else { 0int }
}

/// The byte packed from the eight bits starting at `start`, MSB first.
pub open spec fn pack_byte(bits: Seq<bool>, start: int) -> u8 {
    (128 * bitv(bits, start) + 64 * bitv(bits, start + 1) + 32 * bitv(bits, start + 2)
        + 16 * bitv(bits, start + 3) + 8 * bitv(bits, start + 4) + 4 * bitv(bits, start + 5)
        + 2 * bitv(bits, start + 6) + bitv(bits, start + 7)) as u8
}

/// How many bytes the packing of `n` bits fills, the last one partially.
pub open spec fn chunk_count(n: int) -> int {
    if n % 8 == 0 { n / 8 } else { n / 8 + 1 }
}

/// The packed bytes of a bit sequence: one byte per chunk of eight bits,
/// and one extra zero byte when the bit count is not a multiple of eight.
pub open spec fn packed_bytes(bits: Seq<bool>) -> Seq<u8> {
    let main = Seq::new(chunk_count(bits.len() as int) as nat, |i: int| pack_byte(bits, 8 * i));
    if bits.len() % 8 == 0 { main } else { main + seq![0u8] }
}

/// The fingerprint of a soft-bit vector: hex of the packed thresholded bits.
pub open spec fn fingerprint_spec(vals: Seq<u32>) -> Seq<char> {
    hex_of(packed_bytes(threshold_seq(vals)))
}

/// The eight bits read back from one byte, MSB first.
pub open spec fn bits_of_byte(b: u8) -> Seq<bool> {
    seq![
        b >= 128, b % 128 >= 64, b % 64 >= 32, b % 32 >= 16,
        b % 16 >= 8, b % 8 >= 4, b % 4 >= 2, b % 2 >= 1,
    ]
}

/// The bits read back from a byte sequence, eight per byte.
pub open spec fn unpacked_bits(bytes: Seq<u8>) -> Seq<bool>
    decreases bytes.len(),
{
    if bytes.len() == 0 {
        Seq::<bool>::empty()
    } else {
        unpacked_bits(bytes.drop_last()) + bits_of_byte(bytes.last())
    }
}

/// Thresholds every soft value of a vector.
pub fn threshold(vals: &Vec<u32>) -> (r: Vec<bool>)
    ensures
        r@ == threshold_seq(vals@),
{
    let mut r: Vec<bool> = Vec::new();
    let mut i: usize = 0;
    while i < vals.len()
        invariant
            i <= vals@.len(),
            r@ =~= threshold_seq(vals@).subrange(0, i as int),
        decreases vals@.len() - i,
    {
        r.push(vals[i] >= SOFT_HALF);
        i += 1;
    }
    assert(r@ =~= threshold_seq(vals@));
    r
}

/// Packs a bit sequence into bytes, MSB first, with the extra zero byte
/// after a trailing partial chunk.
#[verifier::rlimit(100)]
pub fn pack_bits(bits: &Vec<bool>) -> (r: Vec<u8>)
    requires
        bits@.len() < usize::MAX / 8,
    ensures
        r@ == packed_bytes(bits@),
{
    let n = bits.len();
    let c: usize = if n % 8 == 0 { n / 8 } else { n / 8 + 1 };
    assert(c == chunk_count(n as int));
    let mut out: Vec<u8> = Vec::new();
    let mut i: usize = 0;
    while i < c
        invariant
            i <= c,
            c == chunk_count(bits@.len() as int),
            bits@.len() < usize::MAX / 8,
            n == bits@.len(),
            out@ =~= Seq::new(i as nat, |j: int| pack_byte(bits@, 8 * j)),
        decreases c - i,
    {
        let base = i * 8;
        let b0: u8 = if base < n && bits[base] { 128 } else { 0 };
        let b1: u8 = if base + 1 < n && bits[base + 1] { 64 } else { 0 };
        let b2: u8 = if base + 2 < n && bits[base + 2] { 32 } else { 0 };
        let b3: u8 = if base + 3 < n && bits[base + 3] { 16 } else { 0 };
        let b4: u8 = if base + 4 < n && bits[base + 4] { 8 } else { 0 };
        let b5: u8 = if base + 5 < n && bits[base + 5] { 4 } else { 0 };
        let b6: u8 = if base + 6 < n && bits[base + 6] { 2 } else { 0 };
        let b7: u8 = if base + 7 < n && bits[base + 7] { 1 } else { 0 };
        let byte: u8 = b0 + b1 + b2 + b3 + b4 + b5 + b6 + b7;
        proof {
            let s = 8 * i as int;
            assert(b0 == 128 * bitv(bits@, s) && b1 == 64 * bitv(bits@, s + 1)
                && b2 == 32 * bitv(bits@, s + 2) && b3 == 16 * bitv(bits@, s + 3)
                && b4 == 8 * bitv(bits@, s + 4) && b5 == 4 * bitv(bits@, s + 5)
                && b6 == 2 * bitv(bits@, s + 6) && b7 == bitv(bits@, s + 7));
            assert(byte == pack_byte(bits@, s));
            let prev = out@;
            assert(prev.push(byte) =~= Seq::new((i + 1) as nat, |j: int| pack_byte(bits@, 8 * j)));
        }
        out.push(byte);
        i += 1;
    }
    if n % 8 != 0 {
        out.push(0);
    }
    assert(out@ =~= packed_bytes(bits@));
    out
}

/// The fingerprint of a soft-bit vector, as the index key string.
pub fn fingerprint(vals: &Vec<u32>) -> (r: String)
    requires
        vals@.len() < usize::MAX / 8,
    ensures
        r@ == fingerprint_spec(vals@),
{
    let bits = threshold(vals);
    let bytes = pack_bits(&bits);
    hex_encode(&bytes)
}

/// Reads the bits back out of a fingerprint string.  Returns `None` exactly
/// when the string is not an even-length string of hex digits.
#[verifier::rlimit(100)]
pub fn decode_fingerprint(s: &str) -> (r: Option<Vec<bool>>)
    ensures
        (r is Some) == (is_hex_seq(s@) && s@.len() % 2 == 0),
        r matches Some(b) ==> b@ == unpacked_bits(unhex_of(s@)),
{
    match hex_decode(s) {
        None => None,
        Some(bytes) => {
            let mut r: Vec<bool> = Vec::new();
            let mut i: usize = 0;
            while i < bytes.len()
                invariant
                    i <= bytes@.len(),
                    r@ =~= unpacked_bits(bytes@.subrange(0, i as int)),
                decreases bytes@.len() - i,
            {
                let ghost prev = r@;
                let b = bytes[i];
                r.push(b >= 128);
                r.push(b % 128 >= 64);
                r.push(b % 64 >= 32);
                r.push(b % 32 >= 16);
                r.push(b % 16 >= 8);
                r.push(b % 8 >= 4);
                r.push(b % 4 >= 2);
                r.push(b % 2 >= 1);
                proof {
                    let pre = bytes@.subrange(0, i as int);
                    let cur = bytes@.subrange(0, i + 1);
                    assert(cur.drop_last() =~= pre);
                    assert(cur.last() == bytes@[i as int]);
                    assert(r@ =~= prev + bits_of_byte(b));
                    assert(r@ =~= unpacked_bits(cur));
                }
                i += 1;
            }
            assert(bytes@.subrange(0, bytes@.len() as int) =~= bytes@);
            Some(r)
        },
    }
}

/// Splitting a byte built from eight 0/1 weights recovers the weights.
#[verifier::rlimit(100)]
proof fn lemma_byte_decomposition(x0: int, x1: int, x2: int, x3: int, x4: int, x5: int, x6: int, x7: int)
    requires
        0 <= x0 <= 1, 0 <= x1 <= 1, 0 <= x2 <= 1, 0 <= x3 <= 1,
        0 <= x4 <= 1, 0 <= x5 <= 1, 0 <= x6 <= 1, 0 <= x7 <= 1,
    ensures
        ({
            let b = (128 * x0 + 64 * x1 + 32 * x2 + 16 * x3 + 8 * x4 + 4 * x5 + 2 * x6 + x7) as u8;
            bits_of_byte(b) =~= seq![x0 == 1, x1 == 1, x2 == 1, x3 == 1, x4 == 1, x5 == 1, x6 == 1, x7 == 1]
        }),
{
    let v = 128 * x0 + 64 * x1 + 32 * x2 + 16 * x3 + 8 * x4 + 4 * x5 + 2 * x6 + x7;
    let b = v as u8;
    assert(0 <= v <= 255);
    assert(b == v);
    let r1 = 64 * x1 + 32 * x2 + 16 * x3 + 8 * x4 + 4 * x5 + 2 * x6 + x7;
    assert(v % 128 == r1) by {
        lemma_mod_multiples_vanish(x0, r1, 128);
        lemma_small_mod(r1 as nat, 128);
    }
    let r2 = 32 * x2 + 16 * x3 + 8 * x4 + 4 * x5 + 2 * x6 + x7;
    assert(v % 64 == r2) by {
        lemma_mod_multiples_vanish(2 * x0 + x1, r2, 64);
        lemma_small_mod(r2 as nat, 64);
    }
    let r3 = 16 * x3 + 8 * x4 + 4 * x5 + 2 * x6 + x7;
    assert(v % 32 == r3) by {
        lemma_mod_multiples_vanish(4 * x0 + 2 * x1 + x2, r3, 32);
        lemma_small_mod(r3 as nat, 32);
    }
    let r4 = 8 * x4 + 4 * x5 + 2 * x6 + x7;
    assert(v % 16 == r4) by {
        lemma_mod_multiples_vanish(8 * x0 + 4 * x1 + 2 * x2 + x3, r4, 16);
        lemma_small_mod(r4 as nat, 16);
    }
    let r5 = 4 * x5 + 2 * x6 + x7;
    assert(v % 8 == r5) by {
        lemma_mod_multiples_vanish(16 * x0 + 8 * x1 + 4 * x2 + 2 * x3 + x4, r5, 8);
        lemma_small_mod(r5 as nat, 8);
    }
    let r6 = 2 * x6 + x7;
    assert(v % 4 == r6) by {
        lemma_mod_multiples_vanish(32 * x0 + 16 * x1 + 8 * x2 + 4 * x3 + 2 * x4 + x5, r6, 4);
        lemma_small_mod(r6 as nat, 4);
    }
    let r7 = x7;
    assert(v % 2 == r7) by {
        lemma_mod_multiples_vanish(64 * x0 + 32 * x1 + 16 * x2 + 8 * x3 + 4 * x4 + 2 * x5 + x6, r7, 2);
        lemma_small_mod(r7 as nat, 2);
    }
}

/// Reading a packed byte back gives the eight source bits.
proof fn lemma_pack_byte_bits(bits: Seq<bool>, start: int)
    ensures
        bits_of_byte(pack_byte(bits, start)) =~= Seq::new(8, |j: int| bit_at(bits, start + j)),
{
    lemma_byte_decomposition(
        bitv(bits, start), bitv(bits, start + 1), bitv(bits, start + 2), bitv(bits, start + 3),
        bitv(bits, start + 4), bitv(bits, start + 5), bitv(bits, start + 6), bitv(bits, start + 7),
    );
}

/// Unpacking yields eight bits per byte.
proof fn lemma_unpacked_len(bytes: Seq<u8>)
    ensures
        unpacked_bits(bytes).len() == 8 * bytes.len(),
    decreases bytes.len(),
{
    if bytes.len() > 0 {
        lemma_unpacked_len(bytes.drop_last());
    }
}

/// The bits unpacked from byte `i` stand at positions `8 * i ..`.
proof fn lemma_unpacked_index(bytes: Seq<u8>, i: int, j: int)
    requires
        0 <= i < bytes.len(),
        0 <= j < 8,
    ensures
        unpacked_bits(bytes)[8 * i + j] == bits_of_byte(bytes[i])[j],
    decreases bytes.len(),
{
    lemma_unpacked_len(bytes.drop_last());
    if i == bytes.len() - 1 {
    } else {
        lemma_unpacked_index(bytes.drop_last(), i, j);
    }
}

/// Unpacking the packed bytes recovers every bit, with zeros past the end.
proof fn lemma_unpack_packed(bits: Seq<bool>)
    ensures
        unpacked_bits(packed_bytes(bits)).len() == 8 * packed_bytes(bits).len(),
        8 * packed_bytes(bits).len() >= bits.len(),
        forall|k: int| 0 <= k < 8 * packed_bytes(bits).len()
            ==> unpacked_bits(packed_bytes(bits))[k] == bit_at(bits, k),
{
    let n = bits.len() as int;
    let c = chunk_count(n);
    let pb = packed_bytes(bits);
    lemma_fundamental_div_mod(n, 8);
    lemma_unpacked_len(pb);
    assert forall|k: int| 0 <= k < 8 * pb.len()
        implies unpacked_bits(pb)[k] == bit_at(bits, k) by {
        let i = k / 8;
        let j = k % 8;
        lemma_fundamental_div_mod(k, 8);
        lemma_unpacked_index(pb, i, j);
        if i < c {
            assert(pb[i] == pack_byte(bits, 8 * i));
            lemma_pack_byte_bits(bits, 8 * i);
            assert(bits_of_byte(pb[i])[j] == bit_at(bits, 8 * i + j));
        } else {
            assert(n % 8 != 0 && i == c);
            assert(pb[i] == 0u8);
            assert(!bits_of_byte(0u8)[j]);
            assert(8 * i >= n);
        }
    }
}

/// Fingerprint derivation is deterministic: equal inputs give equal keys.
pub proof fn lemma_fingerprint_deterministic(a: Seq<u32>, b: Seq<u32>)
    requires
        a == b,
    ensures
        fingerprint_spec(a) == fingerprint_spec(b),
{
}

/// Decoding a fingerprint recovers exactly the thresholded bits, followed by
/// zero padding up to the packed byte count.
pub proof fn lemma_fingerprint_round_trip(vals: Seq<u32>)
    ensures
        is_hex_seq(fingerprint_spec(vals)),
        fingerprint_spec(vals).len() % 2 == 0,
        unhex_of(fingerprint_spec(vals)) == packed_bytes(threshold_seq(vals)),
        unpacked_bits(packed_bytes(threshold_seq(vals))).len()
            == 8 * packed_bytes(threshold_seq(vals)).len(),
        vals.len() <= 8 * packed_bytes(threshold_seq(vals)).len(),
        unpacked_bits(packed_bytes(threshold_seq(vals))).subrange(0, vals.len() as int)
            =~= threshold_seq(vals),
        forall|k: int| vals.len() <= k < 8 * packed_bytes(threshold_seq(vals)).len()
            ==> !unpacked_bits(packed_bytes(threshold_seq(vals)))[k],
{
    let bits = threshold_seq(vals);
    let pb = packed_bytes(bits);
    let up = unpacked_bits(pb);
    lemma_hex_round_trip(pb);
    lemma_unpack_packed(bits);
    assert(fingerprint_spec(vals).len() == 2 * pb.len());
    assert forall|k: int| 0 <= k < bits.len() implies up[k] == bits[k] by {
        assert(up[k] == bit_at(bits, k));
    }
    assert(up.subrange(0, vals.len() as int) =~= bits);
    assert forall|k: int| vals.len() <= k < 8 * pb.len() implies !up[k] by {
        assert(up[k] == bit_at(bits, k));
    }
}

/// Soft-bit vectors of equal length whose thresholded bits differ anywhere
/// get different fingerprints.
pub proof fn lemma_fingerprint_separates(a: Seq<u32>, b: Seq<u32>)
    requires
        a.len() == b.len(),
        threshold_seq(a) != threshold_seq(b),
    ensures
        fingerprint_spec(a) != fingerprint_spec(b),
{
    if fingerprint_spec(a) == fingerprint_spec(b) {
        lemma_fingerprint_round_trip(a);
        lemma_fingerprint_round_trip(b);
        assert(packed_bytes(threshold_seq(a)) == packed_bytes(threshold_seq(b)));
        assert(threshold_seq(a) =~= threshold_seq(b));
    }
}

} // verus!
