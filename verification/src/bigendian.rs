//! Fixed-width big-endian integers.
//!
//! Ids, counters and list positions are stored most significant byte first,
//! so that the bytewise order of the encodings is the numeric order of the
//! values.

use vstd::prelude::*;
use crate::lex::{lemma_lex_push, lex_lt};

verus! {

/// 256 to the power `n`: the number of values that `n` bytes can hold.
pub open spec fn pow256(n: nat) -> nat
    decreases n,
{
    if n == 0 {
        1
    } else {
        256 * pow256((n - 1) as nat)
    }
}

/// The `n` low-order bytes of `x`, most significant first.
pub open spec fn be_bytes(x: nat, n: nat) -> Seq<u8>
    decreases n,
{
    if n == 0 {
        Seq::empty()
    } else {
        be_bytes(x / 256, (n - 1) as nat).push((x % 256) as u8)
    }
}

/// The number that a big-endian byte string denotes.
pub open spec fn be_value(s: Seq<u8>) -> nat
    decreases s.len(),
{
    if s.len() == 0 {
        0
    } else {
        be_value(s.drop_last()) * 256 + s.last() as nat
    }
}

/// A list position shifted by 2^63, so that the order of the unsigned images
/// is the order of the signed positions.
pub open spec fn biased(pos: i64) -> nat {
    (pos + 0x8000_0000_0000_0000) as nat
}

/// The two's-complement image of a signed 64-bit integer.
pub open spec fn twos_complement(x: i64) -> nat {
    if x >= 0 {
        x as nat
    } else {
        (x + 0x1_0000_0000_0000_0000) as nat
    }
}

/// The list position that a biased image stands for.
pub open spec fn unbiased(image: nat) -> i64 {
    (image - 0x8000_0000_0000_0000) as i64
}

/// The signed integer that two's-complement bits stand for.
pub open spec fn signed_of(bits: nat) -> i64 {
    if bits < 0x8000_0000_0000_0000 {
        bits as i64
    } else {
        (bits - 0x1_0000_0000_0000_0000) as i64
    }
}

/// The powers of 256 up to the eighth, written out.
pub proof fn lemma_pow256_values()
    ensures
        pow256(0) == 1,
        pow256(1) == 0x100,
        pow256(2) == 0x1_0000,
        pow256(3) == 0x100_0000,
        pow256(4) == 0x1_0000_0000,
        pow256(5) == 0x100_0000_0000,
        pow256(6) == 0x1_0000_0000_0000,
        pow256(7) == 0x100_0000_0000_0000,
        pow256(8) == 0x1_0000_0000_0000_0000,
{
    reveal_with_fuel(pow256, 10);
}

/// An encoding has exactly the width asked for.
pub proof fn lemma_be_len(x: nat, n: nat)
    ensures
        be_bytes(x, n).len() == n,
    decreases n,
{
    if n > 0 {
        lemma_be_len(x / 256, (n - 1) as nat);
    }
}

/// Decoding undoes encoding for every value that fits the width.
pub proof fn lemma_be_value_of_bytes(x: nat, n: nat)
    requires
        x < pow256(n),
    ensures
        be_value(be_bytes(x, n)) == x,
    decreases n,
{
    if n > 0 {
        let head = be_bytes(x / 256, (n - 1) as nat);
        lemma_be_value_of_bytes(x / 256, (n - 1) as nat);
        assert(be_bytes(x, n).drop_last() =~= head);
    }
}

/// Encoding undoes decoding, and a decoded value fits the width it came from.
pub proof fn lemma_be_bytes_of_value(s: Seq<u8>)
    ensures
        be_value(s) < pow256(s.len()),
        be_bytes(be_value(s), s.len()) == s,
    decreases s.len(),
{
    if s.len() > 0 {
        lemma_be_bytes_of_value(s.drop_last());
        let v = be_value(s.drop_last());
        assert((v * 256 + s.last() as nat) / 256 == v);
        assert((v * 256 + s.last() as nat) % 256 == s.last() as nat);
        assert(be_bytes(be_value(s), s.len()) =~= s);
    } else {
        assert(be_bytes(be_value(s), s.len()) =~= s);
    }
}

/// Distinct values that fit the width have distinct encodings.
pub proof fn lemma_be_injective(x: nat, y: nat, n: nat)
    requires
        x < pow256(n),
        y < pow256(n),
        be_bytes(x, n) == be_bytes(y, n),
    ensures
        x == y,
{
    lemma_be_value_of_bytes(x, n);
    lemma_be_value_of_bytes(y, n);
}

/// The bytewise order of two encodings of one width is the numeric order of
/// the values.
pub proof fn lemma_be_order(x: nat, y: nat, n: nat)
    requires
        x < pow256(n),
        y < pow256(n),
    ensures
        lex_lt(be_bytes(x, n), be_bytes(y, n)) == (x < y),
    decreases n,
{
    if n > 0 {
        let m = (n - 1) as nat;
        let a = be_bytes(x / 256, m);
        let b = be_bytes(y / 256, m);
        lemma_be_len(x / 256, m);
        lemma_be_len(y / 256, m);
        lemma_be_order(x / 256, y / 256, m);
        lemma_lex_push(a, (x % 256) as u8, b, (y % 256) as u8);
        if a == b {
            lemma_be_injective(x / 256, y / 256, m);
        }
    }
}

/// The bytewise order of the encoded biased positions is the order of the
/// positions.
pub proof fn lemma_biased_order(p: i64, q: i64)
    ensures
        lex_lt(be_bytes(biased(p), 8), be_bytes(biased(q), 8)) == (p < q),
        biased(p) < pow256(8),
        biased(q) < pow256(8),
{
    lemma_pow256_values();
    lemma_be_order(biased(p), biased(q), 8);
}

/// Biasing and two's complement are undone by their inverses.
pub proof fn lemma_signed_round_trip(x: i64)
    ensures
        unbiased(biased(x)) == x,
        signed_of(twos_complement(x)) == x,
        biased(x) < pow256(8),
        twos_complement(x) < pow256(8),
{
    lemma_pow256_values();
}

/// Writes the `width` low-order bytes of `x`, most significant first.
pub fn encode_be(x: u64, width: usize) -> (r: Vec<u8>)
    requires
        width <= 8,
    ensures
        r@ == be_bytes(x as nat, width as nat),
        r@.len() == width,
{
    let mut out: Vec<u8> = Vec::new();
    let mut k: usize = 0;
    while k < width
        invariant
            k <= width,
            out@.len() == k,
        decreases width - k,
    {
        out.push(0u8);
        k += 1;
    }
    let mut rest: u64 = x;
    let mut i: usize = width;
    while i > 0
        invariant
            i <= width,
            out@.len() == width,
            be_bytes(x as nat, width as nat) == be_bytes(rest as nat, i as nat) + out@.subrange(
                i as int,
                width as int,
            ),
        decreases i,
    {
        let ghost before = out@;
        let low: u8 = (rest % 256) as u8;
        out.set(i - 1, low);
        proof {
            let head = be_bytes((rest / 256) as nat, (i - 1) as nat);
            assert(be_bytes(rest as nat, i as nat) == head.push(low));
            lemma_be_len((rest / 256) as nat, (i - 1) as nat);
            assert(head.push(low) + before.subrange(i as int, width as int) =~= head + out@.subrange(
                i - 1,
                width as int,
            ));
        }
        rest = rest / 256;
        i -= 1;
    }
    proof {
        assert(be_bytes(rest as nat, 0) + out@.subrange(0, width as int) =~= out@);
        lemma_be_len(x as nat, width as nat);
    }
    out
}

/// Reads the big-endian number held in `width` bytes of `bytes` from `at` on.
pub fn decode_be(bytes: &[u8], at: usize, width: usize) -> (r: u64)
    requires
        width <= 8,
        at + width <= bytes@.len(),
    ensures
        r as nat == be_value(bytes@.subrange(at as int, at + width)),
        (r as nat) < pow256(width as nat),
{
    let mut value: u64 = 0;
    let mut i: usize = 0;
    let total: usize = bytes.len();
    proof {
        lemma_pow256_values();
    }
    while i < width
        invariant
            i <= width <= 8,
            at + width <= total,
            total == bytes@.len(),
            value as nat == be_value(bytes@.subrange(at as int, at + i)),
            (value as nat) < pow256(i as nat),
        decreases width - i,
    {
        let b: u8 = bytes[at + i];
        proof {
            let next = bytes@.subrange(at as int, at + i + 1);
            assert(next.drop_last() =~= bytes@.subrange(at as int, at + i));
            assert(next.last() == b);
            lemma_pow256_values();
            assert(pow256(i as nat) <= pow256(7)) by {
                reveal_with_fuel(pow256, 10);
            }
            assert(pow256((i + 1) as nat) == 256 * pow256(i as nat));
        }
        value = value * 256 + b as u64;
        i += 1;
    }
    value
}

/// Encodes an unsigned 64-bit integer in eight bytes.
pub fn encode_u64(x: u64) -> (r: Vec<u8>)
    ensures
        r@ == be_bytes(x as nat, 8),
        r@.len() == 8,
{
    encode_be(x, 8)
}

/// Decodes the unsigned 64-bit integer held in the eight bytes from `at` on.
pub fn decode_u64(bytes: &[u8], at: usize) -> (r: u64)
    requires
        at + 8 <= bytes@.len(),
    ensures
        r as nat == be_value(bytes@.subrange(at as int, at + 8)),
{
    decode_be(bytes, at, 8)
}

/// Encodes an unsigned 32-bit integer in four bytes.
pub fn encode_u32(x: u32) -> (r: Vec<u8>)
    ensures
        r@ == be_bytes(x as nat, 4),
        r@.len() == 4,
{
    encode_be(x as u64, 4)
}

/// Decodes the unsigned 32-bit integer held in the four bytes from `at` on.
pub fn decode_u32(bytes: &[u8], at: usize) -> (r: u32)
    requires
        at + 4 <= bytes@.len(),
    ensures
        r as nat == be_value(bytes@.subrange(at as int, at + 4)),
{
    let v = decode_be(bytes, at, 4);
    proof {
        lemma_pow256_values();
    }
    v as u32
}

/// The unsigned image of a list position: the position plus 2^63.
pub fn bias_position(pos: i64) -> (r: u64)
    ensures
        r as nat == biased(pos),
{
    if pos >= 0 {
        pos as u64 + 0x8000_0000_0000_0000u64
    } else {
        (pos + i64::MAX + 1) as u64
    }
}

/// The list position that an unsigned image stands for.
pub fn unbias_position(image: u64) -> (r: i64)
    ensures
        r == unbiased(image as nat),
        biased(r) == image as nat,
{
    if image >= 0x8000_0000_0000_0000u64 {
        (image - 0x8000_0000_0000_0000u64) as i64
    } else {
        (image as i64) - i64::MAX - 1
    }
}

/// The two's-complement bits of a signed integer, as an unsigned one.
pub fn signed_to_bits(x: i64) -> (r: u64)
    ensures
        r as nat == twos_complement(x),
{
    if x >= 0 {
        x as u64
    } else {
        u64::MAX - ((-(x + 1)) as u64)
    }
}

/// The signed integer whose two's-complement bits are `bits`.
pub fn bits_to_signed(bits: u64) -> (r: i64)
    ensures
        r == signed_of(bits as nat),
        twos_complement(r) == bits as nat,
{
    if bits <= 0x7FFF_FFFF_FFFF_FFFFu64 {
        bits as i64
    } else {
        -((u64::MAX - bits) as i64) - 1
    }
}

} // verus!
