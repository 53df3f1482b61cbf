//! Single-precision samples as their bit patterns, and the integer keys that
//! put them in one line: negative values first, then positive ones, and what
//! is not a number last.

use vstd::prelude::*;

verus! {

/// The pattern without its sign bit.
pub open spec fn magnitude(bits: u32) -> int {
    bits as int % 0x8000_0000
}

/// Whether the sign bit is set.
pub open spec fn is_negative(bits: u32) -> bool {
    bits >= 0x8000_0000
}

/// Whether the pattern stands for no number.
pub open spec fn is_nan(bits: u32) -> bool {
    magnitude(bits) > 0x7f80_0000
}

/// The key of a pattern. Numbers keep their order, with minus zero before
/// zero; what is not a number comes after every number, whatever its sign.
pub open spec fn key_of(bits: u32) -> int {
    if is_nan(bits) {
        magnitude(bits)
    } else if is_negative(bits) {
        -1 - magnitude(bits)
    } else {
        bits as int
    }
}

/// The pattern that a key stands for.
pub open spec fn bits_of(key: i32) -> int {
    if key >= 0 {
        key as int
    } else {
        0x7fff_ffff - key
    }
}

/// The keys of a trace, sample by sample.
pub open spec fn keys_of(samples: Seq<u32>) -> Seq<i32> {
    Seq::new(samples.len(), |i: int| key_of(samples[i]) as i32)
}

/// The key by which a sample is ordered.
pub fn order_key(bits: u32) -> (key: i32)
    ensures
        key == key_of(bits),
{
    let negative: bool = bits >= 0x8000_0000;
    let mag: u32 = if negative {
        bits - 0x8000_0000
    } else {
        bits
    };
    if mag > 0x7f80_0000 || !negative {
        mag as i32
    } else {
        -1 - (mag as i32)
    }
}

/// The sample that a key stands for.
pub fn key_bits(key: i32) -> (bits: u32)
    ensures
        bits == bits_of(key),
{
    if key >= 0 {
        key as u32
    } else {
        (0x7fff_ffffi64 - key as i64) as u32
    }
}

/// A key gives back the sample it was made from, but for the sign of what is
/// not a number.
pub proof fn lemma_key_roundtrip(bits: u32)
    ensures
        !(is_nan(bits) && is_negative(bits)) ==> bits_of(key_of(bits) as i32) == bits,
        is_nan(bits) ==> bits_of(key_of(bits) as i32) == magnitude(bits),
        i32::MIN <= key_of(bits) <= i32::MAX,
{
}

/// The order of the keys is the order of the numbers they stand for, with
/// what is not a number last.
pub proof fn lemma_key_order(a: u32, b: u32)
    ensures
        !is_nan(a) && is_nan(b) ==> key_of(a) < key_of(b),
        !is_nan(a) && !is_nan(b) ==> (key_of(a) < key_of(b) <==> {
            ||| is_negative(a) && !is_negative(b)
            ||| !is_negative(a) && !is_negative(b) && magnitude(a) < magnitude(b)
            ||| is_negative(a) && is_negative(b) && magnitude(a) > magnitude(b)
        }),
        key_of(a) == key_of(b) <==> a == b || (is_nan(a) && is_nan(b) && magnitude(a)
            == magnitude(b)),
{
}

} // verus!
