//! The length of the transform behind the convolution in the frequency
//! domain.

use vstd::prelude::*;
use crate::fenwick::single_bit;

verus! {

/// Samples of the full convolution of a trace of `trace_len` samples with a
/// kernel of `kernel_len` taps; one sample at least.
pub open spec fn full_length(trace_len: int, kernel_len: int) -> int {
    if trace_len + kernel_len - 1 < 1 {
        1
    } else {
        trace_len + kernel_len - 1
    }
}

/// `p` is the smallest power of two that is at least `n`.
pub open spec fn is_next_power(p: usize, n: int) -> bool {
    &&& single_bit(p)
    &&& n <= p
    &&& p == 1 || p / 2 < n
}

/// Whether `p` samples hold the full convolution. The sum of the two lengths
/// may not fit the machine, so it is never formed.
fn holds(p: usize, trace_len: usize, kernel_len: usize) -> (enough: bool)
    ensures
        enough == (p >= full_length(trace_len as int, kernel_len as int)),
{
    if kernel_len == 0 {
        p >= 1 && (trace_len == 0 || p >= trace_len - 1)
    } else {
        p >= 1 && p >= trace_len && p - trace_len >= kernel_len - 1
    }
}

/// The length of the transform: the smallest power of two that holds the full
/// convolution, or `None` where no such length fits the machine.
pub fn plan_length(trace_len: usize, kernel_len: usize) -> (len: Option<usize>)
    ensures
        len matches Some(p) ==> is_next_power(p, full_length(trace_len as int, kernel_len as int)),
        len is None <==> (forall|p: usize|
            single_bit(p) ==> p < full_length(trace_len as int, kernel_len as int)),
{
    let mut p: usize = 1;
    assert(single_bit(1usize)) by (bit_vector);
    while !holds(p, trace_len, kernel_len)
        invariant
            single_bit(p),
            p == 1 || p / 2 < full_length(trace_len as int, kernel_len as int),
        decreases usize::MAX - p,
    {
        if p > usize::MAX / 2 {
            proof {
                let n = full_length(trace_len as int, kernel_len as int);
                assert forall|q: usize| single_bit(q) implies q < n by {
                    lemma_powers_are_nested(p, q);
                }
            }
            return None;
        }
        proof {
            assert(single_bit((2 * p) as usize) && (2 * p) as usize / 2 == p) by (bit_vector)
                requires
                    single_bit(p),
                    (2 * p) as usize > p,
            ;
        }
        p = 2 * p;
    }
    proof {
        let n = full_length(trace_len as int, kernel_len as int);
        assert(n <= p);
        if forall|q: usize| single_bit(q) ==> q < n {
            assert(p < n);
        }
    }
    Some(p)
}

/// Of two powers of two the larger is at least twice the smaller, so no power
/// of two lies above one that is more than half of the largest number.
proof fn lemma_powers_are_nested(p: usize, q: usize)
    requires
        single_bit(p),
        single_bit(q),
        p > usize::MAX / 2,
    ensures
        q <= p,
{
    assert(q <= p) by (bit_vector)
        requires
            single_bit(p),
            single_bit(q),
            p > (!0usize) / 2,
    ;
    assert(usize::MAX == !0usize) by {
        assert(!0u32 == 0xffff_ffffu32) by (bit_vector);
        assert(!0u64 == 0xffff_ffff_ffff_ffffu64) by (bit_vector);
    }
}

} // verus!
