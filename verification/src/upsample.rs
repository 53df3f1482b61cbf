//! Spike counts between the frame rate and the finer rate at which spikes are
//! inferred: a count is spread over the fine bins of its frame, and fine bins
//! are summed back into frames.

use vstd::prelude::*;
use vstd::arithmetic::div_mod::{lemma_fundamental_div_mod, lemma_fundamental_div_mod_converse};

verus! {

/// The number of fine bins that a frame is cut into: `factor`, and one where
/// `factor` is zero.
pub open spec fn bins_per_frame(factor: int) -> int {
    if factor <= 1 {
        1
    } else {
        factor
    }
}

/// The spikes of every frame put into the first fine bins of that frame, one
/// spike to a bin; what does not fit into the frame is left out.
pub open spec fn binary_of(counts: Seq<usize>, bins: int) -> Seq<usize> {
    Seq::new(
        (counts.len() * bins) as nat,
        |idx: int|
            if idx % bins < counts[idx / bins] {
                1usize
            } else {
                0usize
            },
    )
}

/// Sum of the samples `s[lo..hi]`.
pub open spec fn range_sum(s: Seq<usize>, lo: int, hi: int) -> int
    decreases hi - lo,
{
    if hi <= lo {
        0
    } else {
        range_sum(s, lo, hi - 1) + s[hi - 1]
    }
}

/// The sums of the full frames of `bins` fine bins each; samples past the last
/// full frame are left out.
pub open spec fn frame_sums(s: Seq<usize>, bins: int) -> Seq<int> {
    Seq::new((s.len() / bins as nat) as nat, |i: int| range_sum(s, i * bins, i * bins + bins))
}

/// A run of one frame that starts with `m` ones and goes on with zeros sums
/// to `m`.
proof fn lemma_step_sum(s: Seq<usize>, lo: int, m: int, k: int)
    requires
        0 <= lo,
        0 <= k,
        0 <= m,
        lo + k <= s.len(),
        forall|j: int| 0 <= j < k ==> #[trigger] s[lo + j] == (if j < m {
            1usize
        } else {
            0usize
        }),
    ensures
        range_sum(s, lo, lo + k) == (if k < m {
            k
        } else {
            m
        }),
    decreases k,
{
    if k > 0 {
        lemma_step_sum(s, lo, m, k - 1);
        assert(s[lo + (k - 1)] == (if k - 1 < m {
            1usize
        } else {
            0usize
        }));
    }
}

/// Fine bin `j` of frame `i` is sample `i * bins + j`.
proof fn lemma_bin_index(i: int, bins: int, j: int)
    requires
        0 <= i,
        0 <= j < bins,
    ensures
        (i * bins + j) / bins == i,
        (i * bins + j) % bins == j,
        i * bins + j >= 0,
{
    lemma_fundamental_div_mod_converse(i * bins + j, bins, i, j);
    assert(i * bins >= 0) by (nonlinear_arith)
        requires
            0 <= i,
            0 < bins,
    ;
}

/// A count as the fine bins of one frame can hold it.
pub open spec fn held_count(count: usize, bins: int) -> int {
    if count < bins {
        count as int
    } else {
        bins
    }
}

/// Summing the fine bins of every frame gives the spikes that were put into
/// the frame: the count of the frame, or as many as the frame has bins.
pub proof fn lemma_frame_sums_of_binary(counts: Seq<usize>, factor: int)
    requires
        0 <= factor,
    ensures
        frame_sums(binary_of(counts, bins_per_frame(factor)), bins_per_frame(factor))
            == counts.map_values(|c: usize| held_count(c, bins_per_frame(factor))),
{
    let bins = bins_per_frame(factor);
    let fine = binary_of(counts, bins);
    let n = counts.len() as int;
    assert(fine.len() == n * bins);
    lemma_bin_index(n, bins, 0);
    assert((fine.len() / bins as nat) as int == n);
    let sums = frame_sums(fine, bins);
    assert forall|i: int| 0 <= i < n implies sums[i] == held_count(counts[i], bins) by {
        let m = counts[i] as int;
        assert(i * bins + bins <= n * bins) by (nonlinear_arith)
            requires
                0 <= i < n,
                0 < bins,
        ;
        assert forall|j: int| 0 <= j < bins implies #[trigger] fine[i * bins + j] == (if j < m {
            1usize
        } else {
            0usize
        }) by {
            lemma_bin_index(i, bins, j);
        }
        lemma_bin_index(i, bins, 0);
        lemma_step_sum(fine, i * bins, m, bins);
    }
    assert(sums =~= counts.map_values(|c: usize| held_count(c, bins)));
}

/// Summing the fine bins of every frame gives back the counts that were
/// spread over them, as long as no count is larger than the factor.
pub proof fn lemma_roundtrip(counts: Seq<usize>, factor: int)
    requires
        0 <= factor,
        forall|i: int| 0 <= i < counts.len() ==> counts[i] <= factor,
    ensures
        frame_sums(binary_of(counts, bins_per_frame(factor)), bins_per_frame(factor))
            == counts.map_values(|c: usize| c as int),
{
    let bins = bins_per_frame(factor);
    lemma_frame_sums_of_binary(counts, factor);
    assert(counts.map_values(|c: usize| held_count(c, bins)) =~= counts.map_values(
        |c: usize| c as int,
    ));
}

/// Spreads the spikes of every frame over the fine bins of that frame: of the
/// `factor` bins of a frame with count `c` the first `min(c, factor)` hold
/// one, the others zero. With a factor of one or zero a frame is one bin, which
/// holds one where the count is positive.
pub fn upsample_counts_to_binary(counts: &[usize], factor: usize) -> (out: Vec<usize>)
    requires
        counts.len() * factor <= usize::MAX,
    ensures
        out@ == binary_of(counts@, bins_per_frame(factor as int)),
{
    let bins: usize = if factor <= 1 {
        1
    } else {
        factor
    };
    let n: usize = counts.len();
    let mut out: Vec<usize> = Vec::new();
    let mut i: usize = 0;
    while i < n
        invariant
            n == counts.len(),
            bins == bins_per_frame(factor as int),
            i <= n,
            out.len() == i * bins,
            forall|idx: int|
                0 <= idx < out.len() ==> #[trigger] out[idx] == binary_of(counts@, bins as int)[idx],
        decreases n - i,
    {
        let c: usize = counts[i];
        let mut j: usize = 0;
        while j < bins
            invariant
                n == counts.len(),
                i < n,
                c == counts[i as int],
                0 < bins,
                j <= bins,
                out.len() == i * bins + j,
                forall|idx: int|
                    0 <= idx < out.len() ==> #[trigger] out[idx] == binary_of(
                        counts@,
                        bins as int,
                    )[idx],
            decreases bins - j,
        {
            proof {
                lemma_bin_index(i as int, bins as int, j as int);
                assert(i * bins + j < n * bins) by (nonlinear_arith)
                    requires
                        0 <= i < n,
                        0 <= j < bins,
                ;
            }
            let ghost prev = out@;
            out.push(
                if j < c {
                    1
                } else {
                    0
                },
            );
            proof {
                assert forall|idx: int| 0 <= idx < out.len() implies #[trigger] out[idx]
                    == binary_of(counts@, bins as int)[idx] by {
                    if idx < prev.len() {
                        assert(out[idx] == prev[idx]);
                    }
                }
            }
            j = j + 1;
        }
        proof {
            assert((i + 1) * bins == i * bins + bins) by (nonlinear_arith);
        }
        i = i + 1;
    }
    proof {
        assert(out@ =~= binary_of(counts@, bins as int));
    }
    out
}

/// Sums every `factor` consecutive samples into one; samples past the last
/// full frame are left out. With a factor of one or zero the samples are
/// handed back as they are.
pub fn downsample_binary(s_bin: &[usize], factor: usize) -> (out: Vec<usize>)
    requires
        forall|i: int|
            0 <= i < frame_sums(s_bin@, bins_per_frame(factor as int)).len()
                ==> #[trigger] frame_sums(s_bin@, bins_per_frame(factor as int))[i] <= usize::MAX,
    ensures
        out@.map_values(|c: usize| c as int) == frame_sums(
            s_bin@,
            bins_per_frame(factor as int),
        ),
{
    let bins: usize = if factor <= 1 {
        1
    } else {
        factor
    };
    let frames: usize = s_bin.len() / bins;
    let ghost sums = frame_sums(s_bin@, bins as int);
    let mut out: Vec<usize> = Vec::new();
    let mut i: usize = 0;
    while i < frames
        invariant
            0 < bins,
            bins == bins_per_frame(factor as int),
            frames == s_bin.len() / bins,
            sums == frame_sums(s_bin@, bins as int),
            sums.len() == frames,
            forall|f: int| 0 <= f < sums.len() ==> #[trigger] sums[f] <= usize::MAX,
            i <= frames,
            out.len() == i,
            forall|f: int| 0 <= f < i ==> #[trigger] out[f] as int == sums[f],
        decreases frames - i,
    {
        proof {
            lemma_fundamental_div_mod(s_bin.len() as int, bins as int);
            assert(i * bins + bins <= frames * bins) by (nonlinear_arith)
                requires
                    0 <= i < frames,
                    0 < bins,
            ;
            assert(frames * bins == bins * frames) by (nonlinear_arith);
            assert(0 <= i * bins) by (nonlinear_arith)
                requires
                    0 <= i,
                    0 < bins,
            ;
            assert(sums[i as int] == range_sum(s_bin@, i * bins, i * bins + bins));
        }
        let start: usize = i * bins;
        let mut sum: usize = 0;
        let mut j: usize = 0;
        while j < bins
            invariant
                j <= bins,
                start + bins <= s_bin.len(),
                sum == range_sum(s_bin@, start as int, start + j),
                range_sum(s_bin@, start as int, start + bins) <= usize::MAX,
            decreases bins - j,
        {
            proof {
                lemma_range_sum_grows(s_bin@, start as int, start + j + 1, start + bins);
            }
            sum = sum + s_bin[start + j];
            j = j + 1;
        }
        out.push(sum);
        i = i + 1;
    }
    proof {
        assert(out@.map_values(|c: usize| c as int) =~= sums);
    }
    out
}

/// A sum over more samples is no smaller.
proof fn lemma_range_sum_grows(s: Seq<usize>, lo: int, mid: int, hi: int)
    requires
        lo <= mid <= hi,
    ensures
        range_sum(s, lo, mid) <= range_sum(s, lo, hi),
    decreases hi - mid,
{
    if mid < hi {
        lemma_range_sum_grows(s, lo, mid, hi - 1);
    }
}

/// Frames of samples that are zero or one sum to no more than a frame has
/// bins, so such samples can always be summed.
pub proof fn lemma_binary_frames_fit(s: Seq<usize>, factor: usize)
    requires
        forall|i: int| 0 <= i < s.len() ==> #[trigger] s[i] <= 1,
    ensures
        forall|i: int|
            0 <= i < frame_sums(s, bins_per_frame(factor as int)).len() ==> 0
                <= #[trigger] frame_sums(s, bins_per_frame(factor as int))[i] <= bins_per_frame(
                factor as int,
            ),
{
    let bins = bins_per_frame(factor as int);
    let sums = frame_sums(s, bins);
    assert forall|i: int| 0 <= i < sums.len() implies 0 <= #[trigger] sums[i] <= bins by {
        lemma_fundamental_div_mod(s.len() as int, bins);
        assert(i * bins + bins <= (s.len() as int / bins) * bins) by (nonlinear_arith)
            requires
                0 <= i < s.len() as int / bins,
                0 < bins,
        ;
        assert((s.len() as int / bins) * bins == bins * (s.len() as int / bins))
            by (nonlinear_arith);
        assert(0 <= i * bins) by (nonlinear_arith)
            requires
                0 <= i,
                0 < bins,
        ;
        lemma_unit_sum_bound(s, i * bins, i * bins + bins);
    }
}

/// Samples that are zero or one sum to no more than there are samples.
proof fn lemma_unit_sum_bound(s: Seq<usize>, lo: int, hi: int)
    requires
        0 <= lo <= hi <= s.len(),
        forall|i: int| 0 <= i < s.len() ==> #[trigger] s[i] <= 1,
    ensures
        0 <= range_sum(s, lo, hi) <= hi - lo,
    decreases hi - lo,
{
    if lo < hi {
        lemma_unit_sum_bound(s, lo, hi - 1);
    }
}

} // verus!
