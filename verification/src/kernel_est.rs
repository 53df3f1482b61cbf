//! The estimate of a kernel shared by many traces: the layout of the traces,
//! laid end to end, each with its length, its amplitude and its baseline, and
//! the rule by which the iteration ends.

use vstd::prelude::*;
use crate::solver::MIN_ITERATIONS;

verus! {

/// Sum of the lengths.
pub open spec fn total_of(lengths: Seq<usize>) -> int
    decreases lengths.len(),
{
    if lengths.len() == 0 {
        0
    } else {
        total_of(lengths.drop_last()) + lengths.last()
    }
}

/// The number of samples of all traces together, or `None` where that number
/// does not fit the machine.
pub fn total_length(lengths: &[usize]) -> (total: Option<usize>)
    ensures
        total matches Some(t) ==> t == total_of(lengths@),
        total is None <==> total_of(lengths@) > usize::MAX,
{
    let mut sum: usize = 0;
    let mut i: usize = 0;
    while i < lengths.len()
        invariant
            i <= lengths.len(),
            sum == total_of(lengths@.subrange(0, i as int)),
        decreases lengths.len() - i,
    {
        proof {
            assert(lengths@.subrange(0, i + 1).drop_last() =~= lengths@.subrange(0, i as int));
            lemma_total_grows(lengths@, i + 1);
        }
        if lengths[i] > usize::MAX - sum {
            return None;
        }
        sum = sum + lengths[i];
        i = i + 1;
    }
    proof {
        assert(lengths@.subrange(0, i as int) =~= lengths@);
    }
    Some(sum)
}

/// The sum over the first lengths is no larger than the sum over all.
proof fn lemma_total_grows(lengths: Seq<usize>, n: int)
    requires
        0 <= n <= lengths.len(),
    ensures
        total_of(lengths.subrange(0, n)) <= total_of(lengths),
    decreases lengths.len() - n,
{
    if n < lengths.len() {
        lemma_total_grows(lengths, n + 1);
        assert(lengths.subrange(0, n + 1).drop_last() =~= lengths.subrange(0, n));
    } else {
        assert(lengths.subrange(0, n) =~= lengths);
    }
}

/// Why arrays handed in do not belong together.
#[derive(Clone, Copy, PartialEq, Eq, Structural, Debug)]
pub enum LayoutError {
    /// There is not one amplitude to every trace.
    Alphas,
    /// There is not one baseline to every trace.
    Baselines,
    /// The lengths add up to more than fits the machine.
    TooLong,
    /// The samples are not as many as the lengths add up to.
    Samples,
    /// The spike bins are not as many as the lengths add up to.
    Spikes,
}

impl LayoutError {
    /// What to tell the host.
    pub fn message(&self) -> (text: String)
        ensures
            text@ == (match *self {
                LayoutError::Alphas => "one amplitude is needed for every trace"@,
                LayoutError::Baselines => "one baseline is needed for every trace"@,
                LayoutError::TooLong => "the trace lengths add up to more than fits"@,
                LayoutError::Samples => "the traces do not hold as many samples as their lengths add up to"@,
                LayoutError::Spikes => "the spike trains do not hold as many bins as the trace lengths add up to"@,
            }),
    {
        match self {
            LayoutError::Alphas => "one amplitude is needed for every trace".to_owned(),
            LayoutError::Baselines => "one baseline is needed for every trace".to_owned(),
            LayoutError::TooLong => "the trace lengths add up to more than fits".to_owned(),
            LayoutError::Samples => "the traces do not hold as many samples as their lengths add up to".to_owned(),
            LayoutError::Spikes => "the spike trains do not hold as many bins as the trace lengths add up to".to_owned(),
        }
    }
}

/// What is wrong with the arrays handed in, if anything: the first of the
/// faults in the order in which `LayoutError` lists them.
pub open spec fn layout_fault(
    lengths: Seq<usize>,
    n_alphas: int,
    n_baselines: int,
    n_samples: int,
    n_spikes: int,
) -> Option<LayoutError> {
    if n_alphas != lengths.len() {
        Some(LayoutError::Alphas)
    } else if n_baselines != lengths.len() {
        Some(LayoutError::Baselines)
    } else if total_of(lengths) > usize::MAX {
        Some(LayoutError::TooLong)
    } else if n_samples != total_of(lengths) {
        Some(LayoutError::Samples)
    } else if n_spikes != total_of(lengths) {
        Some(LayoutError::Spikes)
    } else {
        None
    }
}

/// Checks that the arrays handed in belong together: one amplitude and one
/// baseline to every trace, and as many samples and as many spike bins as the
/// lengths add up to. Gives the number of samples of all traces together, or
/// the first fault.
pub fn check_layout(
    lengths: &[usize],
    n_alphas: usize,
    n_baselines: usize,
    n_samples: usize,
    n_spikes: usize,
) -> (checked: Result<usize, LayoutError>)
    ensures
        checked == (match layout_fault(
            lengths@,
            n_alphas as int,
            n_baselines as int,
            n_samples as int,
            n_spikes as int,
        ) {
            Some(fault) => Err::<usize, LayoutError>(fault),
            None => Ok(n_samples),
        }),
{
    if n_alphas != lengths.len() {
        return Err(LayoutError::Alphas);
    }
    if n_baselines != lengths.len() {
        return Err(LayoutError::Baselines);
    }
    match total_length(lengths) {
        None => Err(LayoutError::TooLong),
        Some(total) => {
            if n_samples != total {
                Err(LayoutError::Samples)
            } else if n_spikes != total {
                Err(LayoutError::Spikes)
            } else {
                Ok(total)
            }
        },
    }
}

/// Whether the arrays handed in belong together: one amplitude and one
/// baseline to every trace, and as many samples and as many spike bins as the
/// lengths add up to.
pub fn layout_matches(
    lengths: &[usize],
    n_alphas: usize,
    n_baselines: usize,
    n_samples: usize,
    n_spikes: usize,
) -> (ok: bool)
    ensures
        ok == (n_alphas == lengths.len() && n_baselines == lengths.len() && n_samples == total_of(
            lengths@,
        ) && n_spikes == total_of(lengths@)),
{
    match check_layout(lengths, n_alphas, n_baselines, n_samples, n_spikes) {
        Ok(_) => true,
        Err(_) => false,
    }
}

/// Whether the iteration ends after step `iter`, counted from zero: it ends
/// when the kernel has come to rest, but never with one of the first steps,
/// just as the solver never converges with one of its first.
pub fn kernel_step_settles(iter: u32, below_tolerance: bool) -> (stop: bool)
    ensures
        stop == (iter > MIN_ITERATIONS && below_tolerance),
{
    iter > MIN_ITERATIONS && below_tolerance
}

/// How many taps of a kernel of `kernel_length` taps reach sample `t` of a
/// trace: a tap reaches back as far as the trace's first sample and no
/// further.
pub fn taps_in_reach(kernel_length: usize, t: usize) -> (taps: usize)
    ensures
        taps == (if kernel_length <= t {
            kernel_length as int
        } else {
            t + 1
        }),
        taps <= kernel_length,
        taps <= t + 1,
{
    if kernel_length <= t {
        kernel_length
    } else {
        t + 1
    }
}

} // verus!
