//! The search for the threshold that turns a relaxed solution into spikes:
//! which samples count, which candidates the coarse sweep tries, and when a
//! sweep gives up.

use vstd::prelude::*;
use vstd::arithmetic::div_mod::{lemma_fundamental_div_mod, lemma_fundamental_div_mod_converse};

verus! {

/// Candidates of the coarse sweep, at most.
pub const COARSE_STEPS: usize = 50;

/// Candidates of the fine sweep.
pub const FINE_STEPS: usize = 50;

/// The fine sweep reaches this part of the range of the values to either side
/// of the best candidate of the coarse sweep.
pub const FINE_REACH_PARTS: usize = 25;

/// Candidates in a row that may fail to improve before a sweep gives up.
pub const PATIENCE: u32 = 10;

/// The padding kept clear at both ends of `n` samples: the padding asked
/// for, but no more than a quarter of the samples.
pub fn clamp_padding(pad: usize, n: usize) -> (p: usize)
    ensures
        p == (if pad <= n / 4 {
            pad
        } else {
            n / 4
        }),
        2 * p <= n,
{
    if pad <= n / 4 {
        pad
    } else {
        n / 4
    }
}

/// The samples `lo..hi` that are left of `n` samples when `pad` samples are
/// kept clear at both ends; no sample where the padding takes them all.
pub fn interior_bounds(n: usize, pad: usize) -> (bounds: (usize, usize))
    ensures
        bounds.0 <= bounds.1 <= n,
        bounds.0 == (if pad <= n {
            pad
        } else {
            n
        }),
        bounds.1 == (if n - pad >= bounds.0 {
            n - pad
        } else {
            bounds.0 as int
        }),
        2 * pad <= n ==> bounds == (pad, (n - pad) as usize),
{
    let lo: usize = if pad <= n {
        pad
    } else {
        n
    };
    let hi: usize = if n >= pad && n - pad >= lo {
        n - pad
    } else {
        lo
    };
    (lo, hi)
}

/// How many candidates the coarse sweep tries among `m` distinct values.
pub open spec fn coarse_count(m: int) -> int {
    if m < COARSE_STEPS {
        m
    } else {
        COARSE_STEPS as int
    }
}

/// The place, among `m` distinct values in ascending order, of candidate `i`
/// of the coarse sweep: the candidates are spread evenly from the first value
/// to the last, each at the nearest place.
pub open spec fn coarse_index_of(i: int, m: int) -> int {
    let c = coarse_count(m);
    if c <= 1 {
        0
    } else {
        (2 * i * (m - 1) + (c - 1)) / (2 * (c - 1))
    }
}

/// The places of the candidates of the coarse sweep among `m` distinct values.
pub fn coarse_indices(m: usize) -> (places: Vec<usize>)
    ensures
        places.len() == coarse_count(m as int),
        forall|i: int| 0 <= i < places.len() ==> #[trigger] places[i] == coarse_index_of(i, m as int),
        forall|i: int| 0 <= i < places.len() ==> #[trigger] places[i] < m,
        m > 0 ==> places[0] == 0 && places[places.len() - 1] == m - 1,
{
    let count: usize = if m < COARSE_STEPS {
        m
    } else {
        COARSE_STEPS
    };
    let mut places: Vec<usize> = Vec::new();
    let mut i: usize = 0;
    while i < count
        invariant
            count == coarse_count(m as int),
            i <= count,
            places.len() == i,
            forall|j: int| 0 <= j < i ==> #[trigger] places[j] == coarse_index_of(j, m as int),
            forall|j: int| 0 <= j < i ==> #[trigger] places[j] < m,
        decreases count - i,
    {
        let place: usize = if count <= 1 {
            0
        } else {
            let gaps: u128 = (count - 1) as u128;
            let span: u128 = (m - 1) as u128;
            proof {
                lemma_coarse_place(i as int, m as int);
                assert(2 * (i as u128) * span == 2 * i * (m - 1)) by (nonlinear_arith)
                    requires
                        span == m - 1,
                ;
                assert(2 * i * (m - 1) <= 100 * (m - 1)) by (nonlinear_arith)
                    requires
                        0 <= i < 50,
                        m >= 1,
                ;
            }
            ((2 * (i as u128) * span + gaps) / (2 * gaps)) as usize
        };
        places.push(place);
        i = i + 1;
    }
    proof {
        if m > 0 {
            lemma_coarse_place(0, m as int);
            lemma_coarse_place(count - 1, m as int);
        }
    }
    places
}

/// Every candidate of the coarse sweep lies among the values; the first is the
/// lowest value, the last the highest.
pub proof fn lemma_coarse_place(i: int, m: int)
    requires
        0 < m,
        0 <= i < coarse_count(m),
    ensures
        0 <= coarse_index_of(i, m) < m,
        i == 0 ==> coarse_index_of(i, m) == 0,
        i == coarse_count(m) - 1 ==> coarse_index_of(i, m) == m - 1,
{
    let c = coarse_count(m);
    if c > 1 {
        let g = c - 1;
        let x = 2 * i * (m - 1) + g;
        let q = x / (2 * g);
        lemma_fundamental_div_mod(x, 2 * g);
        assert(0 <= 2 * i * (m - 1) <= 2 * g * (m - 1)) by (nonlinear_arith)
            requires
                0 <= i <= g,
                m >= 1,
        ;
        assert(2 * g * (m - 1) == (m - 1) * (2 * g)) by (nonlinear_arith);
        if q >= m {
            assert((2 * g) * q >= (2 * g) * m) by (nonlinear_arith)
                requires
                    q >= m,
                    g >= 1,
            ;
            assert((2 * g) * m == (m - 1) * (2 * g) + 2 * g) by (nonlinear_arith);
        }
        if q < 0 {
            assert((2 * g) * q <= -(2 * g)) by (nonlinear_arith)
                requires
                    q <= -1,
                    g >= 1,
            ;
        }
        if i == 0 {
            assert(2 * i * (m - 1) == 0) by (nonlinear_arith)
                requires
                    i == 0,
            ;
            assert(x == 0 * (2 * g) + g);
            lemma_fundamental_div_mod_converse(x, 2 * g, 0, g);
        }
        if i == g {
            assert(2 * i * (m - 1) == (m - 1) * (2 * g)) by (nonlinear_arith)
                requires
                    i == g,
            ;
            lemma_fundamental_div_mod_converse(x, 2 * g, m - 1, g);
        }
    }
}

/// Counts the candidates in a row that failed to improve on the best so far.
#[derive(Clone, Copy, Debug)]
pub struct Patience {
    misses: u32,
}

impl View for Patience {
    type V = nat;

    /// The candidates that failed since the last improvement, counted up to
    /// `PATIENCE`.
    closed spec fn view(&self) -> nat {
        self.misses as nat
    }
}

impl Patience {
    /// The count before a sweep.
    pub fn new() -> (p: Self)
        ensures
            p@ == 0,
    {
        Patience { misses: 0 }
    }

    /// The count after one more candidate.
    pub open spec fn after(misses: nat, improved: bool) -> nat {
        if improved {
            0
        } else if misses < PATIENCE {
            misses + 1
        } else {
            misses
        }
    }

    /// Takes note of one candidate and tells whether the sweep goes on: it
    /// gives up at the tenth candidate in a row that failed to improve.
    pub fn observe(&mut self, improved: bool) -> (go_on: bool)
        ensures
            final(self)@ == Self::after(old(self)@, improved),
            go_on == (final(self)@ < PATIENCE),
    {
        if improved {
            self.misses = 0;
        } else if self.misses < PATIENCE {
            self.misses = self.misses + 1;
        }
        self.misses < PATIENCE
    }
}

} // verus!
