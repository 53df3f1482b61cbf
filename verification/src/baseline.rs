//! Rolling order statistic of a trace: for every sample the key of a chosen
//! rank among the samples of a causal window that ends there.

use vstd::prelude::*;
use crate::fenwick::FenwickTree;
use crate::sample::{bits_of, key_bits, key_of, keys_of, lemma_key_roundtrip, order_key};
use crate::ranking::{
    ascending, count_below, distinct_sorted, has_rank, lemma_count_below_bounds,
    lemma_count_below_drop_first, lemma_count_below_monotone, lemma_count_below_push,
    lemma_rank_of_sorted, lemma_rank_unique, lower_bound, strictly_increasing,
};

verus! {

/// Number of samples in the causal window that ends at sample `t`.
pub open spec fn window_len(window: nat, t: int) -> int {
    if t + 1 < window {
        t + 1
    } else {
        window as int
    }
}

/// The samples of the causal window that ends at sample `t`.
pub open spec fn window_at(keys: Seq<i32>, window: nat, t: int) -> Seq<i32> {
    keys.subrange(t + 1 - window_len(window, t), t + 1)
}

/// The rank that the table asks for in a window of `len` samples, held below
/// the window's length.
pub open spec fn rank_in(ranks: Seq<usize>, len: int) -> int {
    if ranks[len - 1] < len - 1 {
        ranks[len - 1] as int
    } else {
        len - 1
    }
}

/// `out` holds, for every sample `t`, the key of rank `rank_in(ranks, n)` among
/// the `n` samples of the window that ends at `t`; it holds nothing where the
/// window has no samples.
pub open spec fn is_rolling_select(
    keys: Seq<i32>,
    window: nat,
    ranks: Seq<usize>,
    out: Seq<i32>,
) -> bool {
    if window == 0 {
        out.len() == 0
    } else {
        &&& out.len() == keys.len()
        &&& forall|t: int|
            0 <= t < keys.len() ==> has_rank(
                window_at(keys, window, t),
                rank_in(ranks, window_len(window, t)),
                #[trigger] out[t],
            )
    }
}

/// The rolling selection of a trace is one sequence only: whatever finds it
/// finds the same.
pub proof fn lemma_rolling_select_unique(
    keys: Seq<i32>,
    window: nat,
    ranks: Seq<usize>,
    a: Seq<i32>,
    b: Seq<i32>,
)
    requires
        is_rolling_select(keys, window, ranks, a),
        is_rolling_select(keys, window, ranks, b),
    ensures
        a == b,
{
    if window > 0 {
        assert forall|t: int| 0 <= t < a.len() implies a[t] == b[t] by {
            lemma_rank_unique(
                window_at(keys, window, t),
                rank_in(ranks, window_len(window, t)),
                a[t],
                b[t],
            );
        }
    }
    assert(a =~= b);
}

/// The rolling selection agrees with sorting every window: at sample `t` it
/// holds what stands at the asked place once the samples of the window are put
/// in ascending order.
pub proof fn lemma_rolling_select_sorted(
    keys: Seq<i32>,
    window: nat,
    ranks: Seq<usize>,
    out: Seq<i32>,
    t: int,
    sorted: Seq<i32>,
)
    requires
        window > 0,
        is_rolling_select(keys, window, ranks, out),
        0 <= t < keys.len(),
        ascending(sorted),
        sorted.to_multiset() == window_at(keys, window, t).to_multiset(),
    ensures
        0 <= rank_in(ranks, window_len(window, t)) < sorted.len(),
        out[t] == sorted[rank_in(ranks, window_len(window, t))],
{
    let win = window_at(keys, window, t);
    let k = rank_in(ranks, window_len(window, t));
    lemma_rank_unique(win, k, out[t], out[t]);
    vstd::seq_lib::to_multiset_len(sorted);
    vstd::seq_lib::to_multiset_len(win);
    lemma_rank_of_sorted(win, sorted, k);
    lemma_rank_unique(win, k, out[t], sorted[k]);
}

/// The key that bounds place `c` of the table from below; past the table's
/// end, a bound above every key.
spec fn bound(table: Seq<i32>, c: int) -> int {
    if c < table.len() {
        table[c] as int
    } else {
        i32::MAX + 1
    }
}

/// Distinct ascending keys are ascending.
proof fn lemma_strict_is_ascending(s: Seq<i32>)
    requires
        strictly_increasing(s),
    ensures
        ascending(s),
{
}

/// The place of a key that the table holds.
fn place_of(table: &Vec<i32>, key: i32) -> (p: usize)
    requires
        strictly_increasing(table@),
        table@.contains(key),
    ensures
        p < table.len(),
        table[p as int] == key,
{
    proof {
        lemma_strict_is_ascending(table@);
    }
    let p = lower_bound(table.as_slice(), key);
    proof {
        let m = choose|m: int| 0 <= m < table@.len() && table@[m] == key;
        assert(p <= m);
        assert(table[p as int] >= key);
    }
    p
}

/// Whether a place of the table lies above the place of `key`, told by the
/// bounds alone.
proof fn lemma_bound_order(table: Seq<i32>, p: int, c: int)
    requires
        strictly_increasing(table),
        0 <= p < table.len(),
        0 <= c <= table.len(),
    ensures
        c > p <==> table[p] < bound(table, c),
{
}

/// For every sample `t` the key of rank `rank_in(ranks, n)` among the `n`
/// samples of the window that ends at `t`, where `n` is `window` or, near the
/// start, `t + 1`. A window of no samples yields nothing.
pub fn rolling_select(keys: &[i32], window: usize, ranks: &[usize]) -> (out: Vec<i32>)
    requires
        keys.len() < usize::MAX,
        keys.len() <= i32::MAX || window <= i32::MAX,
        ranks.len() >= keys.len() || ranks.len() >= window,
    ensures
        is_rolling_select(keys@, window as nat, ranks@, out@),
        forall|t: int| 0 <= t < out.len() ==> keys@.contains(#[trigger] out[t]),
{
    let n: usize = keys.len();
    let mut out: Vec<i32> = Vec::new();
    if n == 0 || window == 0 {
        return out;
    }
    let table = distinct_sorted(keys);
    let m: usize = table.len();
    proof {
        // The table holds distinct keys of a slice, so it is no longer than the slice.
        lemma_table_len(keys@, table@);
    }
    let mut counts = FenwickTree::new(m);
    let ghost mut cur: Seq<i32> = Seq::empty();
    proof {
        assert forall|c: nat| c <= m implies counts.prefix(c) == count_below(
            cur,
            bound(table@, c as int),
        ) by {}
    }
    let mut t: usize = 0;
    while t < n
        invariant
            n == keys.len(),
            m == table.len(),
            0 < window,
            n <= i32::MAX || window <= i32::MAX,
            ranks.len() >= n || ranks.len() >= window,
            t <= n,
            strictly_increasing(table@),
            forall|x: i32| table@.contains(x) <==> keys@.contains(x),
            counts.wf(),
            counts.size() == m,
            cur =~= keys@.subrange(
                if t < window {
                    0
                } else {
                    t - window
                },
                t as int,
            ),
            forall|c: nat|
                c <= m ==> #[trigger] counts.prefix(c) == count_below(cur, bound(table@, c as int)),
            out.len() == t,
            forall|u: int|
                0 <= u < t ==> has_rank(
                    window_at(keys@, window as nat, u),
                    rank_in(ranks@, window_len(window as nat, u)),
                    #[trigger] out[u],
                ),
            forall|u: int| 0 <= u < t ==> keys@.contains(#[trigger] out[u]),
        decreases n - t,
    {
        if t >= window {
            let leaving: i32 = keys[t - window];
            proof {
                assert(keys@.contains(leaving));
                assert(cur[0] == leaving);
            }
            let p = place_of(&table, leaving);
            proof {
                lemma_bound_order(table@, p as int, p as int + 1);
                lemma_count_below_monotone(cur, table@[p as int] as int, bound(table@, p + 1));
                lemma_count_below_bounds(cur, i32::MAX + 1);
                assert(counts.prefix(m as nat) == cur.len());
                assert(counts.prefix(p as nat) == count_below(cur, bound(table@, p as int)));
                assert(counts.prefix((p + 1) as nat) == count_below(
                    cur,
                    bound(table@, p as int + 1),
                ));
            }
            let ghost before = counts;
            counts.update(p, -1);
            proof {
                let rest = cur.subrange(1, cur.len() as int);
                assert forall|c: nat| c <= m implies #[trigger] counts.prefix(c) == count_below(
                    rest,
                    bound(table@, c as int),
                ) by {
                    assert(before.prefix(c) == count_below(cur, bound(table@, c as int)));
                    lemma_count_below_drop_first(cur, bound(table@, c as int));
                    lemma_bound_order(table@, p as int, c as int);
                }
                cur = rest;
            }
        }
        let entering: i32 = keys[t];
        proof {
            assert(keys@.contains(entering));
        }
        let p = place_of(&table, entering);
        proof {
            lemma_count_below_bounds(cur, i32::MAX + 1);
            assert(counts.prefix(m as nat) == cur.len());
            assert(counts.prefix(p as nat) == count_below(cur, bound(table@, p as int)));
            assert(counts.prefix((p + 1) as nat) == count_below(cur, bound(table@, p as int + 1)));
            lemma_bound_order(table@, p as int, p as int + 1);
            lemma_count_below_monotone(cur, table@[p as int] as int, bound(table@, p + 1));
        }
        let ghost before = counts;
        counts.update(p, 1);
        let ghost win = cur.push(entering);
        proof {
            assert forall|c: nat| c <= m implies #[trigger] counts.prefix(c) == count_below(
                win,
                bound(table@, c as int),
            ) by {
                assert(before.prefix(c) == count_below(cur, bound(table@, c as int)));
                lemma_count_below_push(cur, entering, bound(table@, c as int));
                lemma_bound_order(table@, p as int, c as int);
            }
            cur = win;
            assert(win =~= window_at(keys@, window as nat, t as int));
        }
        let len: usize = if t + 1 < window {
            t + 1
        } else {
            window
        };
        let asked: usize = ranks[len - 1];
        let k: usize = if asked < len - 1 {
            asked
        } else {
            len - 1
        };
        let pos = counts.kth((k + 1) as i32);
        proof {
            lemma_count_below_bounds(win, i32::MAX + 1);
            assert(counts.prefix(m as nat) == win.len());
            counts.lemma_prefix_zero();
            assert(pos < m);
            assert(counts.prefix(pos as nat) == count_below(win, bound(table@, pos as int)));
            assert(counts.prefix((pos + 1) as nat) == count_below(
                win,
                bound(table@, pos as int + 1),
            ));
            // No sample lies strictly between two neighbours of the table.
            let v = table@[pos as int];
            assert forall|i: int| 0 <= i < win.len() implies !(v + 1 <= #[trigger] win[i] && win[i]
                < bound(table@, pos as int + 1)) by {
                let x = win[i];
                assert(keys@.contains(x));
                assert(table@.contains(x));
                let c = choose|c: int| 0 <= c < table@.len() && table@[c] == x;
                if v + 1 <= x {
                    assert(c > pos);
                    lemma_bound_order(table@, pos as int, pos as int + 1);
                    if pos + 1 < m && c > pos + 1 {
                        assert(table@[pos as int + 1] < table@[c]);
                    }
                }
            }
            lemma_bound_order(table@, pos as int, pos as int + 1);
            lemma_count_below_monotone(win, v + 1, bound(table@, pos as int + 1));
        }
        proof {
            assert(table@.contains(table@[pos as int]));
        }
        out.push(table[pos]);
        t = t + 1;
    }
    out
}

/// A table of distinct keys that all occur in `keys` is no longer than `keys`.
proof fn lemma_table_len(keys: Seq<i32>, table: Seq<i32>)
    requires
        strictly_increasing(table),
        forall|x: i32| table.contains(x) ==> keys.contains(x),
    ensures
        table.len() <= keys.len(),
{
    let ts = table.to_set();
    let ks = keys.to_set();
    table.unique_seq_to_set();
    assert(ts.subset_of(ks)) by {
        assert forall|x: i32| ts.contains(x) implies ks.contains(x) by {
            assert(table.contains(x));
        }
    }
    keys.lemma_cardinality_of_set();
    vstd::set_lib::lemma_len_subset(ts, ks);
}

/// The rank that a quantile `num / den` picks among `len` samples put in
/// ascending order: `(len - 1) * num / den` rounded to the nearest whole number,
/// halves upwards, and held below `len`.
pub open spec fn quantile_rank_of(len: int, num: int, den: int) -> int {
    let nearest = (2 * (len - 1) * num + den) / (2 * den);
    if nearest < len - 1 {
        nearest
    } else {
        len - 1
    }
}

/// Computes the rank that the quantile `num / den` picks among `len` samples.
pub fn quantile_rank(len: usize, num: u32, den: u32) -> (k: usize)
    requires
        len > 0,
        den > 0,
    ensures
        k == quantile_rank_of(len as int, num as int, den as int),
        k < len,
{
    let last: u128 = (len - 1) as u128;
    assert(2 * last * num + den <= 2 * 0xffff_ffff_ffff_ffff * 0xffff_ffff + 0xffff_ffff)
        by (nonlinear_arith)
        requires
            0 <= last <= 0xffff_ffff_ffff_ffff,
            0 <= num <= 0xffff_ffff,
            0 <= den <= 0xffff_ffff,
    ;
    assert(2 * last * num == 2 * (len - 1) * num) by (nonlinear_arith)
        requires
            last == len - 1,
    ;
    let scaled: u128 = 2 * last * (num as u128) + den as u128;
    let nearest: u128 = scaled / (2 * (den as u128));
    if nearest < last {
        nearest as usize
    } else {
        len - 1
    }
}

/// The table of the ranks that the quantile `num / den` picks in windows of
/// `1..=count` samples.
pub open spec fn quantile_table(count: nat, num: int, den: int) -> Seq<usize> {
    Seq::new(count, |i: int| quantile_rank_of(i + 1, num, den) as usize)
}

/// Computes the table of the ranks that the quantile `num / den` picks in
/// windows of `1..=count` samples.
pub fn quantile_ranks(count: usize, num: u32, den: u32) -> (ranks: Vec<usize>)
    requires
        den > 0,
    ensures
        ranks@ == quantile_table(count as nat, num as int, den as int),
{
    let mut ranks: Vec<usize> = Vec::new();
    let mut i: usize = 0;
    while i < count
        invariant
            den > 0,
            i <= count,
            ranks.len() == i,
            forall|j: int|
                0 <= j < i ==> #[trigger] ranks[j] == quantile_rank_of(
                    j + 1,
                    num as int,
                    den as int,
                ),
        decreases count - i,
    {
        ranks.push(quantile_rank(i + 1, num, den));
        i = i + 1;
    }
    proof {
        assert(ranks@ =~= quantile_table(count as nat, num as int, den as int));
    }
    ranks
}

/// The longest window that occurs in a trace of `n` samples.
pub open spec fn longest_window(n: nat, window: nat) -> nat {
    if n < window {
        n
    } else {
        window
    }
}

/// Rolling quantile: for every sample `t` the key that the quantile
/// `num / den` picks among the samples of the causal window that ends at `t`.
pub fn rolling_quantile(keys: &[i32], window: usize, num: u32, den: u32) -> (out: Vec<i32>)
    requires
        keys.len() < usize::MAX,
        keys.len() <= i32::MAX || window <= i32::MAX,
        den > 0,
    ensures
        is_rolling_select(
            keys@,
            window as nat,
            quantile_table(longest_window(keys@.len(), window as nat), num as int, den as int),
            out@,
        ),
        forall|t: int| 0 <= t < out.len() ==> keys@.contains(#[trigger] out[t]),
{
    let largest: usize = if keys.len() < window {
        keys.len()
    } else {
        window
    };
    let ranks = quantile_ranks(largest, num, den);
    rolling_select(keys, window, ranks.as_slice())
}

/// The rolling baseline of a trace of single-precision samples, given and
/// returned as bit patterns: for every sample `t` the sample of rank
/// `rank_in(ranks, n)` among the `n` samples of the causal window that ends at
/// `t`, in the order of the sample keys. Nothing is subtracted here: the
/// baselines of all samples are found before the trace is touched.
pub fn rolling_baseline(samples: &[u32], window: usize, ranks: &[usize]) -> (out: Vec<u32>)
    requires
        samples.len() < usize::MAX,
        samples.len() <= i32::MAX || window <= i32::MAX,
        ranks.len() >= samples.len() || ranks.len() >= window,
    ensures
        is_rolling_select(keys_of(samples@), window as nat, ranks@, keys_of(out@)),
        forall|t: int| 0 <= t < out.len() ==> #[trigger] out[t] == bits_of(key_of(out[t]) as i32),
{
    let n: usize = samples.len();
    let mut keys: Vec<i32> = Vec::new();
    let mut i: usize = 0;
    while i < n
        invariant
            n == samples.len(),
            i <= n,
            keys.len() == i,
            forall|j: int| 0 <= j < i ==> #[trigger] keys[j] == key_of(samples[j]),
        decreases n - i,
    {
        keys.push(order_key(samples[i]));
        i = i + 1;
    }
    proof {
        assert forall|j: int| 0 <= j < n implies keys@[j] == #[trigger] keys_of(samples@)[j] by {
            lemma_key_roundtrip(samples[j]);
        }
        assert(keys@ =~= keys_of(samples@));
    }
    let picked = rolling_select(keys.as_slice(), window, ranks);
    let mut out: Vec<u32> = Vec::new();
    let mut t: usize = 0;
    while t < picked.len()
        invariant
            t <= picked.len(),
            out.len() == t,
            forall|u: int| 0 <= u < picked.len() ==> keys@.contains(#[trigger] picked[u]),
            keys@ == keys_of(samples@),
            forall|u: int|
                0 <= u < t ==> key_of(#[trigger] out[u]) == picked[u] && out[u] == bits_of(
                    picked[u],
                ),
        decreases picked.len() - t,
    {
        proof {
            let j = choose|j: int| 0 <= j < keys@.len() && keys@[j] == picked[t as int];
            lemma_key_roundtrip(samples[j]);
        }
        out.push(key_bits(picked[t]));
        t = t + 1;
    }
    proof {
        assert(keys_of(out@) =~= picked@);
    }
    out
}

/// The number of samples of the window of the rolling baseline, for a kernel
/// of `kernel_len` samples: five kernels, and no fewer than five samples.
pub fn baseline_window(kernel_len: usize) -> (window: usize)
    requires
        5 * kernel_len <= usize::MAX,
    ensures
        window == 5 * (if kernel_len < 1 {
            1int
        } else {
            kernel_len as int
        }),
{
    if kernel_len < 1 {
        5
    } else {
        5 * kernel_len
    }
}

} // verus!
