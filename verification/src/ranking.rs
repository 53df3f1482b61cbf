//! Order statistics of integer keys: what it means for a key to have a rank in
//! a window, and the sorted table of distinct keys by which a key is found again.

use vstd::prelude::*;

verus! {

/// How many items of `s` are smaller than `v`.
pub open spec fn count_below(s: Seq<i32>, v: int) -> nat
    decreases s.len(),
{
    if s.len() == 0 {
        0
    } else {
        count_below(s.drop_last(), v) + if s.last() < v {
            1nat
        } else {
            0nat
        }
    }
}

/// `v` stands at place `k`, counted from zero, when `s` is put in ascending
/// order: at most `k` items are smaller and more than `k` are not larger.
pub open spec fn has_rank(s: Seq<i32>, k: int, v: i32) -> bool {
    count_below(s, v as int) <= k < count_below(s, v + 1)
}

/// Each item is smaller than the next.
pub open spec fn strictly_increasing(s: Seq<i32>) -> bool {
    forall|i: int, j: int| 0 <= i < j < s.len() ==> s[i] < s[j]
}

/// No item is larger than the next.
pub open spec fn ascending(s: Seq<i32>) -> bool {
    forall|i: int, j: int| 0 <= i <= j < s.len() ==> s[i] <= s[j]
}

/// One more item raises the count by one exactly when it is below the bound.
pub proof fn lemma_count_below_push(s: Seq<i32>, x: i32, v: int)
    ensures
        count_below(s.push(x), v) == count_below(s, v) + if x < v {
            1nat
        } else {
            0nat
        },
{
    assert(s.push(x).drop_last() =~= s);
}

/// The count is at most the number of items; it is that number where every
/// item is below the bound, and zero where none is.
pub proof fn lemma_count_below_bounds(s: Seq<i32>, v: int)
    ensures
        count_below(s, v) <= s.len(),
        (forall|i: int| 0 <= i < s.len() ==> s[i] < v) ==> count_below(s, v) == s.len(),
        (forall|i: int| 0 <= i < s.len() ==> s[i] >= v) ==> count_below(s, v) == 0,
    decreases s.len(),
{
    if s.len() > 0 {
        lemma_count_below_bounds(s.drop_last(), v);
    }
}

/// Raising the bound never lowers the count, and the count stays where no item
/// lies between the two bounds.
pub proof fn lemma_count_below_monotone(s: Seq<i32>, a: int, b: int)
    requires
        a <= b,
    ensures
        count_below(s, a) <= count_below(s, b),
        (forall|i: int| 0 <= i < s.len() ==> !(a <= #[trigger] s[i] && s[i] < b)) ==> count_below(s, a)
            == count_below(s, b),
        (exists|i: int| 0 <= i < s.len() && a <= #[trigger] s[i] && s[i] < b) ==> count_below(s, a) < count_below(
            s,
            b,
        ),
    decreases s.len(),
{
    if s.len() > 0 {
        let t = s.drop_last();
        lemma_count_below_monotone(t, a, b);
        if exists|i: int| 0 <= i < s.len() && a <= #[trigger] s[i] && s[i] < b {
            let i = choose|i: int| 0 <= i < s.len() && a <= #[trigger] s[i] && s[i] < b;
            if i < s.len() - 1 {
                assert(a <= t[i] && t[i] < b);
            }
        }
        if forall|i: int| 0 <= i < s.len() ==> !(a <= #[trigger] s[i] && s[i] < b) {
            assert forall|i: int| 0 <= i < t.len() implies !(a <= #[trigger] t[i] && t[i] < b) by {
                assert(t[i] == s[i]);
            }
        }
    }
}

/// Taking the first item away lowers the count by one exactly when that item
/// was below the bound.
pub proof fn lemma_count_below_drop_first(s: Seq<i32>, v: int)
    requires
        s.len() > 0,
    ensures
        count_below(s, v) == count_below(s.subrange(1, s.len() as int), v) + if s[0] < v {
            1nat
        } else {
            0nat
        },
    decreases s.len(),
{
    let tail = s.subrange(1, s.len() as int);
    if s.len() == 1 {
        assert(s.drop_last() =~= Seq::<i32>::empty());
        assert(tail =~= Seq::<i32>::empty());
    } else {
        lemma_count_below_drop_first(s.drop_last(), v);
        assert(s.drop_last().subrange(1, s.len() - 1) =~= tail.drop_last());
        assert(tail.last() == s.last());
    }
}

/// A rank belongs to one key only, and that key occurs in the window.
pub proof fn lemma_rank_unique(s: Seq<i32>, k: int, v: i32, w: i32)
    requires
        has_rank(s, k, v),
    ensures
        has_rank(s, k, w) ==> v == w,
        s.contains(v),
        0 <= k < s.len(),
{
    lemma_count_below_bounds(s, v + 1);
    lemma_count_below_monotone(s, v as int, v + 1);
    if !(exists|i: int| 0 <= i < s.len() && v <= #[trigger] s[i] && s[i] < v + 1) {
        assert(forall|i: int| 0 <= i < s.len() ==> !(v <= #[trigger] s[i] && s[i] < v + 1));
    }
    let i = choose|i: int| 0 <= i < s.len() && v <= #[trigger] s[i] && s[i] < v + 1;
    assert(s[i] == v);
    if has_rank(s, k, w) {
        if v < w {
            lemma_count_below_monotone(s, v + 1, w as int);
        } else if w < v {
            lemma_count_below_monotone(s, w + 1, v as int);
        }
    }
}

/// The count over two runs put together is the sum of the counts over each.
pub proof fn lemma_count_below_concat(a: Seq<i32>, b: Seq<i32>, v: int)
    ensures
        count_below(a + b, v) == count_below(a, v) + count_below(b, v),
    decreases b.len(),
{
    if b.len() == 0 {
        assert(a + b =~= a);
    } else {
        lemma_count_below_concat(a, b.drop_last(), v);
        assert((a + b).drop_last() =~= a + b.drop_last());
    }
}

/// One step of the count, as a fold sees it.
pub open spec fn tally(v: int) -> spec_fn(int, i32) -> int {
    |acc: int, x: i32|
        if x < v {
            acc + 1
        } else {
            acc
        }
}

/// The count is a fold over the items.
proof fn lemma_count_below_is_fold(s: Seq<i32>, v: int)
    ensures
        count_below(s, v) == s.fold_left(0int, tally(v)),
    decreases s.len(),
{
    if s.len() > 0 {
        lemma_count_below_is_fold(s.drop_last(), v);
    }
}

/// The count does not depend on the order of the items.
pub proof fn lemma_count_below_rearranged(s: Seq<i32>, t: Seq<i32>, v: int)
    requires
        s.to_multiset() == t.to_multiset(),
    ensures
        count_below(s, v) == count_below(t, v),
{
    lemma_count_below_is_fold(s, v);
    lemma_count_below_is_fold(t, v);
    assert(vstd::seq_lib::commutative_foldl(tally(v)));
    vstd::seq_lib::lemma_fold_left_permutation(s, t, tally(v), 0int);
}

/// The key of rank `k` is the one that stands at place `k` once the window is
/// put in ascending order, whichever way the sorting leaves equal keys.
pub proof fn lemma_rank_of_sorted(window: Seq<i32>, sorted: Seq<i32>, k: int)
    requires
        ascending(sorted),
        sorted.to_multiset() == window.to_multiset(),
        0 <= k < sorted.len(),
    ensures
        has_rank(window, k, sorted[k]),
{
    let v = sorted[k];
    let head = sorted.subrange(0, k);
    let tail = sorted.subrange(k, sorted.len() as int);
    assert(sorted =~= head + tail);
    lemma_count_below_concat(head, tail, v as int);
    lemma_count_below_bounds(head, v as int);
    assert forall|i: int| 0 <= i < tail.len() implies tail[i] >= v by {
        assert(tail[i] == sorted[k + i]);
    }
    lemma_count_below_bounds(tail, v as int);
    let upto = sorted.subrange(0, k + 1);
    let rest = sorted.subrange(k + 1, sorted.len() as int);
    assert(sorted =~= upto + rest);
    lemma_count_below_concat(upto, rest, v + 1);
    assert forall|i: int| 0 <= i < upto.len() implies upto[i] < v + 1 by {
        assert(upto[i] == sorted[i]);
    }
    lemma_count_below_bounds(upto, v + 1);
    lemma_count_below_rearranged(window, sorted, v as int);
    lemma_count_below_rearranged(window, sorted, v + 1);
}

/// In an ascending table the count of smaller items is the place where the
/// items stop being smaller.
pub proof fn lemma_count_below_sorted(s: Seq<i32>, v: int, p: int)
    requires
        ascending(s),
        0 <= p <= s.len(),
        forall|i: int| 0 <= i < p ==> s[i] < v,
        forall|i: int| p <= i < s.len() ==> s[i] >= v,
    ensures
        count_below(s, v) == p,
    decreases s.len(),
{
    if s.len() > 0 {
        let t = s.drop_last();
        if p == s.len() {
            lemma_count_below_bounds(s, v);
        } else {
            lemma_count_below_sorted(t, v, p);
        }
    }
}

/// A table of distinct ascending keys is fixed by the keys it holds.
pub proof fn lemma_increasing_unique(a: Seq<i32>, b: Seq<i32>)
    requires
        strictly_increasing(a),
        strictly_increasing(b),
        forall|x: i32| a.contains(x) <==> b.contains(x),
    ensures
        a == b,
    decreases a.len(),
{
    if a.len() == 0 {
        if b.len() > 0 {
            assert(b.contains(b[0]));
        }
        assert(a =~= b);
    } else {
        assert(a.contains(a.last()));
        let j = choose|j: int| 0 <= j < b.len() && b[j] == a.last();
        assert(b.contains(b.last()));
        let i = choose|i: int| 0 <= i < a.len() && a[i] == b.last();
        assert(a.last() == b.last());
        let a0 = a.drop_last();
        let b0 = b.drop_last();
        assert forall|x: i32| a0.contains(x) <==> b0.contains(x) by {
            if a0.contains(x) {
                let m = choose|m: int| 0 <= m < a0.len() && a0[m] == x;
                assert(a[m] == x);
                assert(a.contains(x));
                let n = choose|n: int| 0 <= n < b.len() && b[n] == x;
                assert(b0[n] == x);
            }
            if b0.contains(x) {
                let m = choose|m: int| 0 <= m < b0.len() && b0[m] == x;
                assert(b[m] == x);
                assert(b.contains(x));
                let n = choose|n: int| 0 <= n < a.len() && a[n] == x;
                assert(a0[n] == x);
            }
        }
        lemma_increasing_unique(a0, b0);
        assert(a =~= a0.push(a.last()));
        assert(b =~= b0.push(b.last()));
    }
}

/// The number of items of an ascending table that are smaller than `key`,
/// found by halving: the place where `key` stands, or would have to be put.
pub fn lower_bound(table: &[i32], key: i32) -> (p: usize)
    requires
        ascending(table@),
    ensures
        p == count_below(table@, key as int),
        p <= table.len(),
        forall|i: int| 0 <= i < p ==> table[i] < key,
        forall|i: int| p <= i < table.len() ==> table[i] >= key,
{
    let mut lo: usize = 0;
    let mut hi: usize = table.len();
    while lo < hi
        invariant
            ascending(table@),
            lo <= hi <= table.len(),
            forall|i: int| 0 <= i < lo ==> table[i] < key,
            forall|i: int| hi <= i < table.len() ==> table[i] >= key,
        decreases hi - lo,
    {
        let mid: usize = lo + (hi - lo) / 2;
        if table[mid] < key {
            lo = mid + 1;
        } else {
            hi = mid;
        }
    }
    proof {
        lemma_count_below_sorted(table@, key as int, lo as int);
    }
    lo
}

/// Merges two tables of distinct ascending keys into one; a key that both
/// hold is taken once.
pub fn merge_distinct(a: &Vec<i32>, b: &Vec<i32>) -> (out: Vec<i32>)
    requires
        strictly_increasing(a@),
        strictly_increasing(b@),
    ensures
        strictly_increasing(out@),
        forall|x: i32| out@.contains(x) <==> a@.contains(x) || b@.contains(x),
{
    let mut out: Vec<i32> = Vec::new();
    let mut i: usize = 0;
    let mut j: usize = 0;
    while i < a.len() || j < b.len()
        invariant
            strictly_increasing(a@),
            strictly_increasing(b@),
            i <= a.len(),
            j <= b.len(),
            strictly_increasing(out@),
            forall|o: int| 0 <= o < out.len() && i < a.len() ==> #[trigger] out[o] < a[i as int],
            forall|o: int| 0 <= o < out.len() && j < b.len() ==> #[trigger] out[o] < b[j as int],
            forall|o: int|
                0 <= o < out.len() ==> a@.contains(#[trigger] out[o]) || b@.contains(out[o]),
            forall|m: int| 0 <= m < i ==> out@.contains(#[trigger] a[m]),
            forall|m: int| 0 <= m < j ==> out@.contains(#[trigger] b[m]),
        decreases a.len() - i + b.len() - j,
    {
        let ghost prev = out@;
        let take_a: bool = j >= b.len() || (i < a.len() && a[i] <= b[j]);
        let x: i32 = if take_a {
            a[i]
        } else {
            b[j]
        };
        out.push(x);
        proof {
            assert(out@[prev.len() as int] == x);
            assert forall|y: i32| prev.contains(y) implies out@.contains(y) by {
                let m = choose|m: int| 0 <= m < prev.len() && prev[m] == y;
                assert(out@[m] == y);
            }
        }
        if take_a {
            if j < b.len() && b[j] == x {
                j = j + 1;
            }
            i = i + 1;
        } else {
            j = j + 1;
        }
    }
    proof {
        assert forall|x: i32| out@.contains(x) <==> a@.contains(x) || b@.contains(x) by {
            if a@.contains(x) {
                let m = choose|m: int| 0 <= m < a@.len() && a@[m] == x;
                assert(out@.contains(a[m]));
            }
            if b@.contains(x) {
                let m = choose|m: int| 0 <= m < b@.len() && b@[m] == x;
                assert(out@.contains(b[m]));
            }
            if out@.contains(x) {
                let o = choose|o: int| 0 <= o < out@.len() && out@[o] == x;
                assert(a@.contains(out[o]) || b@.contains(out[o]));
            }
        }
    }
    out
}

/// The distinct keys among `keys[lo..hi]`, ascending.
fn distinct_sorted_range(keys: &[i32], lo: usize, hi: usize) -> (out: Vec<i32>)
    requires
        lo <= hi <= keys.len(),
    ensures
        strictly_increasing(out@),
        forall|x: i32| out@.contains(x) <==> keys@.subrange(lo as int, hi as int).contains(x),
    decreases hi - lo,
{
    let ghost part = keys@.subrange(lo as int, hi as int);
    if hi - lo == 0 {
        let out: Vec<i32> = Vec::new();
        out
    } else if hi - lo == 1 {
        let mut out: Vec<i32> = Vec::new();
        out.push(keys[lo]);
        proof {
            assert(part[0] == keys[lo as int]);
            assert(out@[0] == keys[lo as int]);
        }
        out
    } else {
        let mid: usize = lo + (hi - lo) / 2;
        let left = distinct_sorted_range(keys, lo, mid);
        let right = distinct_sorted_range(keys, mid, hi);
        let out = merge_distinct(&left, &right);
        proof {
            let l = keys@.subrange(lo as int, mid as int);
            let r = keys@.subrange(mid as int, hi as int);
            assert forall|x: i32| out@.contains(x) <==> part.contains(x) by {
                if l.contains(x) {
                    let m = choose|m: int| 0 <= m < l.len() && l[m] == x;
                    assert(part[m] == x);
                }
                if r.contains(x) {
                    let m = choose|m: int| 0 <= m < r.len() && r[m] == x;
                    assert(part[m + (mid - lo)] == x);
                }
                if part.contains(x) {
                    let m = choose|m: int| 0 <= m < part.len() && part[m] == x;
                    if m < mid - lo {
                        assert(l[m] == x);
                    } else {
                        assert(r[m - (mid - lo)] == x);
                    }
                }
            }
        }
        out
    }
}

/// The distinct keys of `keys`, ascending: the table by which a key is given
/// its place among the values that occur.
pub fn distinct_sorted(keys: &[i32]) -> (out: Vec<i32>)
    ensures
        strictly_increasing(out@),
        forall|x: i32| out@.contains(x) <==> keys@.contains(x),
{
    let out = distinct_sorted_range(keys, 0, keys.len());
    proof {
        assert(keys@.subrange(0, keys.len() as int) =~= keys@);
    }
    out
}

} // verus!
