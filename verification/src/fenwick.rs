//! A binary indexed tree of non-negative counts.

use vstd::prelude::*;

verus! {

/// The lowest set bit of `i`; zero for zero.
pub open spec fn low_bit(i: usize) -> usize {
    i & (i ^ (i - 1) as usize)
}

/// Computes the lowest set bit of a positive index.
pub fn lowest_bit(i: usize) -> (b: usize)
    requires
        i > 0,
    ensures
        b == low_bit(i),
        0 < b <= i,
{
    let b: usize = i & (i ^ (i - 1));
    assert(0 < (i & (i ^ (i - 1) as usize)) <= i) by (bit_vector)
        requires
            i > 0,
    ;
    b
}

/// The lowest set bit of a positive index is positive and no larger than the index.
pub proof fn lemma_low_bit_bounds(i: usize)
    requires
        i > 0,
    ensures
        0 < low_bit(i) <= i,
{
    assert(0 < (i & (i ^ (i - 1) as usize)) <= i) by (bit_vector)
        requires
            i > 0,
    ;
}

/// The node above node `i` on the path of an update stands for at least twice
/// as many positions.
proof fn lemma_low_bit_parent(i: usize)
    requires
        i > 0,
        i + low_bit(i) <= usize::MAX,
    ensures
        low_bit((i + low_bit(i)) as usize) >= 2 * low_bit(i),
{
    let b = low_bit(i);
    let p = (i + b) as usize;
    lemma_low_bit_bounds(i);
    assert(p & (p ^ (p - 1) as usize) >= 2 * b) by (bit_vector)
        requires
            i > 0,
            b == i & (i ^ (i - 1) as usize),
            p == (i + b) as usize,
            p > i,
    ;
}

/// The nodes between node `i` and the node above it on the path of an update
/// stand for positions above `i` only.
proof fn lemma_low_bit_between(i: usize, y: usize)
    requires
        i > 0,
        i < y,
        y < i + low_bit(i),
    ensures
        y - low_bit(y) >= i,
{
    let b = low_bit(i);
    assert(y - (y & (y ^ (y - 1) as usize)) >= i) by (bit_vector)
        requires
            i > 0,
            i < y,
            b == i & (i ^ (i - 1) as usize),
            y < i + b,
    ;
}

/// Whether node `x` of the tree holds the count at position `p - 1`:
/// a node stands for the positions `x - low_bit(x) + 1 ..= x`, counted from one.
pub open spec fn covers(x: usize, p: usize) -> bool {
    x - low_bit(x) < p <= x
}

/// Sum of the nodes on the path from `j` down to zero.
pub open spec fn chain_sum(tree: Seq<i32>, j: nat) -> int
    decreases j,
{
    if j == 0 || j > usize::MAX {
        0
    } else {
        proof {
            lemma_low_bit_bounds(j as usize);
        }
        tree[j as int] + chain_sum(tree, (j - low_bit(j as usize)) as nat)
    }
}

/// In a tree of zeros every path sums to zero.
proof fn lemma_chain_sum_zero(tree: Seq<i32>, j: nat)
    requires
        j < tree.len(),
        forall|x: int| 0 <= x < tree.len() ==> tree[x] == 0,
    ensures
        chain_sum(tree, j) == 0,
    decreases j,
{
    if j > 0 && j <= usize::MAX {
        lemma_low_bit_bounds(j as usize);
        lemma_chain_sum_zero(tree, (j - low_bit(j as usize)) as nat);
    }
}

/// Adding `delta` to every node that covers `p` raises exactly the sums of the
/// paths that start at `p` or above.
proof fn lemma_chain_sum_shift(a: Seq<i32>, b: Seq<i32>, p: usize, delta: int, j: nat)
    requires
        a.len() == b.len(),
        a.len() <= usize::MAX,
        0 < p,
        j < a.len(),
        forall|x: usize|
            0 < x < a.len() ==> b[x as int] == a[x as int] + (if covers(x, p) {
                delta
            } else {
                0
            }),
    ensures
        chain_sum(b, j) == chain_sum(a, j) + (if j >= p {
            delta
        } else {
            0
        }),
    decreases j,
{
    if j > 0 {
        let x = j as usize;
        lemma_low_bit_bounds(x);
        lemma_chain_sum_shift(a, b, p, delta, (j - low_bit(x)) as nat);
    }
}

/// A power of two.
pub open spec fn single_bit(b: usize) -> bool {
    b > 0 && b & (b - 1) as usize == 0
}

/// Counts over the positions `0..size`, held so that a count can change and a
/// rank can be looked up in logarithmic time.
pub struct FenwickTree {
    tree: Vec<i32>,
}

impl FenwickTree {
    /// Number of positions.
    pub closed spec fn size(&self) -> nat {
        (self.tree.len() - 1) as nat
    }

    /// Sum of the counts at the positions below `j`.
    pub closed spec fn prefix(&self, j: nat) -> int {
        chain_sum(self.tree@, j)
    }

    /// The count at position `i`.
    pub open spec fn count(&self, i: nat) -> int {
        self.prefix(i + 1) - self.prefix(i)
    }

    /// Sum of all counts.
    pub open spec fn total(&self) -> int {
        self.prefix(self.size())
    }

    /// The counts, position by position.
    pub open spec fn view(&self) -> Seq<int> {
        Seq::new(self.size(), |i: int| self.count(i as nat))
    }

    /// No count is negative.
    pub closed spec fn wf(&self) -> bool {
        &&& self.tree.len() >= 1
        &&& forall|j: nat| j < self.size() ==> self.prefix(j) <= #[trigger] self.prefix(j + 1)
    }

    /// `pos` is the position at which the running sum of the counts first
    /// reaches `k`: the sum stays below `k` up to `pos` and reaches it with
    /// `pos`. Where the sum never reaches `k`, `pos` is the number of
    /// positions; where it never was below `k`, `pos` is zero.
    pub open spec fn is_kth(&self, k: int, pos: nat) -> bool {
        &&& pos <= self.size()
        &&& pos == 0 || self.prefix(pos) < k
        &&& pos == self.size() || self.prefix(pos + 1) >= k
    }

    /// Nothing lies below position zero.
    pub proof fn lemma_prefix_zero(&self)
        ensures
            self.prefix(0) == 0,
    {
    }

    /// Without negative counts the prefix sums never fall.
    pub proof fn lemma_prefix_monotone(&self, a: nat, b: nat)
        requires
            self.wf(),
            a <= b <= self.size(),
        ensures
            self.prefix(a) <= self.prefix(b),
            forall|i: nat| i < self.size() ==> #[trigger] self.count(i) >= 0,
        decreases b - a,
    {
        if a < b {
            self.lemma_prefix_monotone(a, (b - 1) as nat);
            assert(self.prefix((b - 1) as nat) <= self.prefix(((b - 1) as nat) + 1));
        }
        assert forall|i: nat| i < self.size() implies #[trigger] self.count(i) >= 0 by {
            assert(self.prefix(i) <= self.prefix(i + 1));
        }
    }

    /// The running sum reaches `k` first at one position only.
    pub proof fn lemma_kth_unique(&self, k: int, a: nat, b: nat)
        requires
            self.wf(),
            self.is_kth(k, a),
            self.is_kth(k, b),
        ensures
            a == b,
    {
        if a < b {
            self.lemma_prefix_monotone(a + 1, b);
        } else if b < a {
            self.lemma_prefix_monotone(b + 1, a);
        }
    }

    /// What a node holds: the counts between its parent path and itself.
    proof fn lemma_node_bounds(&self, x: usize)
        requires
            self.wf(),
            0 < x <= self.size(),
        ensures
            0 <= self.tree@[x as int] <= self.total(),
            self.tree@[x as int] == self.prefix(x as nat) - self.prefix(
                (x - low_bit(x)) as nat,
            ),
    {
        lemma_low_bit_bounds(x);
        self.lemma_prefix_monotone((x - low_bit(x)) as nat, x as nat);
        self.lemma_prefix_monotone(0, (x - low_bit(x)) as nat);
        self.lemma_prefix_monotone(x as nat, self.size());
    }

    /// A tree of `size` positions with every count zero.
    pub fn new(size: usize) -> (t: Self)
        requires
            size < usize::MAX,
        ensures
            t.wf(),
            t.size() == size,
            forall|j: nat| j <= size ==> t.prefix(j) == 0,
            t@ == Seq::new(size as nat, |i: int| 0int),
    {
        let t = FenwickTree { tree: vec![0; size + 1] };
        proof {
            assert forall|j: nat| j <= size implies t.prefix(j) == 0 by {
                lemma_chain_sum_zero(t.tree@, j);
            }
            assert(t@ =~= Seq::new(size as nat, |i: int| 0int));
        }
        t
    }

    /// Adds `delta` to the count at position `i`.
    pub fn update(&mut self, i: usize, delta: i32)
        requires
            old(self).wf(),
            i < old(self).size(),
            old(self).count(i as nat) + delta >= 0,
            old(self).total() + delta <= i32::MAX,
        ensures
            final(self).wf(),
            final(self).size() == old(self).size(),
            forall|j: nat|
                j <= old(self).size() ==> final(self).prefix(j) == old(self).prefix(j) + (if j
                    > i {
                    delta as int
                } else {
                    0
                }),
            final(self)@ == old(self)@.update(i as int, old(self)@[i as int] + delta),
    {
        let ghost before = *self;
        let n: usize = self.tree.len() - 1;
        let p: usize = i + 1;
        let mut x: usize = p;
        proof {
            lemma_low_bit_bounds(p);
            before.lemma_prefix_monotone((i + 1) as nat, n as nat);
            before.lemma_prefix_monotone(0, i as nat);
        }
        while x <= n
            invariant
                self.tree.len() == n + 1,
                before.tree.len() == n + 1,
                before.wf(),
                0 < p <= x,
                p == i + 1,
                x <= n ==> covers(x, p),
                -before.total() <= delta,
                before.total() + delta <= i32::MAX,
                forall|y: int|
                    0 < y <= n ==> #[trigger] self.tree@[y] == before.tree@[y] + (if covers(
                        y as usize,
                        p,
                    ) && y < x {
                        delta as int
                    } else {
                        0
                    }),
            decreases n + 1 - x,
        {
            proof {
                before.lemma_node_bounds(x);
            }
            let ghost entry = self.tree@;
            let updated: i32 = self.tree[x] + delta;
            self.tree[x] = updated;
            let b = lowest_bit(x);
            let next: usize = if b > n - x {
                n + 1
            } else {
                x + b
            };
            proof {
                if next <= n {
                    lemma_low_bit_parent(x);
                }
                assert forall|y: int| 0 < y <= n implies #[trigger] self.tree@[y] == before.tree@[y]
                    + (if covers(y as usize, p) && y < next {
                    delta as int
                } else {
                    0
                }) by {
                    if y != x {
                        assert(self.tree@[y] == entry[y]);
                        if x < y && y < next {
                            lemma_low_bit_between(x, y as usize);
                        }
                    }
                }
            }
            x = next;
        }
        proof {
            assert forall|y: usize| 0 < y < self.tree@.len() implies self.tree@[y as int]
                == before.tree@[y as int] + (if covers(y, p) {
                delta as int
            } else {
                0
            }) by {
                assert(self.tree@[y as int] == before.tree@[y as int] + (if covers(
                    y as int as usize,
                    p,
                ) && y < x {
                    delta as int
                } else {
                    0
                }));
            }
        }
        proof {
            assert forall|j: nat| j <= n implies self.prefix(j) == before.prefix(j) + (if j > i {
                delta as int
            } else {
                0
            }) by {
                lemma_chain_sum_shift(before.tree@, self.tree@, p, delta as int, j);
            }
            assert forall|j: nat| j < self.size() implies self.prefix(j) <= #[trigger] self.prefix(
                j + 1,
            ) by {
                assert(before.prefix(j) <= before.prefix(j + 1));
            }
            assert(self@ =~= before@.update(i as int, before@[i as int] + delta));
        }
    }

    /// The position of the `k`-th smallest item, counted from one: the
    /// position at which the running sum of the counts first reaches `k`.
    pub fn kth(&self, k: i32) -> (pos: usize)
        requires
            self.wf(),
        ensures
            self.is_kth(k as int, pos as nat),
            0 < k <= self.total() ==> pos < self.size() && self.count(pos as nat) > 0,
    {
        let n: usize = self.tree.len() - 1;
        if n == 0 {
            return 0;
        }
        let mut bit: usize = 1;
        assert(single_bit(1usize)) by (bit_vector);
        while bit <= n / 2
            invariant
                single_bit(bit),
                bit <= n,
            decreases n - bit,
        {
            assert(single_bit((2 * bit) as usize)) by (bit_vector)
                requires
                    single_bit(bit),
                    (2 * bit) as usize > bit,
            ;
            bit = 2 * bit;
        }
        let mut pos: usize = 0;
        let mut rest: i32 = k;
        let ghost mut span: int = 2 * bit;
        assert(0usize & (bit | (bit - 1) as usize) == 0) by (bit_vector);
        while bit > 0
            invariant
                self.wf(),
                self.tree.len() == n + 1,
                pos <= n,
                bit > 0 ==> single_bit(bit) && span == 2 * bit && pos & (bit | (bit - 1) as usize)
                    == 0,
                bit == 0 ==> span == 1,
                rest == k - self.prefix(pos as nat),
                pos == 0 || self.prefix(pos as nat) < k,
                pos + span > n || self.prefix((pos + span) as nat) >= k,
            decreases bit,
        {
            let half: usize = bit / 2;
            proof {
                assert(half == 0 || (single_bit(half) && 2 * half == bit)) by (bit_vector)
                    requires
                        single_bit(bit),
                        half == bit / 2,
                ;
                assert(half > 0 ==> pos & (half | (half - 1) as usize) == 0) by (bit_vector)
                    requires
                        single_bit(bit),
                        half == bit / 2,
                        pos & (bit | (bit - 1) as usize) == 0,
                ;
            }
            if bit <= n - pos {
                let next: usize = pos + bit;
                proof {
                    assert(next & (next ^ (next - 1) as usize) == bit && (half > 0 ==> next & (half
                        | (half - 1) as usize) == 0)) by (bit_vector)
                        requires
                            single_bit(bit),
                            half == bit / 2,
                            pos & (bit | (bit - 1) as usize) == 0,
                            next == (pos + bit) as usize,
                            next > pos,
                    ;
                    assert(low_bit(next) == bit);
                    self.lemma_node_bounds(next);
                    self.lemma_prefix_monotone(0, pos as nat);
                }
                if self.tree[next] < rest {
                    rest = rest - self.tree[next];
                    pos = next;
                }
            }
            proof {
                span = bit as int;
            }
            bit = half;
        }
        pos
    }
}

} // verus!
