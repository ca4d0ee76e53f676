use vstd::prelude::*;

verus! {

/// Sum of `t[a] + t[a + 1] + ... + t[b]` (zero when `a > b`).
pub open spec fn range_total(t: Seq<usize>, a: int, b: int) -> int
    decreases b + 1 - a,
{
    if a > b {
        0
    } else {
        range_total(t, a, b - 1) + t[b]
    }
}

/// `w` is a power of two.
pub open spec fn is_pow2(w: nat) -> bool
    decreases w,
{
    if w <= 1 {
        w == 1
    } else {
        w % 2 == 0 && is_pow2(w / 2)
    }
}

/// Every internal node `k` of the implicit tree holds the sum of its two children.
pub open spec fn sums_consistent(t: Seq<usize>, w: int) -> bool {
    forall|k: int| 1 <= k < w ==> #[trigger] t[k] == t[2 * k] + t[2 * k + 1]
}

proof fn lemma_range_total_nonneg(t: Seq<usize>, a: int, b: int)
    ensures
        range_total(t, a, b) >= 0,
    decreases b + 1 - a,
{
    if a <= b {
        lemma_range_total_nonneg(t, a, b - 1);
    }
}

proof fn lemma_range_total_front(t: Seq<usize>, a: int, b: int)
    requires
        a <= b,
    ensures
        range_total(t, a, b) == t[a] + range_total(t, a + 1, b),
    decreases b + 1 - a,
{
    assert(range_total(t, a, b) == range_total(t, a, b - 1) + t[b]);
    if a < b {
        lemma_range_total_front(t, a, b - 1);
        assert(range_total(t, a + 1, b) == range_total(t, a + 1, b - 1) + t[b]);
    } else {
        assert(range_total(t, a, b - 1) == 0);
        assert(range_total(t, a + 1, b) == 0);
    }
}

/// A run of sibling pairs `2a ..= 2b + 1` sums to the run of their parents `a ..= b`.
proof fn lemma_range_total_parents(t: Seq<usize>, w: int, a: int, b: int)
    requires
        sums_consistent(t, w),
        1 <= a,
        b < w,
    ensures
        range_total(t, 2 * a, 2 * b + 1) == range_total(t, a, b),
    decreases b + 1 - a,
{
    if a <= b {
        lemma_range_total_parents(t, w, a, b - 1);
        assert(t[b] == t[2 * b] + t[2 * b + 1]);
        assert(range_total(t, 2 * a, 2 * b + 1) == range_total(t, 2 * a, 2 * b) + t[2 * b + 1]);
    }
}

/// Raising one entry by one raises every range that covers it by one, and no other.
proof fn lemma_range_total_bump(t0: Seq<usize>, t1: Seq<usize>, a: int, b: int, i: int)
    requires
        forall|x: int| a <= x <= b ==> #[trigger] t1[x] == t0[x] + (if x == i { 1int } else { 0int }),
    ensures
        range_total(t1, a, b) == range_total(t0, a, b) + (if a <= i <= b { 1int } else { 0int }),
    decreases b + 1 - a,
{
    if a <= b {
        lemma_range_total_bump(t0, t1, a, b - 1, i);
    }
}

proof fn lemma_range_total_zero(t: Seq<usize>, a: int, b: int)
    requires
        forall|x: int| a <= x <= b ==> #[trigger] t[x] == 0,
    ensures
        range_total(t, a, b) == 0,
    decreases b + 1 - a,
{
    if a <= b {
        lemma_range_total_zero(t, a, b - 1);
    }
}

proof fn lemma_halving(x: usize)
    ensures
        (x & 1 == 1) == (x % 2 == 1),
        (x & 1 == 0) == (x % 2 == 0),
        x >> 1 == x / 2,
{
    assert((x & 1 == 1) == (x % 2 == 1)) by (bit_vector);
    assert((x & 1 == 0) == (x % 2 == 0)) by (bit_vector);
    assert(x >> 1 == x / 2) by (bit_vector);
}

/// Counters for the values of a slot range, kept in an implicit binary tree:
/// node `k` has children `2k` and `2k + 1`, the slots are the leaves
/// `width ..= 2 * width - 1`, and index `0` is unused.
pub struct CountTree {
    nodes: Vec<usize>,
    width: usize,
}

impl CountTree {
    pub closed spec fn spec_width(&self) -> nat {
        self.width as nat
    }

    /// The counter of slot `s`.
    pub closed spec fn leaf_at(&self, s: int) -> int {
        self.nodes@[self.width + s] as int
    }

    /// Sum of the counters of slots `lo ..= hi`.
    pub closed spec fn leaf_total(&self, lo: int, hi: int) -> int {
        range_total(self.nodes@, self.width + lo, self.width + hi)
    }

    /// No node holds more than `b`.
    pub closed spec fn bounded_by(&self, b: int) -> bool {
        forall|k: int| 0 <= k < self.nodes@.len() ==> #[trigger] self.nodes@[k] <= b
    }

    pub closed spec fn wf(&self) -> bool {
        &&& is_pow2(self.width as nat)
        &&& self.nodes@.len() == 2 * self.width
        &&& 2 * self.width <= usize::MAX
        &&& sums_consistent(self.nodes@, self.width as int)
    }

    /// A tree whose width is the smallest power of two that is at least `n`,
    /// with every counter zero.
    pub fn new(n: usize) -> (r: CountTree)
        requires
            n <= usize::MAX / 4,
        ensures
            r.wf(),
            r.bounded_by(0),
            is_pow2(r.spec_width()),
            n <= r.spec_width(),
            r.spec_width() == 1 || r.spec_width() / 2 < n,
            forall|s: int| 0 <= s < r.spec_width() ==> #[trigger] r.leaf_at(s) == 0,
            forall|lo: int, hi: int|
                0 <= lo && hi < r.spec_width() ==> #[trigger] r.leaf_total(lo, hi) == 0,
    {
        let mut w: usize = 1;
        while w < n
            invariant
                1 <= w,
                is_pow2(w as nat),
                w == 1 || w / 2 < n,
                n <= usize::MAX / 4,
            decreases usize::MAX - w,
        {
            assert((2 * w) as nat / 2 == w as nat);
            w = w * 2;
        }
        let nodes: Vec<usize> = vec![0usize; 2 * w];
        let r = CountTree { nodes, width: w };
        assert forall|k: int| 0 <= k < r.nodes@.len() implies #[trigger] r.nodes@[k] == 0 by {
            assert(cloned(0usize, r.nodes@[k]));
        }
        assert forall|lo: int, hi: int|
            0 <= lo && hi < r.spec_width() implies #[trigger] r.leaf_total(lo, hi) == 0 by {
            lemma_range_total_zero(r.nodes@, r.width + lo, r.width + hi);
        }
        r
    }

    /// The counter of slot `s`.
    pub fn leaf(&self, s: usize) -> (r: usize)
        requires
            self.wf(),
            s < self.spec_width(),
        ensures
            r == self.leaf_at(s as int),
    {
        self.nodes[self.width + s]
    }

    /// Sum of the counters of slots `lo ..= hi`, gathered by climbing both
    /// ends of the range towards the root.
    pub fn range_count(&self, lo: usize, hi: usize) -> (r: u64)
        requires
            self.wf(),
            lo <= hi + 1,
            hi < self.spec_width(),
            self.leaf_total(lo as int, hi as int) <= u64::MAX,
        ensures
            r == self.leaf_total(lo as int, hi as int),
    {
        let ghost t = self.nodes@;
        let ghost target = self.leaf_total(lo as int, hi as int);
        let mut sum: u64 = 0;
        let mut left: usize = self.width + lo;
        let mut right: usize = self.width + hi;
        while left <= right
            invariant
                self.wf(),
                t == self.nodes@,
                1 <= left,
                right < 2 * self.width,
                target <= u64::MAX,
                sum + range_total(t, left as int, right as int) == target,
            decreases right,
        {
            proof {
                lemma_halving(left);
                lemma_halving(right);
                lemma_range_total_front(t, left as int, right as int);
            }
            let ghost l0 = left as int;
            let ghost r0 = right as int;
            if (left & 1) == 1 {
                proof {
                    lemma_range_total_nonneg(t, l0 + 1, r0);
                }
                sum = sum + self.nodes[left] as u64;
            }
            let ghost l1: int = if l0 % 2 == 1 { l0 + 1 } else { l0 };
            assert(sum + range_total(t, l1, r0) == target);
            if (right & 1) == 0 {
                proof {
                    assert(l1 <= r0);
                    assert(range_total(t, l1, r0) == range_total(t, l1, r0 - 1) + t[r0]);
                    lemma_range_total_nonneg(t, l1, r0 - 1);
                }
                sum = sum + self.nodes[right] as u64;
            }
            let ghost r1: int = if r0 % 2 == 0 { r0 - 1 } else { r0 };
            assert(sum + range_total(t, l1, r1) == target);
            proof {
                lemma_halving((left + 1) as usize);
                lemma_halving((right - 1) as usize);
                if l1 <= r1 {
                    lemma_range_total_parents(t, self.width as int, l1 / 2, (r1 - 1) / 2);
                }
            }
            left = (left + 1) >> 1;
            right = (right - 1) >> 1;
        }
        sum
    }

    /// Adds one to the counter of slot `s`, and to every ancestor of its leaf.
    pub fn add_one(&mut self, s: usize, Ghost(b): Ghost<int>)
        requires
            old(self).wf(),
            s < old(self).spec_width(),
            old(self).bounded_by(b),
            b < usize::MAX,
        ensures
            final(self).wf(),
            final(self).spec_width() == old(self).spec_width(),
            final(self).bounded_by(b + 1),
            forall|x: int|
                0 <= x < old(self).spec_width() ==> #[trigger] final(self).leaf_at(x) == old(
                    self,
                ).leaf_at(x) + (if x == s { 1int } else { 0int }),
            forall|lo: int, hi: int|
                0 <= lo && hi < old(self).spec_width() ==> #[trigger] final(self).leaf_total(lo, hi)
                    == old(self).leaf_total(lo, hi) + (if lo <= s <= hi { 1int } else { 0int }),
    {
        let ghost t0 = self.nodes@;
        let ghost w = self.width as int;
        let leaf: usize = self.width + s;
        self.nodes.set(leaf, self.nodes[leaf] + 1);
        let ghost t1 = self.nodes@;
        proof {
            lemma_halving(leaf);
        }
        let mut node: usize = leaf >> 1;
        while node != 0
            invariant
                self.width == w,
                self.nodes@.len() == 2 * w,
                is_pow2(w as nat),
                2 * w <= usize::MAX,
                t0.len() == 2 * w,
                node < w,
                node < leaf,
                leaf == w + s,
                b < usize::MAX,
                forall|k: int| 0 <= k < 2 * w ==> #[trigger] self.nodes@[k] <= b + 1,
                forall|k: int| 0 <= k <= node ==> #[trigger] self.nodes@[k] == t0[k],
                forall|k: int| 0 <= k < 2 * w ==> #[trigger] t0[k] <= b,
                forall|k: int| w <= k < 2 * w ==> #[trigger] self.nodes@[k] == t1[k],
                forall|k: int|
                    1 <= k < w && k != node ==> #[trigger] self.nodes@[k] == self.nodes@[2 * k]
                        + self.nodes@[2 * k + 1],
                1 <= node ==> self.nodes@[node as int] + 1 == self.nodes@[2 * node as int]
                    + self.nodes@[2 * node + 1],
            decreases node,
        {
            proof {
                lemma_halving(node);
            }
            self.nodes.set(node, self.nodes[node] + 1);
            node = node >> 1;
        }
        proof {
            let t2 = self.nodes@;
            assert forall|lo: int, hi: int|
                0 <= lo && hi < w implies #[trigger] self.leaf_total(lo, hi) == range_total(
                t0,
                w + lo,
                w + hi,
            ) + (if lo <= s <= hi { 1int } else { 0int }) by {
                assert forall|x: int| w + lo <= x <= w + hi implies #[trigger] t2[x] == t0[x] + (
                if x == w + s {
                    1int
                } else {
                    0int
                }) by {
                    assert(t2[x] == t1[x]);
                }
                lemma_range_total_bump(t0, t2, w + lo, w + hi, w + s);
            }
            assert forall|x: int| 0 <= x < w implies #[trigger] self.leaf_at(x) == t0[w + x] + (
            if x == s {
                1int
            } else {
                0int
            }) by {
                assert(t2[w + x] == t1[w + x]);
            }
        }
    }
}

} // verus!
