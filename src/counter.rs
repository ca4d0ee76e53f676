use vstd::prelude::*;

use crate::inversions::{
    count_greater, inversions, is_permutation, lemma_count_greater_le_len, lemma_inversions_bounded,
};
use crate::tree::CountTree;

verus! {

/// Why a sequence was refused.
#[derive(Debug, Clone, Copy, PartialEq, Eq)]
pub enum CountError {
    /// An item lies outside `1..=len`, or a value occurs twice.
    InvalidInput,
}

impl CountError {
    /// A short description of the failure.
    pub fn message(&self) -> (r: &'static str)
        ensures
            r@ == "The Sequence has an item not in [1,len(seq)] or duplication"@,
    {
        "The Sequence has an item not in [1,len(seq)] or duplication"
    }
}

/// `v` occurs among the first `k` items of `s`.
pub open spec fn occurs_before(s: Seq<usize>, k: int, v: int) -> bool {
    exists|i: int| 0 <= i < k && s[i] == v
}

/// The inversion number of `seq`, a permutation of `1..=seq.len()`:
/// the number of pairs of positions `i < j` with `seq[i] > seq[j]`.
///
/// The items are read in order. Each one is checked, then the values seen
/// before it that exceed it are counted in a tree of counters, and then it
/// is recorded in the tree.
///
/// The length is bounded so that the tree's indices fit in a `usize` and
/// `n * (n - 1) / 2` fits in the `u64` result.
pub fn count(seq: &[usize]) -> (r: Result<u64, CountError>)
    requires
        seq@.len() <= usize::MAX / 4,
        seq@.len() <= u32::MAX,
    ensures
        r is Ok <==> is_permutation(seq@),
        r is Ok ==> r->Ok_0 == inversions(seq@),
        r is Err ==> r->Err_0 == CountError::InvalidInput,
        seq@.len() == 0 ==> r == Ok::<u64, CountError>(0),
        (exists|i: int| 0 <= i < seq@.len() && seq@[i] < 1) ==> r is Err,
        (exists|i: int| 0 <= i < seq@.len() && seq@[i] > seq@.len()) ==> r is Err,
        (exists|i: int, j: int| 0 <= i < j < seq@.len() && seq@[i] == seq@[j]) ==> r is Err,
{
    let n: usize = seq.len();
    let ghost s = seq@;
    let mut tree = CountTree::new(n);
    let mut inversion: u64 = 0;
    let mut k: usize = 0;
    while k < n
        invariant
            s == seq@,
            n == s.len(),
            n <= usize::MAX / 4,
            n <= u32::MAX,
            k <= n,
            tree.wf(),
            n <= tree.spec_width(),
            tree.bounded_by(k as int),
            forall|i: int| 0 <= i < k ==> 1 <= #[trigger] s[i] <= n,
            forall|i: int, j: int| 0 <= i < j < k ==> s[i] != s[j],
            forall|u: int|
                0 <= u < n ==> #[trigger] tree.leaf_at(u) == (if occurs_before(s, k as int, u + 1) {
                    1int
                } else {
                    0int
                }),
            forall|a: int|
                0 <= a <= n ==> #[trigger] tree.leaf_total(a, n - 1) == count_greater(
                    s.subrange(0, k as int),
                    a,
                ),
            inversion == inversions(s.subrange(0, k as int)),
        decreases n - k,
    {
        let v: usize = seq[k];
        let ghost pre = s.subrange(0, k as int);
        if v < 1 || v > n || tree.leaf(v - 1) > 0 {
            proof {
                if 1 <= v <= n {
                    assert(occurs_before(s, k as int, v as int));
                    let i = choose|i: int| 0 <= i < k && s[i] == v;
                    assert(s[i] == s[k as int]);
                }
            }
            return Err(CountError::InvalidInput);
        }
        proof {
            lemma_count_greater_le_len(pre, v as int);
            lemma_inversions_bounded(pre);
            assert(tree.leaf_total(v as int, n - 1) == count_greater(pre, v as int));
            assert(k * (k - 1) / 2 + k <= u64::MAX) by (nonlinear_arith)
                requires
                    k <= u32::MAX,
            ;
        }
        let greater: u64 = tree.range_count(v, n - 1);
        inversion = inversion + greater;
        let ghost before = tree;
        tree.add_one(v - 1, Ghost(k as int));
        proof {
            let next = s.subrange(0, k + 1);
            assert(next.drop_last() =~= pre);
            assert(next.last() == v);
            assert(!occurs_before(s, k as int, v as int));
            assert(inversions(next) == inversions(pre) + count_greater(pre, v as int));
            assert forall|a: int| 0 <= a <= n implies #[trigger] tree.leaf_total(a, n - 1)
                == count_greater(next, a) by {
                assert(before.leaf_total(a, n - 1) == count_greater(pre, a));
            }
            assert forall|u: int| 0 <= u < n implies #[trigger] tree.leaf_at(u) == (if occurs_before(
                s,
                k + 1,
                u + 1,
            ) {
                1int
            } else {
                0int
            }) by {
                assert(before.leaf_at(u) == (if occurs_before(s, k as int, u + 1) {
                    1int
                } else {
                    0int
                }));
                if u + 1 == v {
                    assert(s[k as int] == u + 1);
                } else if occurs_before(s, k + 1, u + 1) {
                    let i = choose|i: int| 0 <= i < k + 1 && s[i] == u + 1;
                    assert(i < k);
                }
            }
        }
        k = k + 1;
    }
    proof {
        assert(s.subrange(0, n as int) =~= s);
    }
    Ok(inversion)
}

} // verus!
