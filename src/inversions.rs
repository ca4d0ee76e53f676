use vstd::prelude::*;

verus! {

/// Number of elements of `s` strictly greater than `v`.
pub open spec fn count_greater(s: Seq<usize>, v: int) -> nat
    decreases s.len(),
{
    if s.len() == 0 {
        0
    } else {
        count_greater(s.drop_last(), v) + (if s.last() > v { 1nat } else { 0nat })
    }
}

/// Number of pairs `(i, j)` with `i < j` and `s[i] > s[j]`, grouped by `j`.
pub open spec fn inversions(s: Seq<usize>) -> nat
    decreases s.len(),
{
    if s.len() == 0 {
        0
    } else {
        inversions(s.drop_last()) + count_greater(s.drop_last(), s.last() as int)
    }
}

/// `s` holds each of `1..=s.len()` exactly once.
pub open spec fn is_permutation(s: Seq<usize>) -> bool {
    &&& forall|i: int| 0 <= i < s.len() ==> 1 <= #[trigger] s[i] <= s.len()
    &&& forall|i: int, j: int| 0 <= i < j < s.len() ==> s[i] != s[j]
}

pub proof fn lemma_count_greater_le_len(s: Seq<usize>, v: int)
    ensures
        count_greater(s, v) <= s.len(),
    decreases s.len(),
{
    if s.len() > 0 {
        lemma_count_greater_le_len(s.drop_last(), v);
    }
}

/// No sequence of length `n` has more than `n * (n - 1) / 2` inversions.
pub proof fn lemma_inversions_bounded(s: Seq<usize>)
    ensures
        inversions(s) <= s.len() * (s.len() - 1) / 2,
    decreases s.len(),
{
    if s.len() > 0 {
        let m = s.drop_last().len();
        lemma_inversions_bounded(s.drop_last());
        lemma_count_greater_le_len(s.drop_last(), s.last() as int);
        assert(m * (m - 1) / 2 + m == (m + 1) * m / 2) by (nonlinear_arith);
    }
}

} // verus!
