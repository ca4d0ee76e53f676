use vstd::prelude::*;

use crate::inversions::{count_greater, inversions, is_permutation};

verus! {

/// The sequence `1, 2, ..., n`.
pub open spec fn ascending(n: nat) -> Seq<usize> {
    Seq::new(n, |i: int| (i + 1) as usize)
}

/// The sequence `n, n - 1, ..., 1`.
pub open spec fn descending(n: nat) -> Seq<usize> {
    Seq::new(n, |i: int| (n - i) as usize)
}

/// `s` with the items at positions `i` and `j` exchanged.
pub open spec fn swapped(s: Seq<usize>, i: int, j: int) -> Seq<usize> {
    s.update(i, s[j]).update(j, s[i])
}

/// No value occurs twice in `s`.
pub open spec fn distinct(s: Seq<usize>) -> bool {
    forall|i: int, j: int| 0 <= i < j < s.len() ==> s[i] != s[j]
}

/// Number of items of `s` strictly less than `v`.
pub open spec fn count_less(s: Seq<usize>, v: int) -> nat
    decreases s.len(),
{
    if s.len() == 0 {
        0
    } else {
        count_less(s.drop_last(), v) + (if s.last() < v { 1nat } else { 0nat })
    }
}

proof fn lemma_count_greater_none(s: Seq<usize>, v: int)
    requires
        forall|i: int| 0 <= i < s.len() ==> s[i] <= v,
    ensures
        count_greater(s, v) == 0,
    decreases s.len(),
{
    if s.len() > 0 {
        lemma_count_greater_none(s.drop_last(), v);
    }
}

proof fn lemma_count_greater_front(s: Seq<usize>, v: int)
    requires
        s.len() > 0,
    ensures
        count_greater(s, v) == count_greater(s.drop_first(), v) + (if s[0] > v { 1nat } else { 0nat }),
    decreases s.len(),
{
    if s.len() > 1 {
        let p = s.drop_last();
        let q = s.drop_first();
        lemma_count_greater_front(p, v);
        assert(p.drop_first() =~= q.drop_last());
        assert(count_greater(q, v) == count_greater(q.drop_last(), v) + (if q.last() > v { 1nat } else { 0nat }));
    } else {
        assert(count_greater(s.drop_last(), v) == 0);
        assert(count_greater(s.drop_first(), v) == 0);
    }
}

proof fn lemma_count_less_front(s: Seq<usize>, v: int)
    requires
        s.len() > 0,
    ensures
        count_less(s, v) == count_less(s.drop_first(), v) + (if s[0] < v { 1nat } else { 0nat }),
    decreases s.len(),
{
    if s.len() > 1 {
        let p = s.drop_last();
        let q = s.drop_first();
        lemma_count_less_front(p, v);
        assert(p.drop_first() =~= q.drop_last());
        assert(count_less(q, v) == count_less(q.drop_last(), v) + (if q.last() < v { 1nat } else { 0nat }));
    } else {
        assert(count_less(s.drop_last(), v) == 0);
        assert(count_less(s.drop_first(), v) == 0);
    }
}

proof fn lemma_count_greater_reverse(s: Seq<usize>, v: int)
    ensures
        count_greater(s.reverse(), v) == count_greater(s, v),
    decreases s.len(),
{
    if s.len() > 0 {
        lemma_count_greater_reverse(s.drop_first(), v);
        lemma_count_greater_front(s, v);
        assert(s.reverse().drop_last() =~= s.drop_first().reverse());
    }
}

proof fn lemma_greater_plus_less(s: Seq<usize>, v: int)
    requires
        forall|i: int| 0 <= i < s.len() ==> s[i] != v,
    ensures
        count_greater(s, v) + count_less(s, v) == s.len(),
    decreases s.len(),
{
    if s.len() > 0 {
        lemma_greater_plus_less(s.drop_last(), v);
    }
}

/// The inversions of `s` grouped by their first position.
proof fn lemma_inversions_front(s: Seq<usize>)
    requires
        s.len() > 0,
    ensures
        inversions(s) == inversions(s.drop_first()) + count_less(s.drop_first(), s[0] as int),
    decreases s.len(),
{
    if s.len() > 1 {
        let p = s.drop_last();
        let q = s.drop_first();
        let last = s.last() as int;
        lemma_inversions_front(p);
        assert(p.drop_first() =~= q.drop_last());
        lemma_count_greater_front(p, last);
        assert(inversions(q) == inversions(q.drop_last()) + count_greater(q.drop_last(), last));
        assert(count_less(q, s[0] as int) == count_less(q.drop_last(), s[0] as int) + (if last
            < s[0] {
            1nat
        } else {
            0nat
        }));
    } else {
        assert(inversions(s.drop_last()) == 0);
        assert(inversions(s.drop_first()) == 0);
        assert(count_less(s.drop_first(), s[0] as int) == 0);
    }
}

/// The inversions of `reverse(s)` are the pairs of `s` in increasing order.
proof fn lemma_inversions_reverse_front(s: Seq<usize>)
    requires
        s.len() > 0,
    ensures
        inversions(s.reverse()) == inversions(s.drop_first().reverse()) + count_greater(
            s.drop_first(),
            s[0] as int,
        ),
{
    assert(s.reverse().drop_last() =~= s.drop_first().reverse());
    lemma_count_greater_reverse(s.drop_first(), s[0] as int);
}

proof fn lemma_distinct_reverse_total(s: Seq<usize>)
    requires
        distinct(s),
    ensures
        inversions(s) + inversions(s.reverse()) == s.len() * (s.len() - 1) / 2,
    decreases s.len(),
{
    if s.len() > 0 {
        let t = s.drop_first();
        let m = t.len();
        lemma_distinct_reverse_total(t);
        lemma_inversions_front(s);
        lemma_inversions_reverse_front(s);
        assert forall|i: int| 0 <= i < t.len() implies t[i] != s[0] by {
            assert(s[i + 1] != s[0]);
        }
        lemma_greater_plus_less(t, s[0] as int);
        assert(m * (m - 1) / 2 + m == (m + 1) * m / 2) by (nonlinear_arith);
    }
}

/// A sequence in increasing order is a permutation without inversions.
pub proof fn lemma_ascending_no_inversions(n: nat)
    requires
        n <= usize::MAX,
    ensures
        is_permutation(ascending(n)),
        inversions(ascending(n)) == 0,
    decreases n,
{
    if n > 0 {
        lemma_ascending_no_inversions((n - 1) as nat);
        assert(ascending(n).drop_last() =~= ascending((n - 1) as nat));
        lemma_count_greater_none(ascending((n - 1) as nat), n as int);
    }
}

/// A permutation and its reverse have `n * (n - 1) / 2` inversions together:
/// each pair of positions is inverted in exactly one of them.
pub proof fn lemma_reverse_complements(a: Seq<usize>)
    requires
        is_permutation(a),
    ensures
        inversions(a) + inversions(a.reverse()) == a.len() * (a.len() - 1) / 2,
{
    lemma_distinct_reverse_total(a);
}

/// A sequence in decreasing order is a permutation with every pair inverted.
pub proof fn lemma_descending_all_inversions(n: nat)
    requires
        n <= usize::MAX,
    ensures
        is_permutation(descending(n)),
        inversions(descending(n)) == n * (n - 1) / 2,
{
    lemma_ascending_no_inversions(n);
    assert(ascending(n).reverse() =~= descending(n));
    lemma_reverse_complements(ascending(n));
}

proof fn lemma_count_greater_adjacent_swap(s: Seq<usize>, i: int, v: int)
    requires
        0 <= i,
        i + 1 < s.len(),
    ensures
        count_greater(swapped(s, i, i + 1), v) == count_greater(s, v),
    decreases s.len(),
{
    let t = swapped(s, i, i + 1);
    let p = s.subrange(0, i);
    if s.len() == i + 2 {
        assert(s.drop_last().drop_last() =~= p);
        assert(t.drop_last().drop_last() =~= p);
        assert(count_greater(s.drop_last(), v) == count_greater(p, v) + (if s[i] > v {
            1nat
        } else {
            0nat
        }));
        assert(count_greater(t.drop_last(), v) == count_greater(p, v) + (if s[i + 1] > v {
            1nat
        } else {
            0nat
        }));
    } else {
        lemma_count_greater_adjacent_swap(s.drop_last(), i, v);
        assert(t.drop_last() =~= swapped(s.drop_last(), i, i + 1));
    }
}

proof fn lemma_distinct_adjacent_swap(s: Seq<usize>, i: int)
    requires
        distinct(s),
        0 <= i,
        i + 1 < s.len(),
    ensures
        inversions(swapped(s, i, i + 1)) == inversions(s) + (if s[i] < s[i + 1] {
            1int
        } else {
            -1int
        }),
    decreases s.len(),
{
    let t = swapped(s, i, i + 1);
    let p = s.subrange(0, i);
    let a = s[i];
    let b = s[i + 1];
    assert(a != b);
    if s.len() == i + 2 {
        assert(s.drop_last().drop_last() =~= p);
        assert(t.drop_last().drop_last() =~= p);
        assert(s.drop_last().last() == a);
        assert(t.drop_last().last() == b);
        assert(inversions(s.drop_last()) == inversions(p) + count_greater(p, a as int));
        assert(inversions(t.drop_last()) == inversions(p) + count_greater(p, b as int));
        assert(count_greater(s.drop_last(), b as int) == count_greater(p, b as int) + (if a > b {
            1nat
        } else {
            0nat
        }));
        assert(count_greater(t.drop_last(), a as int) == count_greater(p, a as int) + (if b > a {
            1nat
        } else {
            0nat
        }));
    } else {
        lemma_distinct_adjacent_swap(s.drop_last(), i);
        assert(t.drop_last() =~= swapped(s.drop_last(), i, i + 1));
        lemma_count_greater_adjacent_swap(s.drop_last(), i, s.last() as int);
    }
}

proof fn lemma_distinct_swapped(s: Seq<usize>, i: int, j: int)
    requires
        distinct(s),
        0 <= i < j < s.len(),
    ensures
        distinct(swapped(s, i, j)),
{
    let t = swapped(s, i, j);
    assert forall|p: int, q: int| 0 <= p < q < t.len() implies t[p] != t[q] by {
        let pp = if p == i { j } else if p == j { i } else { p };
        let qq = if q == i { j } else if q == j { i } else { q };
        assert(t[p] == s[pp]);
        assert(t[q] == s[qq]);
        if pp < qq {
            assert(s[pp] != s[qq]);
        } else {
            assert(s[qq] != s[pp]);
        }
    }
}

/// `v` lies strictly between `a` and `b`, in either order.
pub open spec fn strictly_between(v: int, a: int, b: int) -> bool {
    (a < v && v < b) || (b < v && v < a)
}

/// Number of positions `k` with `i < k < j` whose item lies strictly between `a` and `b`.
pub open spec fn between_count(s: Seq<usize>, i: int, j: int, a: int, b: int) -> nat
    decreases j - i,
{
    if j <= i + 1 {
        0
    } else {
        (if strictly_between(s[i + 1] as int, a, b) { 1nat } else { 0nat }) + between_count(
            s,
            i + 1,
            j,
            a,
            b,
        )
    }
}

proof fn lemma_between_count_frame(s: Seq<usize>, t: Seq<usize>, i: int, j: int, a: int, b: int)
    requires
        forall|k: int| i < k < j ==> s[k] == t[k],
    ensures
        between_count(s, i, j, a, b) == between_count(t, i, j, a, b),
    decreases j - i,
{
    if j > i + 1 {
        lemma_between_count_frame(s, t, i + 1, j, a, b);
    }
}

/// The change made by exchanging positions `i < j` of a sequence without
/// repeated values: one for the pair itself, two for each item between them
/// whose value lies between the two exchanged values; up when the two were
/// in increasing order, down otherwise.
proof fn lemma_distinct_transposition(s: Seq<usize>, i: int, j: int)
    requires
        distinct(s),
        0 <= i < j < s.len(),
    ensures
        inversions(swapped(s, i, j)) - inversions(s) == (if s[i] < s[j] {
            (1 + 2 * between_count(s, i, j, s[i] as int, s[j] as int)) as int
        } else {
            -(1 + 2 * between_count(s, i, j, s[i] as int, s[j] as int))
        }),
    decreases j - i,
{
    let x = s[i] as int;
    let y = s[j] as int;
    if j == i + 1 {
        lemma_distinct_adjacent_swap(s, i);
    } else {
        let z = s[i + 1] as int;
        let t = swapped(s, i, i + 1);
        lemma_distinct_adjacent_swap(s, i);
        lemma_distinct_swapped(s, i, i + 1);
        let u = swapped(t, i + 1, j);
        lemma_distinct_transposition(t, i + 1, j);
        assert(t[i + 1] == x && t[j] == y);
        lemma_between_count_frame(t, s, i + 1, j, x, y);
        lemma_distinct_swapped(t, i + 1, j);
        lemma_distinct_adjacent_swap(u, i);
        assert(u[i] == z && u[i + 1] == y);
        assert(swapped(u, i, i + 1) =~= swapped(s, i, j));
        assert(x != z && z != y && x != y) by {
            assert(s[i] != s[i + 1]);
            assert(s[i + 1] != s[j]);
            assert(s[i] != s[j]);
        }
    }
}

/// Exchanging the items at positions `i < j` of a permutation changes its
/// inversion number by `1 + 2m`, where `m` counts the items between the two
/// positions whose values lie between the two exchanged values: up when the
/// two were in increasing order, down otherwise. The change is always odd.
pub proof fn lemma_transposition_change(a: Seq<usize>, i: int, j: int)
    requires
        is_permutation(a),
        0 <= i < j < a.len(),
    ensures
        inversions(swapped(a, i, j)) - inversions(a) == (if a[i] < a[j] {
            (1 + 2 * between_count(a, i, j, a[i] as int, a[j] as int)) as int
        } else {
            -(1 + 2 * between_count(a, i, j, a[i] as int, a[j] as int))
        }),
        (inversions(swapped(a, i, j)) - inversions(a)) % 2 == 1,
{
    lemma_distinct_transposition(a, i, j);
}

/// Exchanging two neighbouring items of a permutation changes its inversion
/// number by exactly one: up when they were in increasing order, down otherwise.
pub proof fn lemma_adjacent_swap(a: Seq<usize>, i: int)
    requires
        is_permutation(a),
        0 <= i,
        i + 1 < a.len(),
    ensures
        inversions(swapped(a, i, i + 1)) == inversions(a) + (if a[i] < a[i + 1] {
            1int
        } else {
            -1int
        }),
{
    lemma_distinct_adjacent_swap(a, i);
}

/// Exchanging the items at positions `i < j` of a permutation, when `j - i` is
/// odd, changes its inversion number by an amount of the same parity as `j - i`.
pub proof fn lemma_transposition_parity(a: Seq<usize>, i: int, j: int)
    requires
        is_permutation(a),
        0 <= i < j < a.len(),
        (j - i) % 2 == 1,
    ensures
        (inversions(swapped(a, i, j)) - inversions(a)) % 2 == (j - i) % 2,
{
    lemma_transposition_change(a, i, j);
}

/// The pairs of positions `(i, j)` of `s` with `i < j` and `s[i] > s[j]`.
pub open spec fn inversion_pairs(s: Seq<usize>) -> Set<(int, int)> {
    Set::new(|p: (int, int)| 0 <= p.0 < p.1 < s.len() && s[p.0] > s[p.1])
}

/// The pairs `(i, c)` for the positions `i` of `s` that hold a value above `v`.
spec fn column_pairs(s: Seq<usize>, v: int, c: int) -> Set<(int, int)> {
    Set::new(|p: (int, int)| 0 <= p.0 < s.len() && p.1 == c && s[p.0] > v)
}

proof fn lemma_column_pairs(s: Seq<usize>, v: int, c: int)
    ensures
        column_pairs(s, v, c).finite(),
        column_pairs(s, v, c).len() == count_greater(s, v),
    decreases s.len(),
{
    if s.len() == 0 {
        assert(column_pairs(s, v, c) =~= Set::empty());
    } else {
        let p = s.drop_last();
        let last = (s.len() - 1, c);
        lemma_column_pairs(p, v, c);
        if s.last() > v {
            assert(column_pairs(s, v, c) =~= column_pairs(p, v, c).insert(last));
        } else {
            assert(column_pairs(s, v, c) =~= column_pairs(p, v, c));
        }
    }
}

/// `inversions` counts exactly the inverted pairs of positions.
pub proof fn lemma_inversions_count_pairs(s: Seq<usize>)
    ensures
        inversion_pairs(s).finite(),
        inversion_pairs(s).len() == inversions(s),
    decreases s.len(),
{
    if s.len() == 0 {
        assert(inversion_pairs(s) =~= Set::empty());
    } else {
        let p = s.drop_last();
        let col = column_pairs(p, s.last() as int, s.len() - 1);
        lemma_inversions_count_pairs(p);
        lemma_column_pairs(p, s.last() as int, s.len() - 1);
        assert(inversion_pairs(s) =~= inversion_pairs(p) + col);
        assert(inversion_pairs(p).disjoint(col));
        vstd::set_lib::lemma_set_disjoint_lens(inversion_pairs(p), col);
    }
}

/// Whether a sequence is a valid input does not depend on where its items
/// stand: exchanging any two of them keeps a permutation a permutation, and
/// keeps any other sequence from being one.
pub proof fn lemma_transposition_keeps_validity(a: Seq<usize>, i: int, j: int)
    requires
        0 <= i < j < a.len(),
    ensures
        is_permutation(swapped(a, i, j)) == is_permutation(a),
{
    let b = swapped(a, i, j);
    assert(swapped(b, i, j) =~= a);
    if is_permutation(a) {
        lemma_distinct_swapped(a, i, j);
        assert forall|k: int| 0 <= k < b.len() implies 1 <= #[trigger] b[k] <= b.len() by {
            let kk = if k == i { j } else if k == j { i } else { k };
            assert(b[k] == a[kk]);
        }
    }
    if is_permutation(b) {
        lemma_distinct_swapped(b, i, j);
        assert forall|k: int| 0 <= k < a.len() implies 1 <= #[trigger] a[k] <= a.len() by {
            let kk = if k == i { j } else if k == j { i } else { k };
            assert(a[k] == b[kk]);
        }
    }
}

} // verus!
