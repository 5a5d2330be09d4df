//! Finite sets of cells: what the termination arguments count.

use vstd::prelude::*;
use vstd::set_lib::{
    lemma_int_range, lemma_len_subset, lemma_len_union, lemma_map_size_bound, set_int_range,
};

verus! {

/// All pairs of a member of `a` and a member of `b`.
pub open spec fn pairs<A, B>(a: Set<A>, b: Set<B>) -> Set<(A, B)> {
    Set::new(|p: (A, B)| a.contains(p.0) && b.contains(p.1))
}

/// The pairs of two finite sets are finite, and no more than the product of their sizes.
pub proof fn lemma_pairs_finite<A, B>(a: Set<A>, b: Set<B>)
    requires
        a.finite(),
        b.finite(),
    ensures
        pairs(a, b).finite(),
        pairs(a, b).len() <= a.len() * b.len(),
    decreases a.len(),
{
    if a.len() == 0 {
        assert(pairs(a, b) =~= Set::empty());
        assert(a.len() * b.len() == 0) by (nonlinear_arith)
            requires
                a.len() == 0,
        ;
    } else {
        let x = a.choose();
        let rest = a.remove(x);
        lemma_pairs_finite(rest, b);
        let beside = |y: B| (x, y);
        let column = b.map(beside);
        lemma_map_size_bound(b, column, beside);
        assert(pairs(a, b) =~= pairs(rest, b).union(column)) by {
            assert forall|p: (A, B)| pairs(a, b).contains(p) implies pairs(rest, b).union(
                column,
            ).contains(p) by {
            }
        }
        lemma_len_union(pairs(rest, b), column);
        assert((a.len() - 1) * b.len() + b.len() == a.len() * b.len()) by (nonlinear_arith);
    }
}

/// The cells of a square grid with `n` cells along a side.
pub open spec fn square(n: int) -> Set<(int, int)> {
    Set::new(|p: (int, int)| 0 <= p.0 < n && 0 <= p.1 < n)
}

/// A square grid has finitely many cells, no more than `n·n`.
pub proof fn lemma_square_finite(n: int)
    requires
        0 <= n,
    ensures
        square(n).finite(),
        square(n).len() <= n * n,
{
    lemma_int_range(0, n);
    lemma_pairs_finite(set_int_range(0, n), set_int_range(0, n));
    assert(square(n) =~= pairs(set_int_range(0, n), set_int_range(0, n)));
}

/// A set of cells of a square grid is finite and no larger than the grid.
pub proof fn lemma_cells_bounded(s: Set<(int, int)>, n: int)
    requires
        0 <= n,
        s.subset_of(square(n)),
    ensures
        s.finite(),
        s.len() <= n * n,
{
    lemma_square_finite(n);
    lemma_len_subset(s, square(n));
}

/// A finite set that loses a member and gains none gets smaller.
pub proof fn lemma_shrinks<A>(after: Set<A>, before: Set<A>, lost: A)
    requires
        before.finite(),
        after.subset_of(before),
        before.contains(lost),
        !after.contains(lost),
    ensures
        after.finite(),
        after.len() < before.len(),
{
    lemma_len_subset(after, before.remove(lost));
}

/// A finite set that keeps its members and gains one gets larger.
pub proof fn lemma_grows<A>(before: Set<A>, after: Set<A>, gained: A)
    requires
        after.finite(),
        before.subset_of(after),
        after.contains(gained),
        !before.contains(gained),
    ensures
        before.finite(),
        before.len() < after.len(),
{
    lemma_len_subset(before, after.remove(gained));
}

} // verus!
