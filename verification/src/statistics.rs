//! Figures on how long something took, over durations counted in nanoseconds.

use vstd::prelude::*;
use vstd::relations::{sorted_by, total_ordering};
use vstd::seq_lib::{lemma_sorted_unique, to_multiset_update};

verus! {

/// The sum of a list of durations.
pub open spec fn total(a: Seq<u64>) -> int
    decreases a.len(),
{
    if a.len() == 0 {
        0
    } else {
        total(a.drop_last()) + a.last()
    }
}

/// The order of durations.
pub open spec fn at_most() -> spec_fn(u64, u64) -> bool {
    |x: u64, y: u64| x <= y
}

/// The durations of a list from the shortest to the longest.
pub open spec fn ascending(a: Seq<u64>) -> Seq<u64> {
    a.sort_by(at_most())
}

/// The duration in the middle of a list in ascending order; of a list of even
/// length, the mean of the two in the middle, rounded down.
pub open spec fn middle(s: Seq<u64>) -> int {
    let half = s.len() as int / 2;
    if s.len() % 2 == 0 {
        (s[half] + s[half - 1]) / 2
    } else {
        s[half] as int
    }
}

/// The sum of a list is at most its length times the longest duration there can be.
proof fn lemma_total_bounded(a: Seq<u64>)
    ensures
        0 <= total(a) <= a.len() * u64::MAX,
    decreases a.len(),
{
    if a.len() > 0 {
        lemma_total_bounded(a.drop_last());
        assert((a.len() - 1) * u64::MAX + u64::MAX == a.len() * u64::MAX) by (nonlinear_arith);
    } else {
        assert(a.len() * u64::MAX == 0) by (nonlinear_arith)
            requires
                a.len() == 0,
        ;
    }
}

/// The mean of the durations of a list, rounded down.
pub fn mean(a: &Vec<u64>) -> (m: u64)
    requires
        a.len() > 0,
    ensures
        m == total(a@) / (a.len() as int),
{
    let mut sum: u128 = 0;
    let mut i: usize = 0;
    while i < a.len()
        invariant
            0 <= i <= a.len(),
            sum == total(a@.take(i as int)),
        decreases a.len() - i,
    {
        proof {
            lemma_total_bounded(a@.take(i as int));
            assert(i * u64::MAX + u64::MAX <= u128::MAX) by (nonlinear_arith)
                requires
                    0 <= i <= usize::MAX,
            ;
            assert(a@.take(i + 1).drop_last() == a@.take(i as int));
        }
        sum = sum + a[i] as u128;
        i += 1;
    }
    proof {
        assert(a@.take(a.len() as int) == a@);
        lemma_total_bounded(a@);
        let n = a.len() as int;
        let t = total(a@);
        assert(t / n <= u64::MAX) by (nonlinear_arith)
            requires
                0 <= t <= n * u64::MAX,
                n > 0,
        ;
    }
    (sum / (a.len() as u128)) as u64
}

/// The order of durations is a total order.
proof fn lemma_at_most_is_total()
    ensures
        total_ordering(at_most()),
{
    let leq = at_most();
    assert(vstd::relations::reflexive(leq));
    assert(vstd::relations::antisymmetric(leq));
    assert(vstd::relations::transitive(leq));
    assert(vstd::relations::strongly_connected(leq));
}

/// The durations of `a` in ascending order.
fn sorted_copy(a: &Vec<u64>) -> (v: Vec<u64>)
    ensures
        v@ == ascending(a@),
{
    let mut v: Vec<u64> = Vec::new();
    let mut i: usize = 0;
    while i < a.len()
        invariant
            0 <= i <= a.len(),
            v@ == a@.take(i as int),
        decreases a.len() - i,
    {
        v.push(a[i]);
        assert(a@.take(i + 1) =~= a@.take(i as int).push(a@[i as int]));
        i += 1;
    }
    assert(a@.take(a.len() as int) == a@);
    let n = v.len();
    let mut done: usize = 0;
    while done < n
        invariant
            0 <= done <= n,
            n == v.len(),
            v@.to_multiset() == a@.to_multiset(),
            forall|p: int, q: int| 0 <= p < q < done ==> v@[p] <= v@[q],
            forall|p: int, q: int| 0 <= p < done <= q < n ==> v@[p] <= v@[q],
        decreases n - done,
    {
        let mut least = done;
        let mut k = done + 1;
        while k < n
            invariant
                done <= least < n,
                done < k <= n,
                n == v.len(),
                forall|q: int| done <= q < k ==> v@[least as int] <= v@[q],
            decreases n - k,
        {
            if v[k] < v[least] {
                least = k;
            }
            k += 1;
        }
        let first = v[done];
        let smallest = v[least];
        let ghost before = v@;
        v.set(done, smallest);
        v.set(least, first);
        proof {
            broadcast use vstd::multiset::group_multiset_axioms;

            let between = before.update(done as int, smallest);
            to_multiset_update(before, done as int, smallest);
            to_multiset_update(between, least as int, first);
            vstd::seq_lib::to_multiset_contains(before, first);
            assert(before.contains(first)) by {
                assert(before[done as int] == first);
            }
            assert(between[least as int] == smallest);
            assert(v@.to_multiset() =~= before.to_multiset());
        }
        done += 1;
    }
    proof {
        lemma_at_most_is_total();
        a@.lemma_sort_by_ensures(at_most());
        assert(sorted_by(v@, at_most()));
        lemma_sorted_unique(v@, ascending(a@), at_most());
    }
    v
}

/// The median of the durations of a list: the one in the middle when they are
/// put in ascending order, or the mean of the two in the middle.
pub fn median(a: &Vec<u64>) -> (m: u64)
    requires
        a.len() > 0,
    ensures
        m == middle(ascending(a@)),
{
    let v = sorted_copy(a);
    proof {
        lemma_at_most_is_total();
        a@.lemma_sort_by_ensures(at_most());
        vstd::seq_lib::to_multiset_len(a@);
        vstd::seq_lib::to_multiset_len(v@);
    }
    let n = v.len();
    if n % 2 == 0 {
        ((v[n / 2] as u128 + v[n / 2 - 1] as u128) / 2) as u64
    } else {
        v[n / 2]
    }
}

} // verus!
