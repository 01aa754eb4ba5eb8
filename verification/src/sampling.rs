//! Samples of order keys, and their sorting.

use rand::rngs::StdRng;
use rand::seq::IteratorRandom;
use rand::SeedableRng;
use vstd::prelude::*;
use vstd::relations::{sorted_by, total_ordering};
use vstd::seq_lib::lemma_sorted_unique;

verus! {

/// What rand's `IteratorRandom::choose_multiple` picks from the values, with a `StdRng`
/// seeded by `SeedableRng::seed_from_u64`.
pub uninterp spec fn sampled(values: Seq<i64>, seed: u64, amount: nat) -> Seq<i64>;

/// Up to `amount` of the values.
///
/// Seeds rand's `StdRng` with `seed_from_u64` and runs `IteratorRandom::choose_multiple` on
/// the values. What is relied on: the pick depends on nothing but the three arguments; it is
/// all the values, in their order, where there are at most `amount` of them, and `amount`
/// of them otherwise; and every value picked is one of the values.
#[verifier::external_body]
pub(crate) fn sample(values: &[i64], seed: u64, amount: usize) -> (r: Vec<i64>)
    requires
        amount <= 0xFF_FFFF,
    ensures
        r@ == sampled(values@, seed, amount as nat),
        values@.len() <= amount ==> r@ == values@,
        values@.len() > amount ==> r@.len() == amount,
        forall|i: int| 0 <= i < r@.len() ==> values@.contains(#[trigger] r@[i]),
{
    values.iter().copied().choose_multiple(&mut StdRng::seed_from_u64(seed), amount)
}

pub open spec fn ascending() -> spec_fn(i64, i64) -> bool {
    |a: i64, b: i64| a <= b
}

/// The values in ascending order.
pub open spec fn sorted(values: Seq<i64>) -> Seq<i64> {
    values.sort_by(ascending())
}

/// Sorts in place.
///
/// Calls std's `slice::sort_unstable`, which leaves the same integers in ascending order.
#[verifier::external_body]
fn sort_unstable(values: &mut Vec<i64>)
    ensures
        sorted_by(final(values)@, ascending()),
        final(values)@.to_multiset() == old(values)@.to_multiset(),
{
    values.sort_unstable();
}

/// Sorts in place.
pub(crate) fn sort(values: &mut Vec<i64>)
    ensures
        final(values)@ == sorted(old(values)@),
        final(values)@.len() == old(values)@.len(),
        forall|i: int| 0 <= i < final(values)@.len() ==> old(values)@.contains(#[trigger] final(values)@[i]),
        forall|i: int, j: int| 0 <= i <= j < final(values)@.len() ==> final(values)@[i] <= final(values)@[j],
{
    let ghost before = values@;
    sort_unstable(values);
    proof {
        let leq = ascending();
        assert(total_ordering(leq));
        before.lemma_sort_by_ensures(leq);
        lemma_sorted_unique(values@, before.sort_by(leq), leq);
        broadcast use vstd::seq_lib::group_to_multiset_ensures;
        assert forall|i: int| 0 <= i < values@.len() implies before.contains(#[trigger] values@[i]) by {
            assert(values@.contains(values@[i]));
            assert(values@.to_multiset().count(values@[i]) > 0);
        }
        assert(values@.to_multiset().len() == before.to_multiset().len());
        assert forall|i: int, j: int| 0 <= i <= j < values@.len() implies values@[i] <= values@[j] by {
            if i < j {
                assert(leq(values@[i], values@[j]));
            }
        }
    }
}

/// The same values in another order are sorted alike.
pub(crate) proof fn lemma_sorted_by_contents(a: Seq<i64>, b: Seq<i64>)
    requires
        a.to_multiset() == b.to_multiset(),
    ensures
        sorted(a) == sorted(b),
{
    let leq = ascending();
    assert(total_ordering(leq));
    a.lemma_sort_by_ensures(leq);
    b.lemma_sort_by_ensures(leq);
    lemma_sorted_unique(a.sort_by(leq), b.sort_by(leq), leq);
}

/// What becomes of values one by one does not depend on their order.
pub(crate) proof fn lemma_map_by_contents<A, B>(s: Seq<A>, t: Seq<A>, f: spec_fn(A) -> B)
    requires
        s.to_multiset() == t.to_multiset(),
    ensures
        s.map_values(f).to_multiset() == t.map_values(f).to_multiset(),
    decreases s.len(),
{
    broadcast use vstd::seq_lib::group_to_multiset_ensures;
    assert(s.len() == s.to_multiset().len());
    assert(t.len() == t.to_multiset().len());
    if s.len() == 0 {
        assert(s.map_values(f) =~= t.map_values(f));
    } else {
        let x = s.last();
        assert(s.contains(x));
        assert(t.to_multiset().count(x) > 0);
        assert(t.contains(x));
        let i = choose|i: int| 0 <= i < t.len() && t[i] == x;
        let s0 = s.drop_last();
        let t0 = t.remove(i);
        assert(s0 =~= s.remove(s.len() - 1));
        lemma_map_by_contents(s0, t0, f);
        assert(s.map_values(f) =~= s0.map_values(f).push(f(x)));
        assert(t0.map_values(f) =~= t.map_values(f).remove(i));
        let m = t.map_values(f);
        assert(m[i] == f(x));
        assert(m.contains(f(x)));
        assert(m.to_multiset().count(f(x)) > 0);
        assert(m.remove(i).to_multiset() =~= m.to_multiset().remove(f(x)));
        assert(m.to_multiset() =~= m.remove(i).to_multiset().insert(f(x)));
    }
}

} // verus!
