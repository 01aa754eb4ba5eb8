//! Sums that are exact: multiples of one power of two, no more of them than a significand counts.

use vstd::arithmetic::power2::{lemma2_to64, lemma2_to64_rest, lemma_pow2_adds, lemma_pow2_pos, lemma_pow2_unfold, pow2};
use vstd::prelude::*;

use crate::arithmetic::{
    law_exact_sum, lemma_nearest_of_double, lemma_normal, lemma_signed, lemma_size_positive, lemma_value_order,
};
use crate::double::{nearest_double, signed, Double, INFINITY_BITS};
use crate::rounding::{grid, lemma_grid_at, lemma_grid_monotone, lemma_pow2_le};

verus! {

/// The number of `n` units of `2^e`, in units of the least positive number.
pub open spec fn exactly(n: int, e: nat) -> Double {
    signed(n < 0, nearest_double((size_of(n) * pow2(e)) as nat, 1))
}

/// The size of a number.
pub open spec fn size_of(n: int) -> int {
    if n < 0 { -n } else { n }
}

/// As many units as a significand counts.
pub open spec fn few(n: int) -> bool {
    -pow2(53) <= n <= pow2(53)
}

/// The greatest exponent of a unit that is reckoned with.
pub open spec fn greatest_exponent() -> nat {
    1500
}

/// A number on the grid.
proof fn lemma_on_grid(n: nat, e: nat) -> (k: nat)
    requires
        n <= pow2(53),
        e <= greatest_exponent(),
    ensures
        k < INFINITY_BITS,
        grid(53, k) == n * pow2(e),
{
    let unit = pow2(52);
    lemma2_to64();
    lemma2_to64_rest();
    lemma_pow2_unfold(53);
    lemma_pow2_pos(52);
    if n == 0 {
        assert(0 * pow2(e) == 0);
        0
    } else if n == pow2(53) {
        let k = (e + 1) * unit + unit;
        lemma_grid_at(53, e + 1, unit);
        lemma_pow2_adds(53, e);
        lemma_pow2_adds(52, e + 1);
        assert((e + 1) * unit <= 1501 * unit) by (nonlinear_arith)
            requires
                e <= 1500,
        ;
        k
    } else {
        assert(n * pow2(0) == n);
        let t = lemma_normal(n, 0);
        if e >= t {
            let q = n * pow2(t);
            let d = (e - t) as nat;
            lemma_grid_at(53, d, q);
            lemma_pow2_adds(t, d);
            assert(q * pow2(d) == n * (pow2(t) * pow2(d))) by (nonlinear_arith)
                requires
                    q == n * pow2(t),
            ;
            assert(d * unit <= 1500 * unit) by (nonlinear_arith)
                requires
                    d <= 1500,
            ;
            d * unit + q
        } else {
            let q = n * pow2(e);
            lemma_pow2_le(e, t);
            assert(q <= n * pow2(t)) by (nonlinear_arith)
                requires
                    q == n * pow2(e),
                    pow2(e) <= pow2(t),
            ;
            assert(0 * unit == 0);
            lemma_grid_at(53, 0, q);
            assert(q * 1 == q);
            q
        }
    }
}

/// Few units are a number of the format.
pub proof fn law_few_units_are_exact(n: int, e: nat)
    requires
        few(n),
        e <= greatest_exponent(),
    ensures
        exactly(n, e).finite(),
        exactly(n, e).value() == n * pow2(e),
        exactly(n, e).negative() == (n < 0),
{
    let m = size_of(n) as nat;
    let k = lemma_on_grid(m, e);
    let c = signed(n < 0, k);
    lemma_signed(n < 0, k);
    let num = m * pow2(e);
    assert(num == size_of(n) * pow2(e));
    assert(num * 1 == num);
    lemma_nearest_of_double(c, num, 1);
    lemma_pow2_pos(e);
    assert(n < 0 ==> -num == n * pow2(e)) by (nonlinear_arith)
        requires
            num == m * pow2(e),
            n < 0 ==> m == -n,
    ;
}

/// Numbers of the same value and sign are the same.
pub(crate) proof fn lemma_same_number(a: Double, b: Double)
    requires
        a.finite(),
        b.finite(),
        a.value() == b.value(),
        a.negative() == b.negative(),
    ensures
        a == b,
{
    if a.magnitude() < b.magnitude() {
        lemma_grid_monotone(53, a.magnitude(), b.magnitude());
    } else if b.magnitude() < a.magnitude() {
        lemma_grid_monotone(53, b.magnitude(), a.magnitude());
    }
}

/// Adding units adds their numbers.
pub proof fn law_units_add_up(m: int, n: int, e: nat, x: Double)
    requires
        few(m),
        few(m + n),
        e <= greatest_exponent(),
        x.finite(),
        x.value() == n * pow2(e),
    ensures
        exactly(m, e).plus_spec(x) == exactly(m + n, e),
{
    law_few_units_are_exact(m, e);
    law_few_units_are_exact(m + n, e);
    lemma_pow2_pos(e);
    let a = exactly(m, e);
    let c = exactly(m + n, e);
    assert(m * pow2(e) + n * pow2(e) == (m + n) * pow2(e)) by (nonlinear_arith);
    if c.value() != 0 {
        law_exact_sum(a, x, c);
    } else {
        assert(m + n == 0) by (nonlinear_arith)
            requires
                (m + n) * pow2(e) == 0,
                pow2(e) > 0,
        ;
        lemma_size_positive(a);
        lemma_size_positive(c);
        lemma_size_positive(x);
        reveal(Double::plus_spec);
        assert(!(a.negative() && x.negative())) by {
            if a.negative() {
                assert(a.value() < 0) by (nonlinear_arith)
                    requires
                        a.value() == m * pow2(e),
                        m < 0,
                        pow2(e) > 0,
                ;
            }
        }
        lemma_signed(false, 0);
        lemma_same_number(a.plus_spec(x), c);
    }
}

/// Taking units away takes their numbers away.
pub proof fn law_units_subtract(m: int, n: int, e: nat)
    requires
        few(m),
        few(n),
        few(m - n),
        e <= greatest_exponent(),
    ensures
        exactly(m, e).minus_spec(exactly(n, e)) == exactly(m - n, e),
{
    law_few_units_are_exact(n, e);
    let x = exactly(n, e).neg_spec();
    lemma_signed(n >= 0, exactly(n, e).magnitude());
    lemma_size_positive(exactly(n, e));
    assert(x.value() == -(n * pow2(e)));
    assert(-(n * pow2(e)) == (-n) * pow2(e)) by (nonlinear_arith);
    law_units_add_up(m, -n, e, x);
}

/// Units have the order of their numbers.
pub proof fn law_units_are_ordered(m: int, n: int, e: nat)
    requires
        few(m),
        few(n),
        e <= greatest_exponent(),
    ensures
        exactly(m, e).lt_spec(exactly(n, e)) <==> m < n,
        exactly(m, e).le_spec(exactly(n, e)) <==> m <= n,
        exactly(m, e).same_spec(exactly(n, e)) <==> m == n,
        exactly(m, e) == exactly(n, e) <==> m == n,
        exactly(0, e) == Double::zero_spec(),
{
    law_few_units_are_exact(m, e);
    law_few_units_are_exact(n, e);
    law_few_units_are_exact(0, e);
    lemma_pow2_pos(e);
    let a = exactly(m, e);
    let b = exactly(n, e);
    assert(m < n ==> m * pow2(e) < n * pow2(e)) by (nonlinear_arith)
        requires
            pow2(e) > 0,
    ;
    assert(n < m ==> n * pow2(e) < m * pow2(e)) by (nonlinear_arith)
        requires
            pow2(e) > 0,
    ;
    if a.ordinal() <= b.ordinal() {
        lemma_value_order(a, b);
    }
    if b.ordinal() <= a.ordinal() {
        lemma_value_order(b, a);
    }
    assert(0 * pow2(e) == 0);
    lemma_size_positive(Double::zero_spec());
    lemma_same_number(exactly(0, e), Double::zero_spec());
}

// ---------------------------------------------------------------------------------------
// Sums
// ---------------------------------------------------------------------------------------

/// The sum of what `f` says of the numbers below `n`.
pub open spec fn sum_over(n: nat, f: spec_fn(int) -> int) -> int
    decreases n,
{
    if n == 0 {
        0
    } else {
        sum_over((n - 1) as nat, f) + f(n - 1)
    }
}

pub(crate) proof fn lemma_sum_same(n: nat, f: spec_fn(int) -> int, g: spec_fn(int) -> int)
    requires
        forall|i: int| 0 <= i < n ==> #[trigger] f(i) == g(i),
    ensures
        sum_over(n, f) == sum_over(n, g),
    decreases n,
{
    if n > 0 {
        lemma_sum_same((n - 1) as nat, f, g);
        assert(f(n - 1) == g(n - 1));
    }
}

pub(crate) proof fn lemma_sum_plus(n: nat, f: spec_fn(int) -> int, g: spec_fn(int) -> int, h: spec_fn(int) -> int)
    requires
        forall|i: int| 0 <= i < n ==> #[trigger] h(i) == f(i) + g(i),
    ensures
        sum_over(n, h) == sum_over(n, f) + sum_over(n, g),
    decreases n,
{
    if n > 0 {
        lemma_sum_plus((n - 1) as nat, f, g, h);
        assert(h(n - 1) == f(n - 1) + g(n - 1));
    }
}

pub(crate) proof fn lemma_sum_below(n: nat, f: spec_fn(int) -> int, g: spec_fn(int) -> int)
    requires
        forall|i: int| 0 <= i < n ==> #[trigger] f(i) <= g(i),
    ensures
        sum_over(n, f) <= sum_over(n, g),
    decreases n,
{
    if n > 0 {
        lemma_sum_below((n - 1) as nat, f, g);
        assert(f(n - 1) <= g(n - 1));
    }
}

pub(crate) proof fn lemma_sum_zero(n: nat, f: spec_fn(int) -> int)
    requires
        forall|i: int| 0 <= i < n ==> #[trigger] f(i) == 0,
    ensures
        sum_over(n, f) == 0,
    decreases n,
{
    if n > 0 {
        lemma_sum_zero((n - 1) as nat, f);
        assert(f(n - 1) == 0);
    }
}

/// A sum is no further from zero than the sizes of its parts add up to.
pub(crate) proof fn lemma_sum_size(n: nat, f: spec_fn(int) -> int, g: spec_fn(int) -> int)
    requires
        forall|i: int| 0 <= i < n ==> size_of(#[trigger] f(i)) <= g(i),
    ensures
        size_of(sum_over(n, f)) <= sum_over(n, g),
    decreases n,
{
    if n > 0 {
        lemma_sum_size((n - 1) as nat, f, g);
        assert(size_of(f(n - 1)) <= g(n - 1));
    }
}

/// One part of a sum.
pub(crate) proof fn lemma_sum_single(n: nat, f: spec_fn(int) -> int, k: int)
    requires
        0 <= k < n,
        forall|i: int| 0 <= i < n && i != k ==> #[trigger] f(i) == 0,
    ensures
        sum_over(n, f) == f(k),
    decreases n,
{
    let m = (n - 1) as nat;
    if k == m {
        lemma_sum_zero(m, f);
    } else {
        lemma_sum_single(m, f, k);
        assert(f(n - 1) == 0);
    }
}

/// Sums of sums may be taken in either order.
pub(crate) proof fn lemma_sum_swap(m: nat, n: nat, f: spec_fn(int, int) -> int)
    ensures
        sum_over(m, |i: int| sum_over(n, |j: int| f(i, j))) == sum_over(n, |j: int| sum_over(m, |i: int| f(i, j))),
    decreases m,
{
    let inner = |j: int| sum_over(m, |i: int| f(i, j));
    if m == 0 {
        lemma_sum_zero(n, inner);
    } else {
        let k = (m - 1) as nat;
        lemma_sum_swap(k, n, f);
        let less = |j: int| sum_over(k, |i: int| f(i, j));
        let last = |j: int| f(k as int, j);
        assert forall|j: int| 0 <= j < n implies #[trigger] inner(j) == less(j) + last(j) by {
            let g = |i: int| f(i, j);
            assert(sum_over(m, g) == sum_over(k, g) + g(m - 1));
        }
        lemma_sum_plus(n, less, last, inner);
        let outer = |i: int| sum_over(n, |j: int| f(i, j));
        assert(outer(m - 1) == sum_over(n, last));
    }
}

/// The sum over a list without repetitions is that over the numbers which it holds.
pub(crate) proof fn lemma_sum_listed(n: nat, list: Seq<int>, f: spec_fn(int) -> int)
    requires
        list.no_duplicates(),
        forall|i: int| 0 <= i < list.len() ==> 0 <= (#[trigger] list[i]) < n,
    ensures
        sum_over(list.len(), |i: int| f(list[i])) == sum_over(n, |r: int| if list.contains(r) { f(r) } else { 0 }),
    decreases list.len(),
{
    let inside = |r: int| if list.contains(r) { f(r) } else { 0 };
    let listed = |i: int| f(list[i]);
    if list.len() == 0 {
        lemma_sum_zero(n, inside);
    } else {
        let shorter = list.drop_last();
        let x = list.last();
        assert forall|i: int| 0 <= i < shorter.len() implies 0 <= (#[trigger] shorter[i]) < n by {
            assert(shorter[i] == list[i]);
        }
        lemma_sum_listed(n, shorter, f);
        let fewer = |r: int| if shorter.contains(r) { f(r) } else { 0 };
        let own = |r: int| if r == x { f(r) } else { 0 };
        assert forall|r: int| 0 <= r < n implies #[trigger] inside(r) == fewer(r) + own(r) by {
            if shorter.contains(r) {
                let i = choose|i: int| 0 <= i < shorter.len() && shorter[i] == r;
                assert(list[i] == r);
                assert(r != x);
            } else if list.contains(r) {
                let i = choose|i: int| 0 <= i < list.len() && list[i] == r;
                if i < list.len() - 1 {
                    assert(shorter[i] == r);
                }
            }
            if r == x {
                assert(list[list.len() - 1] == x);
            }
        }
        lemma_sum_plus(n, fewer, own, inside);
        assert(0 <= list[list.len() - 1] < n);
        lemma_sum_single(n, own, x);
        let short = |i: int| f(shorter[i]);
        assert forall|i: int| 0 <= i < shorter.len() implies #[trigger] short(i) == listed(i) by {}
        lemma_sum_same(shorter.len(), short, listed);
    }
}

/// A sum of numbers that are not negative, and what it is to be zero.
pub(crate) proof fn lemma_not_negative_sum(n: nat, f: spec_fn(int) -> int)
    requires
        forall|i: int| 0 <= i < n ==> #[trigger] f(i) >= 0,
    ensures
        sum_over(n, f) >= 0,
        sum_over(n, f) == 0 ==> forall|i: int| 0 <= i < n ==> #[trigger] f(i) == 0,
    decreases n,
{
    if n > 0 {
        lemma_not_negative_sum((n - 1) as nat, f);
        assert(f(n - 1) >= 0);
    }
}

} // verus!
