//! Laws of comparing numbers and of changing their width.

use vstd::arithmetic::power2::{lemma2_to64, lemma2_to64_rest, lemma_pow2_adds, lemma_pow2_pos, lemma_pow2_unfold, pow2};
use vstd::prelude::*;

use crate::arithmetic::{
    lemma_from_count_exact, lemma_nearest_of_double, lemma_signed, lemma_size_positive, lemma_value_order,
};
use crate::double::{signed, Double, INFINITY_BITS, SINGLE_INFINITY_BITS, Single};
use crate::exact::lemma_one;
use crate::fixed::{exactly, law_few_units_are_exact, lemma_same_number};
use crate::rounding::{
    grid, is_nearest, law_nearest_exists, law_nearest_unique, lemma_grid_at, lemma_grid_split, lemma_nearest_exact,
    lemma_pow2_le,
};

verus! {

/// Finite numbers are compared by their values; not-a-number compares to nothing, and the
/// infinities lie at the ends.
pub proof fn law_numbers_are_compared_by_value(a: Double, b: Double)
    ensures
        a.finite() && b.finite() ==> {
            &&& a.lt_spec(b) <==> a.value() < b.value()
            &&& a.le_spec(b) <==> a.value() <= b.value()
            &&& a.same_spec(b) <==> a.value() == b.value()
            &&& a.value() < b.value() ==> a.total_rank() < b.total_rank()
        },
        a.nan() || b.nan() ==> !a.lt_spec(b) && !a.le_spec(b) && !a.same_spec(b),
        a.finite() ==> a.lt_spec(Double::infinity_spec()) && Double::neg_infinity_spec().lt_spec(a),
{
    if a.finite() && b.finite() {
        lemma_size_positive(a);
        lemma_size_positive(b);
        if a.ordinal() <= b.ordinal() {
            lemma_value_order(a, b);
        }
        if b.ordinal() <= a.ordinal() {
            lemma_value_order(b, a);
        }
        if a.ordinal() < b.ordinal() && a.value() == b.value() {
            lemma_equal_values(a, b);
        }
        if b.ordinal() < a.ordinal() && a.value() == b.value() {
            lemma_equal_values(a, b);
        }
    }
}

proof fn lemma_equal_values(a: Double, b: Double)
    requires
        a.finite(),
        b.finite(),
        a.value() == b.value(),
    ensures
        a.ordinal() == b.ordinal(),
{
    lemma_size_positive(a);
    lemma_size_positive(b);
    if a.value() != 0 {
        lemma_same_number(a, b);
    }
}

/// Turning the sign round and leaving it out.
pub proof fn law_signs_are_turned(a: Double)
    ensures
        a.finite() ==> a.neg_spec().finite() && a.neg_spec().value() == -a.value(),
        a.finite() ==> a.abs_spec().finite() && a.abs_spec().value() == a.size() && !a.abs_spec().negative(),
        !a.nan() ==> a.signum_spec().value() == if a.negative() { -(pow2(1074) as int) } else { pow2(1074) as int },
{
    lemma_signed(!a.negative(), if a.magnitude() <= INFINITY_BITS { a.magnitude() } else { 0 });
    lemma_one();
}

/// The larger and the smaller of two numbers are one of them, and not below or above either.
pub proof fn law_extremes_bound_both(a: Double, b: Double)
    requires
        !a.nan(),
        !b.nan(),
    ensures
        a.max_spec(b) == a || a.max_spec(b) == b,
        a.le_spec(a.max_spec(b)) && b.le_spec(a.max_spec(b)),
        a.min_spec(b) == a || a.min_spec(b) == b,
        a.min_spec(b).le_spec(a) && a.min_spec(b).le_spec(b),
{
}

/// A number that is kept between two bounds is between them, and the same if it was.
pub proof fn law_clamped_numbers_are_between(a: Double, low: Double, high: Double)
    requires
        !a.nan(),
        low.le_spec(high),
    ensures
        low.le_spec(a.clamp_spec(low, high)) && a.clamp_spec(low, high).le_spec(high),
        low.le_spec(a) && a.le_spec(high) ==> a.clamp_spec(low, high) == a,
        a.lt_spec(low) ==> a.clamp_spec(low, high) == low,
        high.lt_spec(a) ==> a.clamp_spec(low, high) == high,
{
}

/// The next number is above, and none lies between.
pub proof fn law_next_number_is_the_least_above(a: Double, b: Double)
    requires
        a.finite(),
        !b.nan(),
        a.lt_spec(b),
    ensures
        a.lt_spec(a.next_up_spec()),
        a.next_up_spec().le_spec(b),
{
}

/// A single is widened to the double of the same value.
pub proof fn law_widening_is_exact(s: Single)
    requires
        s.magnitude() < SINGLE_INFINITY_BITS,
    ensures
        s.widen_spec().finite(),
        s.widen_spec().size() == grid(24, s.magnitude()) * pow2(925),
        s.widen_spec().negative() == s.negative(),
{
    let (e, q) = lemma_grid_split(24, s.magnitude());
    lemma_grid_at(24, e, q);
    lemma2_to64();
    lemma2_to64_rest();
    lemma_pow2_unfold(24);
    assert(pow2(23) == 0x80_0000);
    assert(e <= 255) by (nonlinear_arith)
        requires
            s.magnitude() == e * 0x80_0000 + q,
            s.magnitude() < 0x7F80_0000,
    ;
    lemma_pow2_le(24, 53);
    let n = (if s.negative() { -(q as int) } else { q as int });
    law_few_units_are_exact(n, e + 925);
    lemma_pow2_adds(e, 925);
    let num = grid(24, s.magnitude()) * pow2(925);
    assert(num == q * pow2(e + 925)) by (nonlinear_arith)
        requires
            num == (q * pow2(e)) * pow2(925),
            pow2(e + 925) == pow2(e) * pow2(925),
    ;
    reveal(Single::widen_spec);
    let x = exactly(n, e + 925);
    if q == 0 {
        assert(0 * pow2(e + 925) == 0);
        lemma_size_positive(x);
        lemma_signed(true, 0);
        lemma_signed(false, 0);
        lemma_nearest_of_double(Double::zero_spec(), 0, 1);
        lemma_size_positive(Double::zero_spec());
        lemma_size_positive(signed(true, 0));
    } else {
        assert(x == s.widen_spec());
        assert(n < 0 ==> (-n) * pow2(e + 925) == -(n * pow2(e + 925))) by (nonlinear_arith);
    }
}

/// A double is narrowed to the nearest single, with its sign.
pub proof fn law_narrowing_is_nearest(a: Double)
    requires
        a.finite(),
    ensures
        a.narrow_spec().negative() == a.negative(),
        is_nearest(24, SINGLE_INFINITY_BITS as nat, a.narrow_spec().magnitude(), a.size(), pow2(925)),
{
    reveal(Double::narrow_spec);
    law_nearest_exists(24, SINGLE_INFINITY_BITS as nat, a.size(), pow2(925));
}

/// A double that is the value of a single is narrowed to that single.
pub proof fn law_narrowing_undoes_widening(a: Double, s: Single)
    requires
        s.magnitude() < SINGLE_INFINITY_BITS,
        a == s.widen_spec(),
    ensures
        a.narrow_spec() == s,
{
    law_widening_is_exact(s);
    lemma_pow2_pos(925);
    lemma_nearest_exact(24, SINGLE_INFINITY_BITS as nat, s.magnitude(), a.size(), pow2(925));
    law_nearest_unique(24, SINGLE_INFINITY_BITS as nat, s.magnitude(), a.size(), pow2(925));
    reveal(Double::narrow_spec);
}

/// Sums, products and quotients of numbers that are not finite.
pub proof fn law_infinities_are_reckoned_with(a: Double, b: Double)
    ensures
        a.nan() || b.nan() ==> a.plus_spec(b).nan() && a.times_spec(b).nan() && a.over_spec(b).nan(),
        a.infinite() && !b.nan() && !b.infinite() ==> a.plus_spec(b) == a && b.plus_spec(a) == a,
        a.infinite() && b.infinite() ==> if a.negative() == b.negative() { a.plus_spec(b) == a } else { a.plus_spec(b).nan() },
        a.infinite() && b.is_zero() ==> a.times_spec(b).nan() && b.times_spec(a).nan(),
        a.infinite() && !b.nan() && !b.is_zero() ==> a.times_spec(b).infinite() && a.times_spec(b).negative() == (
        a.negative() != b.negative()),
        a.infinite() && b.infinite() ==> a.over_spec(b).nan(),
        a.is_zero() && b.is_zero() ==> a.over_spec(b).nan(),
        a.infinite() && b.finite() ==> a.over_spec(b).infinite() && a.over_spec(b).negative() == (a.negative() != b.negative()),
        a.finite() && b.infinite() ==> a.over_spec(b).is_zero(),
        a.finite() && !a.is_zero() && b.is_zero() ==> a.over_spec(b).infinite() && a.over_spec(b).negative() == (a.negative()
            != b.negative()),
{
    reveal(Double::plus_spec);
    reveal(Double::times_spec);
    reveal(Double::over_spec);
}

/// Whole numbers up to `2^53` are exact.
pub proof fn law_counts_are_exact(n: nat)
    requires
        n <= pow2(53),
    ensures
        Double::from_count_spec(n).finite(),
        Double::from_count_spec(n).value() == n * pow2(1074),
{
    lemma_from_count_exact(n);
}

} // verus!
