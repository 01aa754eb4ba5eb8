//! Laws of rounded arithmetic: results that are numbers of the format are exact, and the
//! order of numbers is kept.

use vstd::arithmetic::power2::{lemma2_to64, lemma2_to64_rest, lemma_pow2_adds, lemma_pow2_pos, lemma_pow2_unfold, pow2};
use vstd::prelude::*;

use crate::double::{nearest_double, signed, Double, INFINITY_BITS};
use crate::rounding::{
    grid, lemma_grid_at, lemma_grid_monotone, lemma_nearest_exact, law_nearest_exists, lemma_nearest_monotone, law_nearest_unique, nearest,
};

verus! {

/// Finite numbers have the order of their values.
pub(crate) proof fn lemma_value_order(a: Double, b: Double)
    requires
        a.finite(),
        b.finite(),
        a.ordinal() <= b.ordinal(),
    ensures
        a.value() <= b.value(),
{
    lemma_pow2_pos(52);
    if a.magnitude() <= b.magnitude() {
        lemma_grid_monotone(53, a.magnitude(), b.magnitude());
    } else {
        lemma_grid_monotone(53, b.magnitude(), a.magnitude());
    }
    lemma_grid_monotone(53, 0, a.magnitude());
    lemma_grid_monotone(53, 0, b.magnitude());
}

pub(crate) proof fn lemma_nearest_double_monotone(num: nat, den: nat, num2: nat, den2: nat)
    requires
        den > 0,
        den2 > 0,
        num * den2 <= num2 * den,
    ensures
        nearest_double(num, den) <= nearest_double(num2, den2) <= INFINITY_BITS,
{
    let top = INFINITY_BITS as nat;
    law_nearest_exists(53, top, num, den);
    law_nearest_exists(53, top, num2, den2);
    lemma_nearest_monotone(53, top, nearest(53, top, num, den), num, den, nearest(53, top, num2, den2), num2, den2);
}

pub(crate) proof fn lemma_signed(negative: bool, magnitude: nat)
    requires
        magnitude <= INFINITY_BITS,
    ensures
        signed(negative, magnitude).magnitude() == magnitude,
        signed(negative, magnitude).ordinal() == if negative { -(magnitude as int) } else { magnitude as int },
{
}

/// Where the sum of two finite numbers stands.
pub(crate) proof fn lemma_plus_ordinal(a: Double, b: Double)
    requires
        a.finite(),
        b.finite(),
    ensures
        !a.plus_spec(b).nan(),
        ({
            let sum = a.value() + b.value();
            a.plus_spec(b).ordinal() == if sum < 0 {
                -(nearest_double((-sum) as nat, 1) as int)
            } else if sum == 0 {
                0
            } else {
                nearest_double(sum as nat, 1) as int
            }
        }),
{
    reveal(Double::plus_spec);
    let sum = a.value() + b.value();
    let m = (if sum < 0 { -sum } else { sum }) as nat;
    lemma_nearest_double_monotone(m, 1, m, 1);
    lemma_signed(sum < 0, nearest_double(m, 1));
    lemma_signed(a.negative() && b.negative(), 0);
}

/// A sum grows with its addends.
pub(crate) proof fn lemma_plus_monotone(a: Double, b: Double, c: Double, d: Double)
    requires
        a.le_spec(c),
        b.le_spec(d),
        !a.plus_spec(b).nan(),
        !c.plus_spec(d).nan(),
    ensures
        a.plus_spec(b).le_spec(c.plus_spec(d)),
{
    if a.finite() && b.finite() && c.finite() && d.finite() {
        lemma_value_order(a, c);
        lemma_value_order(b, d);
        lemma_plus_ordinal(a, b);
        lemma_plus_ordinal(c, d);
        let s = a.value() + b.value();
        let t = c.value() + d.value();
        if s > 0 {
            lemma_nearest_double_monotone(s as nat, 1, t as nat, 1);
        } else if t < 0 {
            lemma_nearest_double_monotone((-t) as nat, 1, (-s) as nat, 1);
        }
    } else {
        reveal(Double::plus_spec);
    }
}

/// The sum of two numbers is a number unless they are opposite infinities.
pub(crate) proof fn lemma_plus_number(a: Double, b: Double)
    requires
        !a.nan(),
        !b.nan(),
    ensures
        a.plus_spec(b).nan() <==> (a.infinite() && b.infinite() && a.negative() != b.negative()),
{
    if a.finite() && b.finite() {
        lemma_plus_ordinal(a, b);
    } else {
        reveal(Double::plus_spec);
    }
}

/// Where half of a number stands.
proof fn lemma_half_ordinal(a: Double)
    requires
        !a.nan(),
    ensures
        !a.over_spec(Double::two_spec()).nan(),
        a.finite() && !a.is_zero() ==> a.over_spec(Double::two_spec()).ordinal() == {
            let k = nearest_double(a.size() * pow2(1074), Double::two_spec().size());
            if a.negative() { -(k as int) } else { k as int }
        },
        a.is_zero() ==> a.over_spec(Double::two_spec()).ordinal() == 0,
        a.infinite() ==> a.over_spec(Double::two_spec()).ordinal() == a.ordinal(),
        Double::two_spec().size() > 0,
        a.over_spec(Double::two_spec()).ordinal() <= INFINITY_BITS,
        a.over_spec(Double::two_spec()).ordinal() >= -INFINITY_BITS,
{
    reveal(Double::over_spec);
    let two = Double::two_spec();
    lemma_grid_monotone(53, 0, two.magnitude());
    let num = a.size() * pow2(1074);
    lemma_nearest_double_monotone(num, two.size(), num, two.size());
    lemma_signed(a.negative(), nearest_double(num, two.size()));
    lemma_signed(a.negative(), 0);
    lemma_signed(a.negative(), INFINITY_BITS as nat);
}

/// Halving keeps the order.
pub(crate) proof fn lemma_half_monotone(a: Double, b: Double)
    requires
        a.le_spec(b),
    ensures
        a.over_spec(Double::two_spec()).le_spec(b.over_spec(Double::two_spec())),
{
    lemma_half_ordinal(a);
    lemma_half_ordinal(b);
    let den = Double::two_spec().size();
    let na = a.size() * pow2(1074);
    let nb = b.size() * pow2(1074);
    if a.magnitude() <= b.magnitude() {
        lemma_grid_monotone(53, a.magnitude(), b.magnitude());
        assert(na * den <= nb * den) by (nonlinear_arith)
            requires
                na == a.size() * pow2(1074),
                nb == b.size() * pow2(1074),
                a.size() <= b.size(),
        ;
        lemma_nearest_double_monotone(na, den, nb, den);
    } else {
        lemma_grid_monotone(53, b.magnitude(), a.magnitude());
        assert(nb * den <= na * den) by (nonlinear_arith)
            requires
                na == a.size() * pow2(1074),
                nb == b.size() * pow2(1074),
                b.size() <= a.size(),
        ;
        lemma_nearest_double_monotone(nb, den, na, den);
    }
}

/// Where the next number up stands.
pub(crate) proof fn lemma_next_up(a: Double)
    requires
        !a.nan(),
    ensures
        !a.next_up_spec().nan(),
        a.next_up_spec().ordinal() == if a.ordinal() == INFINITY_BITS { a.ordinal() } else { a.ordinal() + 1 },
{
}

/// Larger counts are larger numbers, as far as numbers tell them apart.
pub(crate) proof fn lemma_from_count_monotone(m: nat, n: nat)
    requires
        m <= n,
    ensures
        Double::from_count_spec(m).le_spec(Double::from_count_spec(n)),
{
    reveal(Double::from_count_spec);
    let unit = pow2(1074);
    assert(m * unit <= n * unit) by (nonlinear_arith)
        requires
            m <= n,
    ;
    lemma_nearest_double_monotone(m * unit, 1, n * unit, 1);
    lemma_signed(false, nearest_double(m * unit, 1));
    lemma_signed(false, nearest_double(n * unit, 1));
}

/// A value on the grid is rounded to itself.
pub(crate) proof fn lemma_nearest_of_double(c: Double, num: nat, den: nat)
    requires
        c.finite(),
        den > 0,
        num == c.size() * den,
    ensures
        nearest_double(num, den) == c.magnitude(),
{
    lemma_nearest_exact(53, INFINITY_BITS as nat, c.magnitude(), num, den);
    law_nearest_unique(53, INFINITY_BITS as nat, c.magnitude(), num, den);
}

pub(crate) proof fn lemma_size_positive(a: Double)
    requires
        a.finite(),
    ensures
        a.size() == 0 <==> a.is_zero(),
{
    lemma_pow2_pos(52);
    if !a.is_zero() {
        lemma_grid_monotone(53, 0, a.magnitude());
    }
}

/// A sum that is a number of the format, and not zero, is exact.
pub proof fn law_exact_sum(a: Double, b: Double, c: Double)
    requires
        a.finite(),
        b.finite(),
        c.finite(),
        c.value() == a.value() + b.value(),
        c.value() != 0,
    ensures
        a.plus_spec(b) == c,
{
    reveal(Double::plus_spec);
    lemma_size_positive(c);
    assert(c.size() * 1 == c.size());
    lemma_nearest_of_double(c, c.size(), 1);
}

/// A product that is a number of the format is exact.
pub proof fn law_exact_product(a: Double, b: Double, c: Double)
    requires
        a.finite(),
        b.finite(),
        c.finite(),
        a.size() * b.size() == c.size() * pow2(1074),
        c.negative() == (a.negative() != b.negative()),
    ensures
        a.times_spec(b) == c,
{
    reveal(Double::times_spec);
    lemma_pow2_pos(1074);
    lemma_size_positive(a);
    lemma_size_positive(b);
    lemma_size_positive(c);
    lemma_nearest_of_double(c, a.size() * b.size(), pow2(1074));
    if a.is_zero() || b.is_zero() {
        assert(c.size() == 0) by (nonlinear_arith)
            requires
                c.size() * pow2(1074) == a.size() * b.size(),
                a.size() == 0 || b.size() == 0,
                pow2(1074) > 0,
        ;
    }
}

/// A quotient that is a number of the format is exact.
pub proof fn law_exact_quotient(a: Double, b: Double, c: Double)
    requires
        a.finite(),
        b.finite(),
        !b.is_zero(),
        c.finite(),
        a.size() * pow2(1074) == c.size() * b.size(),
        c.negative() == (a.negative() != b.negative()),
    ensures
        a.over_spec(b) == c,
{
    reveal(Double::over_spec);
    lemma_pow2_pos(1074);
    lemma_size_positive(a);
    lemma_size_positive(b);
    lemma_size_positive(c);
    lemma_nearest_of_double(c, a.size() * pow2(1074), b.size());
    if a.is_zero() {
        assert(c.size() == 0) by (nonlinear_arith)
            requires
                c.size() * b.size() == a.size() * pow2(1074),
                a.size() == 0,
                b.size() > 0,
        ;
    }
}

/// Sums and products do not depend on the order of their operands.
pub proof fn law_operands_commute(a: Double, b: Double)
    ensures
        a.plus_spec(b) == b.plus_spec(a),
        a.times_spec(b) == b.times_spec(a),
{
    reveal(Double::plus_spec);
    reveal(Double::times_spec);
    assert(a.size() * b.size() == b.size() * a.size()) by (nonlinear_arith);
}

/// How far a number has to be shifted to fill a significand.
pub(crate) proof fn lemma_normal(n: nat, s: nat) -> (t: nat)
    requires
        n >= 1,
        n * pow2(s) < pow2(53),
        s <= 52,
    ensures
        t <= 52,
        pow2(52) <= n * pow2(t) < pow2(53),
    decreases 53 - s,
{
    lemma_pow2_unfold(53);
    if n * pow2(s) >= pow2(52) {
        s
    } else {
        lemma_pow2_unfold(s + 1);
        assert(n * pow2(s + 1) == 2 * (n * pow2(s))) by (nonlinear_arith)
            requires
                pow2(s + 1) == 2 * pow2(s),
        ;
        if s == 52 {
            assert(n * pow2(52) >= pow2(52)) by (nonlinear_arith)
                requires
                    n >= 1,
            ;
        }
        lemma_normal(n, s + 1)
    }
}

/// Counts that fill no more than a significand are exact.
pub(crate) proof fn lemma_from_count_exact(n: nat)
    requires
        n <= pow2(53),
    ensures
        Double::from_count_spec(n).finite(),
        !Double::from_count_spec(n).negative(),
        Double::from_count_spec(n).value() == n * pow2(1074),
{
    reveal(Double::from_count_spec);
    let unit = pow2(52);
    let num = n * pow2(1074);
    lemma2_to64();
    lemma2_to64_rest();
    lemma_pow2_unfold(53);
    lemma_pow2_pos(52);
    let k: nat;
    if n == 0 {
        k = 0;
    } else if n == pow2(53) {
        k = 1075 * unit + unit;
        lemma_grid_at(53, 1075, unit);
        lemma_pow2_adds(53, 1074);
        lemma_pow2_adds(52, 1075);
    } else {
        assert(n * pow2(0) == n);
        let t = lemma_normal(n, 0);
        let q = n * pow2(t);
        let e = (1074 - t) as nat;
        k = e * unit + q;
        lemma_grid_at(53, e, q);
        lemma_pow2_adds(t, e);
        assert(q * pow2(e) == n * (pow2(t) * pow2(e))) by (nonlinear_arith)
            requires
                q == n * pow2(t),
        ;
        assert(e * unit <= 1074 * unit) by (nonlinear_arith)
            requires
                e <= 1074,
        ;
    }
    assert(grid(53, k) == num);
    assert(k < INFINITY_BITS);
    assert(num * 1 == num);
    lemma_nearest_exact(53, INFINITY_BITS as nat, k, num, 1);
    law_nearest_unique(53, INFINITY_BITS as nat, k, num, 1);
    lemma_signed(false, k);
}

/// Counts that fill no more than a significand are told apart.
pub(crate) proof fn lemma_from_count_strict(m: nat, n: nat)
    requires
        m < n <= pow2(53),
    ensures
        Double::from_count_spec(m).lt_spec(Double::from_count_spec(n)),
{
    lemma_from_count_monotone(m, n);
    lemma_from_count_exact(m);
    lemma_from_count_exact(n);
    let a = Double::from_count_spec(m);
    let b = Double::from_count_spec(n);
    lemma_pow2_pos(1074);
    assert(m * pow2(1074) < n * pow2(1074)) by (nonlinear_arith)
        requires
            m < n,
            pow2(1074) > 0,
    ;
    if b.ordinal() <= a.ordinal() {
        lemma_value_order(b, a);
    }
}

/// Where the quotient by a positive number stands.
proof fn lemma_over_ordinal(a: Double, b: Double)
    requires
        a.finite(),
        b.finite(),
        b.value() > 0,
    ensures
        a.over_spec(b).ordinal() == if a.value() < 0 {
            -(nearest_double(a.size() * pow2(1074), b.size()) as int)
        } else if a.value() == 0 {
            0
        } else {
            nearest_double(a.size() * pow2(1074), b.size()) as int
        },
{
    reveal(Double::over_spec);
    lemma_size_positive(a);
    lemma_size_positive(b);
    let num = a.size() * pow2(1074);
    lemma_nearest_double_monotone(num, b.size(), num, b.size());
    lemma_signed(a.negative(), nearest_double(num, b.size()));
    lemma_signed(a.negative(), 0);
}

/// A quotient by a positive number does not fall where the exact one does not.
pub(crate) proof fn lemma_over_monotone(a: Double, b: Double, c: Double, d: Double)
    requires
        a.finite(),
        b.finite(),
        c.finite(),
        d.finite(),
        b.value() > 0,
        d.value() > 0,
        a.value() * d.value() <= c.value() * b.value(),
    ensures
        a.over_spec(b).ordinal() <= c.over_spec(d).ordinal(),
{
    lemma_over_ordinal(a, b);
    lemma_over_ordinal(c, d);
    let u = pow2(1074);
    let x = a.size();
    let y = c.size();
    let bv = b.size();
    let dv = d.size();
    let av = a.value();
    let cv = c.value();
    if av > 0 {
        assert(cv > 0) by (nonlinear_arith)
            requires
                av * dv <= cv * bv,
                av > 0,
                dv > 0,
                bv > 0,
        ;
        assert((x * u) * dv <= (y * u) * bv) by (nonlinear_arith)
            requires
                x * dv <= y * bv,
                u >= 0,
        ;
        lemma_nearest_double_monotone(x * u, bv, y * u, dv);
    } else if cv < 0 {
        assert(av < 0) by (nonlinear_arith)
            requires
                av * dv <= cv * bv,
                cv < 0,
                dv > 0,
                bv > 0,
        ;
        assert(y * bv <= x * dv) by (nonlinear_arith)
            requires
                av * dv <= cv * bv,
                av == -x,
                cv == -y,
        ;
        assert((y * u) * bv <= (x * u) * dv) by (nonlinear_arith)
            requires
                y * bv <= x * dv,
                u >= 0,
        ;
        lemma_nearest_double_monotone(y * u, dv, x * u, bv);
    } else {
        if av < 0 {
            assert(nearest_double(x * u, bv) >= 0);
        }
    }
}

} // verus!
