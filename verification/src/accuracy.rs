//! How far rounded results are off: sums, products and quotients, and the values and scores of
//! leaves.

use vstd::arithmetic::power2::{lemma2_to64_rest, lemma_pow2_pos, lemma_pow2_unfold, pow2};
use vstd::prelude::*;

use crate::arithmetic::{
    law_exact_product, law_exact_sum, lemma_nearest_double_monotone, lemma_nearest_of_double, lemma_plus_ordinal, lemma_signed,
    lemma_size_positive,
};
use crate::double::{nearest_double, signed, Double, INFINITY_BITS};
use crate::exact::{cost, law_small_gradient_gives_zero, lemma_in_order, lemma_least_cost, lemma_one};
use crate::growth::value_of;
use crate::rounding::{grid, larger, law_nearest_exists, law_rounding_error, nearest};
use crate::split::score_of;

verus! {

/// Between `-e` and `e`.
pub open spec fn within(x: int, e: int) -> bool {
    -e <= x <= e
}

pub(crate) proof fn lemma_scale(k: int, x: int, e: int)
    requires
        0 <= k,
        within(x, e),
    ensures
        within(k * x, k * e),
{
    assert(-(k * e) <= k * x <= k * e) by (nonlinear_arith)
        requires
            0 <= k,
            -e <= x <= e,
    ;
}

pub(crate) proof fn lemma_unscale(k: int, x: int, e: int)
    requires
        0 < k,
        within(k * x, k * e),
    ensures
        within(x, e),
{
    assert(-e <= x <= e) by (nonlinear_arith)
        requires
            0 < k,
            -(k * e) <= k * x <= k * e,
    ;
}

/// The nearest number to a quotient, short of infinity.
proof fn lemma_nearest_error(num: nat, den: nat)
    requires
        den > 0,
        nearest_double(num, den) < INFINITY_BITS,
    ensures
        within(
            pow2(53) * (grid(53, nearest_double(num, den)) * den - num),
            larger(num, pow2(52) * den) as int,
        ),
{
    let top = INFINITY_BITS as nat;
    let k = nearest(53, top, num, den);
    law_nearest_exists(53, top, num, den);
    law_rounding_error(53, top, k, num, den);
    let x = grid(53, k) * den - num;
    assert(pow2(53) * (-x) == -(pow2(53) * x)) by (nonlinear_arith);
}

/// A sum is off by one part in `2^53` of the exact one at most.
pub proof fn law_sum_is_near(a: Double, b: Double)
    requires
        a.finite(),
        b.finite(),
        a.plus_spec(b).finite(),
    ensures
        ({
            let sum = a.value() + b.value();
            within(pow2(53) * (a.plus_spec(b).value() - sum), if sum < 0 { -sum } else { sum })
        }),
        a.value() + b.value() > 0 ==> a.plus_spec(b).value() > 0,
{
    reveal(Double::plus_spec);
    let sum = a.value() + b.value();
    let m = (if sum < 0 { -sum } else { sum }) as nat;
    let k = nearest_double(m, 1);
    lemma_nearest_double_monotone(m, 1, m, 1);
    lemma_signed(sum < 0, k);
    lemma_signed(a.negative() && b.negative(), 0);
    lemma_pow2_unfold(53);
    lemma_pow2_pos(52);
    let n = pow2(53) as int;
    if sum == 0 {
        assert(n * 0 == 0);
    } else {
        assert(k < INFINITY_BITS);
        lemma_nearest_error(m, 1);
        let r = grid(53, k);
        let x = r - m;
        assert(grid(53, k) * 1 == r);
        assert(pow2(52) * 1 == pow2(52));
        if m < pow2(52) {
            assert(x == 0) by (nonlinear_arith)
                requires
                    -pow2(52) <= n * x <= pow2(52),
                    n == 2 * pow2(52),
                    pow2(52) > 0,
            ;
            assert(n * x == 0);
        }
        assert(n * (-x) == -(n * x)) by (nonlinear_arith);
        assert(r > 0) by (nonlinear_arith)
            requires
                -m <= n * (r - m),
                m > 0,
                n > 1,
        ;
    }
}

/// A product is off by one part in `2^53` of the exact one at most, or by half the least
/// positive number.
pub proof fn law_product_is_near(a: Double, b: Double)
    requires
        a.finite(),
        b.finite(),
        a.times_spec(b).finite(),
    ensures
        within(
            pow2(53) * (a.times_spec(b).size() * pow2(1074) - a.size() * b.size()),
            larger(a.size() * b.size(), pow2(52) * pow2(1074)) as int,
        ),
        a.times_spec(b).negative() == (a.negative() != b.negative()),
{
    reveal(Double::times_spec);
    lemma_pow2_pos(1074);
    let num = a.size() * b.size();
    let k = nearest_double(num, pow2(1074));
    lemma_nearest_double_monotone(num, pow2(1074), num, pow2(1074));
    lemma_signed(a.negative() != b.negative(), k);
    lemma_nearest_error(num, pow2(1074));
}

/// A quotient is off by one part in `2^53` of the exact one at most, or by half the least
/// positive number.
pub proof fn law_quotient_is_near(a: Double, b: Double)
    requires
        a.finite(),
        b.finite(),
        !b.is_zero(),
        a.over_spec(b).finite(),
    ensures
        within(
            pow2(53) * (a.over_spec(b).size() * b.size() - a.size() * pow2(1074)),
            larger(a.size() * pow2(1074), pow2(52) * b.size()) as int,
        ),
        a.over_spec(b).negative() == (a.negative() != b.negative()),
{
    reveal(Double::over_spec);
    lemma_size_positive(a);
    lemma_size_positive(b);
    let num = a.size() * pow2(1074);
    let k = nearest_double(num, b.size());
    lemma_nearest_double_monotone(num, b.size(), num, b.size());
    lemma_signed(a.negative() != b.negative(), k);
    lemma_signed(a.negative() != b.negative(), 0);
    if a.is_zero() {
        assert(0 * pow2(1074) == 0);
        assert(0 * b.size() == 0);
        assert(pow2(53) * 0 == 0);
        lemma_pow2_pos(52);
    } else {
        lemma_nearest_error(num, b.size());
    }
}

// ---------------------------------------------------------------------------------------
// Leaf values and scores
// ---------------------------------------------------------------------------------------

/// The error of a quotient of which numerator and denominator are off by one part in `n`.
proof fn lemma_quotient_error(n: int, half: int, unit: int, h: int, hl: int, d: int, dl: int, v: int)
    requires
        n == 2 * half,
        8 <= n,
        0 < unit,
        0 < h,
        0 < hl,
        0 < d,
        0 <= dl,
        within(n * (hl - h), h),
        within(n * (dl - d), d),
        within(n * (v * hl - dl * unit), dl * unit + half * hl),
    ensures
        within(n * (v * h - d * unit), 4 * (d * unit) + half * h),
{
    let x1 = v * hl - dl * unit;
    let y = dl - d;
    let z = h - hl;
    let x2 = y * h + d * z;
    let x = v * h - d * unit;
    assert(hl * x == h * x1 + unit * x2) by {
        assert(h * x1 == (v * h) * hl - (dl * h) * unit) by (nonlinear_arith)
            requires
                x1 == v * hl - dl * unit,
        ;
        assert(x2 == dl * h - d * hl) by (nonlinear_arith)
            requires
                x2 == y * h + d * z,
                y == dl - d,
                z == h - hl,
        ;
        assert(unit * x2 == (dl * h) * unit - (d * unit) * hl) by (nonlinear_arith)
            requires
                x2 == dl * h - d * hl,
        ;
        assert(hl * x == (v * h) * hl - (d * unit) * hl) by (nonlinear_arith)
            requires
                x == v * h - d * unit,
        ;
    }
    // The two parts of the error.
    lemma_scale(h, n * x1, dl * unit + half * hl);
    assert(n * z == -(n * (hl - h))) by (nonlinear_arith)
        requires
            z == h - hl,
    ;
    lemma_scale(h, n * y, d);
    lemma_scale(d, n * z, h);
    assert(n * x2 == h * (n * y) + d * (n * z)) by (nonlinear_arith)
        requires
            x2 == y * h + d * z,
    ;
    assert(h * d == d * h) by (nonlinear_arith);
    lemma_scale(unit, n * x2, 2 * (d * h));
    assert(hl * (n * x) == h * (n * x1) + unit * (n * x2)) by (nonlinear_arith)
        requires
            hl * x == h * x1 + unit * x2,
    ;
    let e = h * (dl * unit + half * hl) + unit * (2 * (d * h));
    assert(within(hl * (n * x), e));
    // What they come to.
    let k = d * unit;
    assert(h * (dl * unit + half * hl) == (h * dl) * unit + hl * (half * h)) by (nonlinear_arith);
    let dh = 2 * (d * h);
    assert((h * dl) * unit + unit * dh == (h * dl + dh) * unit) by (nonlinear_arith);
    lemma_slack(n, h, hl, d, dl);
    assert(h * (dl + 2 * d) == h * dl + 2 * (d * h)) by (nonlinear_arith);
    assert((h * dl + 2 * (d * h)) * unit <= (4 * (hl * d)) * unit) by (nonlinear_arith)
        requires
            h * dl + 2 * (d * h) <= 4 * (hl * d),
            0 < unit,
    ;
    assert((4 * (hl * d)) * unit == hl * (4 * k)) by (nonlinear_arith)
        requires
            k == d * unit,
    ;
    assert(hl * (4 * k) + hl * (half * h) == hl * (4 * k + half * h)) by (nonlinear_arith);
    lemma_unscale(hl, n * x, 4 * k + half * h);
}

/// Factors that are off by one part in `n` make up for a whole one together.
proof fn lemma_slack(n: int, h: int, hl: int, d: int, dl: int)
    requires
        8 <= n,
        0 < h,
        0 < hl,
        0 < d,
        within(n * (hl - h), h),
        within(n * (dl - d), d),
    ensures
        h * (dl + 2 * d) <= 4 * (hl * d),
{
    let p = h * d;
    let a = h * dl;
    let b = hl * d;
    assert(n * a <= n * p + p) by (nonlinear_arith)
        requires
            n * (dl - d) <= d,
            0 < h,
            a == h * dl,
            p == h * d,
    ;
    assert(n * p <= n * b + p) by (nonlinear_arith)
        requires
            -h <= n * (hl - h),
            0 < d,
            b == hl * d,
            p == h * d,
    ;
    assert(p > 0) by (nonlinear_arith)
        requires
            0 < h,
            0 < d,
            p == h * d,
    ;
    assert(a + 2 * p <= 4 * b) by (nonlinear_arith)
        requires
            8 <= n,
            p > 0,
            n * a <= n * p + p,
            n * p <= n * b + p,
    ;
    assert(h * (dl + 2 * d) == a + 2 * p) by (nonlinear_arith)
        requires
            a == h * dl,
            p == h * d,
    ;
}

/// A number that is off by one part in `n` is off by one part in 64.
proof fn lemma_coarser(n: int, a: int, b: int)
    requires
        64 <= n,
        0 <= a,
        within(n * (b - a), a),
    ensures
        64 * b <= 65 * a,
        63 * a <= 64 * b,
{
    assert(64 * (b - a) <= a && -a <= 64 * (b - a)) by (nonlinear_arith)
        requires
            64 <= n,
            0 <= a,
            -a <= n * (b - a) <= a,
    ;
}

/// The error of the square of a number over another, both off by one part in `n`.
proof fn lemma_square_error(n: int, half: int, unit: int, h: int, hl: int, d: int, dl: int, q: int, s: int)
    requires
        n == 2 * half,
        64 <= n,
        0 < unit,
        0 < h,
        0 < hl,
        0 < d,
        0 <= dl,
        within(n * (hl - h), h),
        within(n * (dl - d), d),
        within(n * (q * unit - dl * dl), dl * dl + half * unit),
        within(n * (s * hl - q * unit), q * unit + half * hl),
    ensures
        within(n * (s * h - d * d), 6 * (d * d) + n * unit + half * h),
{
    let qu = q * unit;
    let t = dl * dl;
    let p = d * d;
    let w = d * dl;
    let x1 = s * hl - qu;
    let x2 = qu - t;
    let y = dl - d;
    let z = h - hl;
    let x3 = h * (y * (dl + d)) + p * z;
    let x = s * h - p;
    assert(hl * x == h * x1 + h * x2 + x3) by {
        assert(y * (dl + d) == t - p) by (nonlinear_arith)
            requires
                y == dl - d,
                t == dl * dl,
                p == d * d,
        ;
        assert(h * (t - p) == h * t - h * p) by (nonlinear_arith);
        assert(p * z == h * p - hl * p) by (nonlinear_arith)
            requires
                z == h - hl,
        ;
        assert(h * x1 == (s * h) * hl - h * qu) by (nonlinear_arith)
            requires
                x1 == s * hl - qu,
        ;
        assert(h * x2 == h * qu - h * t) by (nonlinear_arith)
            requires
                x2 == qu - t,
        ;
        assert(hl * x == (s * h) * hl - hl * p) by (nonlinear_arith)
            requires
                x == s * h - p,
        ;
    }
    // The three parts of the error.
    lemma_scale(h, n * x1, qu + half * hl);
    lemma_scale(h, n * x2, t + half * unit);
    lemma_scale(dl + d, n * y, d);
    assert((dl + d) * (n * y) == n * (y * (dl + d))) by (nonlinear_arith);
    assert((dl + d) * d == w + p) by (nonlinear_arith)
        requires
            w == d * dl,
            p == d * d,
    ;
    lemma_scale(h, n * (y * (dl + d)), w + p);
    assert(n * z == -(n * (hl - h))) by (nonlinear_arith)
        requires
            z == h - hl,
    ;
    assert(p > 0) by (nonlinear_arith)
        requires
            0 < d,
            p == d * d,
    ;
    lemma_scale(p, n * z, h);
    assert(n * x3 == h * (n * (y * (dl + d))) + p * (n * z)) by (nonlinear_arith)
        requires
            x3 == h * (y * (dl + d)) + p * z,
    ;
    assert(hl * (n * x) == n * (hl * x)) by (nonlinear_arith);
    assert(h * (n * x1) == n * (h * x1)) by (nonlinear_arith);
    assert(h * (n * x2) == n * (h * x2)) by (nonlinear_arith);
    let y1 = h * x1;
    let y2 = h * x2;
    assert(n * (y1 + y2 + x3) == n * y1 + n * y2 + n * x3) by (nonlinear_arith);
    assert(p * h == h * p) by (nonlinear_arith);
    let m = qu + t + w + 2 * p + half * unit;
    assert(h * (qu + half * hl) + h * (t + half * unit) + h * (w + p) + h * p == h * m + hl * (half * h))
        by (nonlinear_arith)
        requires
            m == qu + t + w + 2 * p + half * unit,
    ;
    assert(within(hl * (n * x), h * m + hl * (half * h)));
    // What they come to.
    lemma_coarser(n, h, hl);
    lemma_coarser(n, d, dl);
    assert(64 * t <= 65 * w) by (nonlinear_arith)
        requires
            64 * dl <= 65 * d,
            0 <= dl,
            t == dl * dl,
            w == d * dl,
    ;
    assert(64 * w <= 65 * p) by (nonlinear_arith)
        requires
            64 * dl <= 65 * d,
            0 < d,
            p == d * d,
            w == d * dl,
    ;
    assert(t >= 0) by (nonlinear_arith)
        requires
            t == dl * dl,
    ;
    assert(64 * x2 <= t + 32 * unit) by (nonlinear_arith)
        requires
            n * x2 <= t + half * unit,
            n == 2 * half,
            32 <= half,
            0 <= t,
            0 < unit,
    ;
    let hu = half * unit;
    assert(32 * unit <= hu) by (nonlinear_arith)
        requires
            32 <= half,
            0 < unit,
            hu == half * unit,
    ;
    assert(n * unit == 2 * hu) by (nonlinear_arith)
        requires
            n == 2 * half,
            hu == half * unit,
    ;
    let c = 6 * p + n * unit;
    assert(64 * m <= 63 * c);
    assert(h * m <= hl * c) by (nonlinear_arith)
        requires
            64 * m <= 63 * c,
            63 * h <= 64 * hl,
            0 < h,
            0 < c,
    ;
    assert(hl * c + hl * (half * h) == hl * (c + half * h)) by (nonlinear_arith);
    lemma_unscale(hl, n * x, c + half * h);
}

/// A leaf of finite sums whose hessian, raised by `l2`, is positive, where `l1` is not negative.
pub open spec fn proper_leaf(g: Double, h: Double, l1: Double, l2: Double) -> bool {
    &&& g.finite() && h.finite() && l1.finite() && l2.finite()
    &&& 0 <= l1.value()
    &&& 0 < h.value() + l2.value()
    &&& h.plus_spec(l2).finite()
}

/// The shrunk gradient of a leaf whose gradient is above `l1`.
proof fn lemma_shrunk_near(g: Double, l1: Double) -> (d: Double)
    requires
        g.finite(),
        l1.finite(),
        0 <= l1.value() < g.size(),
    ensures
        d == g.abs_spec().minus_spec(l1).max_spec(Double::zero_spec()),
        d.finite(),
        !d.negative(),
        d.value() > 0,
        within(pow2(53) * (d.size() - (g.size() - l1.value())), g.size() - l1.value()),
{
    let a = g.abs_spec();
    let n = l1.neg_spec();
    let d = a.plus_spec(n);
    assert(n.value() == -l1.value());
    let sum = (g.size() - l1.value()) as nat;
    lemma_plus_ordinal(a, n);
    lemma_nearest_double_monotone(sum, 1, g.size(), 1);
    lemma_nearest_of_double(a, g.size(), 1);
    assert(d.finite());
    law_sum_is_near(a, n);
    assert(!d.negative()) by {
        assert(d.value() > 0);
    }
    lemma_size_positive(d);
    d
}

/// The value of such a leaf is the shrunk gradient, with the gradient's sign turned, over the
/// raised hessian.
proof fn lemma_value_quotient(g: Double, h: Double, l1: Double, l2: Double, d: Double)
    requires
        g.finite(),
        l1.finite(),
        0 <= l1.value() < g.size(),
        d == g.abs_spec().minus_spec(l1).max_spec(Double::zero_spec()),
        d.finite(),
        !d.negative(),
        d.value() > 0,
    ensures
        value_of(g, h, l1, l2) == signed(!g.negative(), d.magnitude()).over_spec(h.plus_spec(l2)),
{
    let turned = signed(!g.negative(), d.magnitude());
    lemma_signed(!g.negative(), d.magnitude());
    lemma_size_positive(l1);
    lemma_size_positive(g);
    if l1.same_spec(Double::zero_spec()) {
        let a = g.abs_spec();
        assert(l1.neg_spec().value() == 0);
        law_exact_sum(a, l1.neg_spec(), a);
        assert(d == a);
        assert(turned == g.neg_spec());
    } else {
        lemma_one();
        let one = g.signum_spec().neg_spec();
        assert(one.size() == pow2(1074));
        assert(one.size() * d.size() == turned.size() * pow2(1074)) by (nonlinear_arith)
            requires
                one.size() == pow2(1074),
                d.size() == turned.size(),
        ;
        law_exact_product(one, d, turned);
    }
}

/// The cost of any value of a leaf whose gradient is above `l1`, times the raised hessian: the
/// square of what the value lacks, less that of the shrunk gradient.
proof fn lemma_cost_square(g: int, raised: int, l1: int, unit: int, w: int, d: int)
    requires
        0 < raised,
        0 <= l1,
        0 < unit,
        0 < d,
        d == if g < 0 { -g - l1 } else { g - l1 },
    ensures
        raised * cost(g, raised, l1, unit, w) >= -((d * unit) * (d * unit)),
        (g < 0 && w >= 0) || (g >= 0 && w <= 0) ==> {
            let size = if w < 0 { -w } else { w };
            let off = size * raised - d * unit;
            raised * cost(g, raised, l1, unit, w) == off * off - (d * unit) * (d * unit)
        },
{
    let size = if w < 0 { -w } else { w };
    let k = d * unit;
    let off = size * raised - k;
    let linear = g * w + l1 * size;
    let least = -(d * size);
    assert(linear >= least) by (nonlinear_arith)
        requires
            linear == g * w + l1 * size,
            least == -(d * size),
            (g < 0 && d == -g - l1) || (g >= 0 && d == g - l1),
            (w < 0 && size == -w) || (w >= 0 && size == w),
            0 <= l1,
            0 < d,
    ;
    if (g < 0 && w >= 0) || (g >= 0 && w <= 0) {
        assert(linear == least) by (nonlinear_arith)
            requires
                linear == g * w + l1 * size,
                least == -(d * size),
                (g < 0 && d == -g - l1 && size == w) || (g >= 0 && d == g - l1 && size == -w),
        ;
    }
    assert(w * w == size * size) by (nonlinear_arith)
        requires
            size == w || size == -w,
    ;
    let c = cost(g, raised, l1, unit, w);
    let low = raised * (size * size) + 2 * unit * least;
    assert(2 * unit * linear >= 2 * unit * least) by (nonlinear_arith)
        requires
            linear >= least,
            0 < unit,
    ;
    assert(c >= low);
    assert(raised * c >= raised * low) by (nonlinear_arith)
        requires
            c >= low,
            0 < raised,
    ;
    let m = size * raised;
    assert(raised * low == m * m - 2 * (k * m)) by {
        assert(raised * (raised * (size * size)) == m * m) by (nonlinear_arith)
            requires
                m == size * raised,
        ;
        assert(raised * (2 * unit * least) == -(2 * (k * m))) by (nonlinear_arith)
            requires
                least == -(d * size),
                k == d * unit,
                m == size * raised,
        ;
        assert(raised * low == raised * (raised * (size * size)) + raised * (2 * unit * least)) by (nonlinear_arith)
            requires
                low == raised * (size * size) + 2 * unit * least,
        ;
    }
    assert(off * off == m * m - 2 * (k * m) + k * k) by (nonlinear_arith)
        requires
            off == m - k,
    ;
    assert(off * off >= 0) by (nonlinear_arith);
}

/// What the value of a leaf lacks of the exact one, times the raised hessian.
pub open spec fn value_error(g: Double, h: Double, l1: Double, l2: Double) -> int {
    if g.size() <= l1.value() {
        0
    } else {
        value_of(g, h, l1, l2).size() * (h.value() + l2.value()) - (g.size() - l1.value()) * pow2(1074)
    }
}

/// The value of a leaf is zero where its gradient is not above `l1`. Otherwise it is the
/// gradient less `l1`, over the hessian raised by `l2`, with the gradient's sign turned, up to
/// four parts in `2^53` and half the least positive number. No value costs less by more than
/// the square of that error takes.
pub proof fn law_value_costs_nearly_least(g: Double, h: Double, l1: Double, l2: Double)
    requires
        proper_leaf(g, h, l1, l2),
        value_of(g, h, l1, l2).finite(),
    ensures
        ({
            let raised = h.value() + l2.value();
            let unit = pow2(1074) as int;
            let v = value_of(g, h, l1, l2);
            let off = value_error(g, h, l1, l2);
            &&& g.size() <= l1.value() ==> v.is_zero()
            &&& g.size() > l1.value() ==> {
                &&& v.negative() != g.negative()
                &&& within(pow2(53) * off, 4 * ((g.size() - l1.value()) * unit) + pow2(52) * raised)
            }
            &&& forall|w: int|
                raised * cost(g.value(), raised, l1.value(), unit, v.value()) <= raised * #[trigger] cost(
                    g.value(),
                    raised,
                    l1.value(),
                    unit,
                    w,
                ) + off * off
        }),
{
    let raised = h.value() + l2.value();
    let unit = pow2(1074) as int;
    let v = value_of(g, h, l1, l2);
    let off = value_error(g, h, l1, l2);
    let hl = h.plus_spec(l2);
    let gv = g.value();
    let lv = l1.value();
    lemma_pow2_pos(1074);
    lemma_pow2_pos(52);
    lemma_pow2_unfold(53);
    lemma2_to64_rest();
    law_sum_is_near(h, l2);
    lemma_size_positive(hl);
    if g.size() <= lv {
        lemma_in_order(g.abs_spec(), l1);
        law_small_gradient_gives_zero(g, h, l1, l2);
        lemma_size_positive(v);
        assert forall|w: int|
            raised * cost(gv, raised, lv, unit, v.value()) <= raised * #[trigger] cost(gv, raised, lv, unit, w) + off
                * off by {
            lemma_least_cost(gv, raised, lv, unit, 0, w);
            let a = cost(gv, raised, lv, unit, 0);
            let b = cost(gv, raised, lv, unit, w);
            assert(raised * a <= raised * b) by (nonlinear_arith)
                requires
                    a <= b,
                    0 < raised,
            ;
        }
    } else {
        let d = lemma_shrunk_near(g, l1);
        lemma_value_quotient(g, h, l1, l2, d);
        let turned = signed(!g.negative(), d.magnitude());
        lemma_signed(!g.negative(), d.magnitude());
        law_quotient_is_near(turned, hl);
        let exact = g.size() - lv;
        lemma_quotient_error(
            pow2(53) as int,
            pow2(52) as int,
            unit,
            raised,
            hl.value(),
            exact,
            d.value(),
            v.size() as int,
        );
        assert forall|w: int|
            raised * cost(gv, raised, lv, unit, v.value()) <= raised * #[trigger] cost(gv, raised, lv, unit, w) + off
                * off by {
            lemma_cost_square(gv, raised, lv, unit, w, exact);
            lemma_cost_square(gv, raised, lv, unit, v.value(), exact);
        }
    }
}

/// What the score of a leaf lacks of the exact one, times the raised hessian.
pub open spec fn score_error(g: Double, h: Double, l1: Double, l2: Double) -> int {
    if g.size() <= l1.value() {
        0
    } else {
        score_of(g, h, l1, l2).size() * (h.value() + l2.value()) - (g.size() - l1.value()) * (g.size() - l1.value())
    }
}

/// The score of a leaf is zero where its gradient is not above `l1`. Otherwise it is the square
/// of the gradient less `l1`, over the hessian raised by `l2`, up to six parts in `2^53` and what
/// the least positive number adds to the square and to the quotient.
pub proof fn law_score_is_near(g: Double, h: Double, l1: Double, l2: Double)
    requires
        proper_leaf(g, h, l1, l2),
        score_of(g, h, l1, l2).finite(),
    ensures
        g.size() <= l1.value() ==> score_of(g, h, l1, l2) == Double::zero_spec(),
        !score_of(g, h, l1, l2).negative(),
        g.size() > l1.value() ==> within(
            pow2(53) * score_error(g, h, l1, l2),
            6 * ((g.size() - l1.value()) * (g.size() - l1.value())) + pow2(53) * pow2(1074) + pow2(52) * (h.value()
                + l2.value()),
        ),
{
    let raised = h.value() + l2.value();
    let s = score_of(g, h, l1, l2);
    let hl = h.plus_spec(l2);
    lemma_pow2_pos(1074);
    lemma_pow2_pos(52);
    lemma_pow2_unfold(53);
    lemma2_to64_rest();
    law_sum_is_near(h, l2);
    lemma_size_positive(hl);
    if g.size() <= l1.value() {
        lemma_in_order(g.abs_spec(), l1);
        law_small_gradient_gives_zero(g, h, l1, l2);
    } else {
        let d = lemma_shrunk_near(g, l1);
        let q = d.times_spec(d);
        assert(q.finite()) by {
            reveal(Double::times_spec);
            reveal(Double::over_spec);
            let num = d.size() * d.size();
            lemma_nearest_double_monotone(num, pow2(1074), num, pow2(1074));
            lemma_signed(false, nearest_double(num, pow2(1074)));
        }
        law_product_is_near(d, d);
        law_quotient_is_near(q, hl);
        lemma_square_error(
            pow2(53) as int,
            pow2(52) as int,
            pow2(1074) as int,
            raised,
            hl.value(),
            g.size() - l1.value(),
            d.value(),
            q.size() as int,
            s.size() as int,
        );
    }
}

proof fn lemma_square_of_sum(n: int, k: int, p: int, unit: int, a: int, b: int, ea: int, eb: int)
    requires
        0 <= n,
        0 <= k,
        k * k == p * (unit * unit),
        within(n * a, ea),
        within(n * b, eb),
    ensures
        within(
            (n * n) * ((k + a) * (k + a) - (p + b) * (unit * unit)),
            2 * (n * k) * ea + ea * ea + (n * (unit * unit)) * eb,
        ),
{
    let m = n * a;
    let uu = unit * unit;
    let x = (k + a) * (k + a) - (p + b) * uu;
    assert(uu >= 0) by (nonlinear_arith)
        requires
            uu == unit * unit,
    ;
    assert((k + a) * (k + a) == k * k + 2 * (k * a) + a * a) by (nonlinear_arith);
    assert((p + b) * uu == p * uu + b * uu) by (nonlinear_arith);
    let y = 2 * (k * a) + a * a - b * uu;
    assert(x == y);
    let nn = n * n;
    assert(nn * (2 * (k * a)) == 2 * (n * k) * m) by (nonlinear_arith)
        requires
            nn == n * n,
            m == n * a,
    ;
    assert(nn * (a * a) == m * m) by (nonlinear_arith)
        requires
            nn == n * n,
            m == n * a,
    ;
    assert(nn * (b * uu) == (n * uu) * (n * b)) by (nonlinear_arith)
        requires
            nn == n * n,
    ;
    assert(nn * y == nn * (2 * (k * a)) + nn * (a * a) - nn * (b * uu)) by (nonlinear_arith)
        requires
            y == 2 * (k * a) + a * a - b * uu,
    ;
    assert(2 * (n * k) >= 0) by (nonlinear_arith)
        requires
            0 <= n,
            0 <= k,
    ;
    assert(n * uu >= 0) by (nonlinear_arith)
        requires
            0 <= n,
            0 <= uu,
    ;
    lemma_scale(2 * (n * k), m, ea);
    lemma_scale(n * uu, n * b, eb);
    assert(0 <= m * m <= ea * ea) by (nonlinear_arith)
        requires
            -ea <= m <= ea,
    ;
}

/// The errors together, where neither the value nor the score is so small that the least positive
/// number counts.
proof fn lemma_relative_error(n: int, k: int, p: int, uu: int, x: int, ea: int, eb: int)
    requires
        64 <= n,
        0 <= k,
        k * k == p * uu,
        0 <= uu,
        0 <= ea <= 5 * k,
        eb <= 7 * p,
        within((n * n) * x, 2 * (n * k) * ea + ea * ea + (n * uu) * eb),
    ensures
        within(n * x, 18 * (k * k)),
{
    let kk = k * k;
    assert(2 * (n * k) * ea <= 10 * (n * kk)) by (nonlinear_arith)
        requires
            ea <= 5 * k,
            0 <= n,
            0 <= k,
            kk == k * k,
    ;
    assert(ea * ea <= 25 * kk) by (nonlinear_arith)
        requires
            0 <= ea <= 5 * k,
            kk == k * k,
    ;
    assert((n * uu) * eb <= 7 * (n * kk)) by (nonlinear_arith)
        requires
            eb <= 7 * p,
            0 <= n,
            0 <= uu,
            kk == p * uu,
    ;
    assert(25 * kk <= n * kk) by (nonlinear_arith)
        requires
            64 <= n,
            kk == k * k,
    ;
    assert((n * n) * x == n * (n * x)) by (nonlinear_arith);
    assert(18 * (n * kk) == n * (18 * kk)) by (nonlinear_arith);
    lemma_unscale(n, n * x, 18 * kk);
}

/// The score of a leaf is the hessian, raised by `l2`, times the square of its value, up to the
/// errors of both: up to 18 parts in `2^53` where neither of them is so small that the least
/// positive number counts.
pub proof fn law_score_is_nearly_what_the_value_saves(g: Double, h: Double, l1: Double, l2: Double)
    requires
        proper_leaf(g, h, l1, l2),
        value_of(g, h, l1, l2).finite(),
        score_of(g, h, l1, l2).finite(),
        g.size() > l1.value(),
    ensures
        ({
            let raised = h.value() + l2.value();
            let d = g.size() - l1.value();
            let unit = pow2(1074) as int;
            let n = pow2(53) as int;
            let v = value_of(g, h, l1, l2).size() as int;
            let s = score_of(g, h, l1, l2).size() as int;
            let value_off = 4 * (d * unit) + pow2(52) * raised;
            let score_off = 6 * (d * d) + n * unit + pow2(52) * raised;
            let off = (v * raised) * (v * raised) - (s * raised) * (unit * unit);
            &&& within(
                (n * n) * off,
                2 * (n * (d * unit)) * value_off + value_off * value_off + (n * (unit * unit)) * score_off,
            )
            &&& pow2(52) * raised <= d * unit && n * unit + pow2(52) * raised <= d * d ==> within(
                n * off,
                18 * ((d * unit) * (d * unit)),
            )
        }),
{
    let raised = h.value() + l2.value();
    let d = g.size() - l1.value();
    let unit = pow2(1074) as int;
    let n = pow2(53) as int;
    let v = value_of(g, h, l1, l2).size() as int;
    let s = score_of(g, h, l1, l2).size() as int;
    law_value_costs_nearly_least(g, h, l1, l2);
    law_score_is_near(g, h, l1, l2);
    lemma_pow2_pos(1074);
    lemma_pow2_pos(53);
    let k = d * unit;
    assert(k >= 0 && k * k == (d * d) * (unit * unit)) by (nonlinear_arith)
        requires
            k == d * unit,
            d >= 0,
            unit >= 0,
    ;
    let a = v * raised - k;
    let b = s * raised - d * d;
    lemma_square_of_sum(
        n,
        k,
        d * d,
        unit,
        a,
        b,
        4 * (d * unit) + pow2(52) * raised,
        6 * (d * d) + n * unit + pow2(52) * raised,
    );
    assert(k + a == v * raised);
    assert(d * d + b == s * raised);
    if pow2(52) * raised <= d * unit && n * unit + pow2(52) * raised <= d * d {
        let uu = unit * unit;
        assert(uu >= 0) by (nonlinear_arith)
            requires
                uu == unit * unit,
        ;
        assert(pow2(52) * raised >= 0) by (nonlinear_arith)
            requires
                raised > 0,
        ;
        lemma2_to64_rest();
        lemma_relative_error(
            n,
            k,
            d * d,
            uu,
            (v * raised) * (v * raised) - (s * raised) * uu,
            4 * (d * unit) + pow2(52) * raised,
            6 * (d * d) + n * unit + pow2(52) * raised,
        );
    }
}

} // verus!
