//! Categories ordered by gradient over hessian: in exact arithmetic, no subset of them is
//! split off better than by the best cut between neighbours in that order.

use vstd::prelude::*;

use crate::arithmetic::{lemma_over_monotone, lemma_plus_ordinal, lemma_size_positive, lemma_value_order};
use crate::double::Double;
use crate::exact::holds;
use crate::histogram::HistogramBin;
use crate::parameters::BoosterParameters;
use crate::split::{
    after, arranged, best_of, categorical_candidates, categorical_split, category_order,
    law_best_is_first_maximum, law_category_order, ratio, score_of, stands_before, Best,
};

verus! {

// ---------------------------------------------------------------------------------------
// Picks and cuts
// ---------------------------------------------------------------------------------------

/// Gradients and positive hessians, by rising gradient over hessian.
pub open spec fn by_ratio(g: Seq<int>, h: Seq<int>) -> bool {
    &&& g.len() == h.len()
    &&& forall|i: int| 0 <= i < h.len() ==> #[trigger] h[i] > 0
    &&& forall|i: int, j: int| 0 <= i < j < g.len() ==> #[trigger] not_above(g[i], h[i], g[j], h[j])
}

/// The ratio of the first gradient to the first hessian is not above that of the second ones.
pub open spec fn not_above(g1: int, h1: int, g2: int, h2: int) -> bool {
    g1 * h2 <= g2 * h1
}

/// The sum of the first `n` numbers.
pub open spec fn sum_of(x: Seq<int>, n: nat) -> int
    decreases n,
{
    if n == 0 {
        0
    } else {
        sum_of(x, (n - 1) as nat) + x[n - 1]
    }
}

/// The sum of those of the first `n` numbers that are picked.
pub open spec fn picked_sum(x: Seq<int>, picked: Seq<bool>, n: nat) -> int
    decreases n,
{
    if n == 0 {
        0
    } else {
        picked_sum(x, picked, (n - 1) as nat) + if picked[n - 1] { x[n - 1] } else { 0 }
    }
}

/// A gradient and a hessian, weighed by `a` and `b`.
#[verifier::opaque]
spec fn weigh(a: int, b: int, g: int, h: int) -> int {
    a * g + b * h
}

proof fn lemma_weigh_sum(a: int, b: int, p: int, q: int, x: int, y: int)
    ensures
        weigh(a, b, p + x, q + y) == weigh(a, b, p, q) + weigh(a, b, x, y),
{
    reveal(weigh);
    assert(a * (p + x) == a * p + a * x) by (nonlinear_arith);
    assert(b * (q + y) == b * q + b * y) by (nonlinear_arith);
}

proof fn lemma_weigh_zero(a: int, b: int)
    ensures
        weigh(a, b, 0, 0) == 0,
{
    reveal(weigh);
    assert(a * 0 == 0 && b * 0 == 0) by (nonlinear_arith);
}

/// The positive weights of the first `n` categories.
spec fn positive(g: Seq<int>, h: Seq<int>, a: int, b: int, n: nat) -> int
    decreases n,
{
    if n == 0 {
        0
    } else {
        let w = weigh(a, b, g[n - 1], h[n - 1]);
        positive(g, h, a, b, (n - 1) as nat) + if w > 0 { w } else { 0 }
    }
}

/// No pick weighs more than the positive weights together.
proof fn lemma_pick_weighs_less(g: Seq<int>, h: Seq<int>, a: int, b: int, picked: Seq<bool>, n: nat)
    ensures
        weigh(a, b, picked_sum(g, picked, n), picked_sum(h, picked, n)) <= positive(g, h, a, b, n),
    decreases n,
{
    lemma_weigh_zero(a, b);
    if n > 0 {
        let m = (n - 1) as nat;
        lemma_pick_weighs_less(g, h, a, b, picked, m);
        lemma_weigh_sum(a, b, picked_sum(g, picked, m), picked_sum(h, picked, m), g[n - 1], h[n - 1]);
    }
}

/// The sign of one category's weight tells that of another.
proof fn lemma_weights_in_order(a: int, b: int, gi: int, hi: int, gj: int, hj: int)
    requires
        hi > 0,
        hj > 0,
        not_above(gi, hi, gj, hj),
    ensures
        a >= 0 && weigh(a, b, gi, hi) > 0 ==> weigh(a, b, gj, hj) > 0,
        a < 0 && weigh(a, b, gj, hj) > 0 ==> weigh(a, b, gi, hi) > 0,
{
    reveal(weigh);
    let wi = weigh(a, b, gi, hi);
    let wj = weigh(a, b, gj, hj);
    let u = gj * hi;
    let v = gi * hj;
    assert(wj * hi == a * u + b * (hj * hi)) by (nonlinear_arith)
        requires
            wj == a * gj + b * hj,
            u == gj * hi,
    ;
    assert(wi * hj == a * v + b * (hj * hi)) by (nonlinear_arith)
        requires
            wi == a * gi + b * hi,
            v == gi * hj,
    ;
    if a >= 0 && wi > 0 {
        assert(a * u >= a * v) by (nonlinear_arith)
            requires
                a >= 0,
                u >= v,
        ;
        assert(wi * hj > 0) by (nonlinear_arith)
            requires
                wi > 0,
                hj > 0,
        ;
        assert(wj > 0) by (nonlinear_arith)
            requires
                wj * hi > 0,
                hi > 0,
        ;
    }
    if a < 0 && wj > 0 {
        assert(a * u <= a * v) by (nonlinear_arith)
            requires
                a < 0,
                u >= v,
        ;
        assert(wj * hi > 0) by (nonlinear_arith)
            requires
                wj > 0,
                hi > 0,
        ;
        assert(wi > 0) by (nonlinear_arith)
            requires
                wi * hj > 0,
                hj > 0,
        ;
    }
}

/// What the first `n` categories weigh together.
spec fn prefix_weight(g: Seq<int>, h: Seq<int>, a: int, b: int, n: nat) -> int {
    weigh(a, b, sum_of(g, n), sum_of(h, n))
}

proof fn lemma_prefix_weight(g: Seq<int>, h: Seq<int>, a: int, b: int, n: nat)
    ensures
        n == 0 ==> prefix_weight(g, h, a, b, n) == 0,
        n > 0 ==> prefix_weight(g, h, a, b, n) == prefix_weight(g, h, a, b, (n - 1) as nat) + weigh(
            a,
            b,
            g[n - 1],
            h[n - 1],
        ),
{
    lemma_weigh_zero(a, b);
    if n > 0 {
        let m = (n - 1) as nat;
        lemma_weigh_sum(a, b, sum_of(g, m), sum_of(h, m), g[n - 1], h[n - 1]);
    }
}

proof fn lemma_all_positive(g: Seq<int>, h: Seq<int>, a: int, b: int, n: nat)
    requires
        forall|k: int| 0 <= k < n ==> #[trigger] weigh(a, b, g[k], h[k]) > 0,
    ensures
        prefix_weight(g, h, a, b, n) == positive(g, h, a, b, n),
    decreases n,
{
    lemma_prefix_weight(g, h, a, b, n);
    if n > 0 {
        lemma_all_positive(g, h, a, b, (n - 1) as nat);
        assert(weigh(a, b, g[n - 1], h[n - 1]) > 0);
    }
}

proof fn lemma_none_positive(g: Seq<int>, h: Seq<int>, a: int, b: int, n: nat)
    requires
        forall|k: int| 0 <= k < n ==> #[trigger] weigh(a, b, g[k], h[k]) <= 0,
    ensures
        positive(g, h, a, b, n) == 0,
    decreases n,
{
    if n > 0 {
        lemma_none_positive(g, h, a, b, (n - 1) as nat);
        assert(weigh(a, b, g[n - 1], h[n - 1]) <= 0);
    }
}

/// The positive weights are those before a cut, or those behind it.
proof fn lemma_cut(g: Seq<int>, h: Seq<int>, a: int, b: int, n: nat) -> (m: nat)
    requires
        by_ratio(g, h),
        n <= g.len(),
    ensures
        m <= n,
        a < 0 ==> prefix_weight(g, h, a, b, m) == positive(g, h, a, b, n),
        a >= 0 ==> prefix_weight(g, h, a, b, n) - prefix_weight(g, h, a, b, m) == positive(g, h, a, b, n),
    decreases n,
{
    lemma_prefix_weight(g, h, a, b, n);
    if n == 0 {
        0
    } else {
        let w = weigh(a, b, g[n - 1], h[n - 1]);
        if a < 0 && w > 0 {
            assert forall|k: int| 0 <= k < n implies #[trigger] weigh(a, b, g[k], h[k]) > 0 by {
                if k < n - 1 {
                    assert(h[k] > 0 && h[n - 1] > 0);
                    assert(not_above(g[k], h[k], g[n - 1], h[n - 1]));
                    lemma_weights_in_order(a, b, g[k], h[k], g[n - 1], h[n - 1]);
                }
            }
            lemma_all_positive(g, h, a, b, n);
            n
        } else if a >= 0 && w <= 0 {
            assert forall|k: int| 0 <= k < n implies #[trigger] weigh(a, b, g[k], h[k]) <= 0 by {
                if k < n - 1 {
                    assert(h[k] > 0 && h[n - 1] > 0);
                    assert(not_above(g[k], h[k], g[n - 1], h[n - 1]));
                    lemma_weights_in_order(a, b, g[k], h[k], g[n - 1], h[n - 1]);
                }
            }
            lemma_none_positive(g, h, a, b, n);
            n
        } else {
            lemma_cut(g, h, a, b, (n - 1) as nat)
        }
    }
}

// ---------------------------------------------------------------------------------------
// The score of two sides
// ---------------------------------------------------------------------------------------

/// The size of a gradient, less `l1`, and not below zero.
pub open spec fn shrunk(g: int, l1: int) -> int {
    let size = if g < 0 {
        -g
    } else {
        g
    };
    if size > l1 {
        size - l1
    } else {
        0
    }
}

/// `f` is the score of a side: the square of the shrunk gradient over the hessian with `l2`.
/// A side that holds nothing has none.
pub open spec fn side_score(f: int, g: int, h: int, l1: int, l2: int) -> bool {
    ||| h + l2 > 0 && f * (h + l2) == shrunk(g, l1) * shrunk(g, l1)
    ||| g == 0 && h == 0 && f == 0
}

/// `f` is not below the score of the two sides that the sums `g` and `h` of one side leave of
/// the totals. Both sides are multiplied by the two hessians.
pub open spec fn not_below_sides(f: int, g: int, h: int, all_g: int, all_h: int, l1: int, l2: int) -> bool {
    let x1 = shrunk(g, l1);
    let y1 = h + l2;
    let x2 = shrunk(all_g - g, l1);
    let y2 = all_h - h + l2;
    (x1 * x1) * y2 + (x2 * x2) * y1 <= f * (y1 * y2)
}

/// The slope in the gradient of the plane that touches a side's score at `g` and `h`, times
/// the square of the hessian.
spec fn slope(g: int, h: int, l1: int, l2: int) -> int {
    if g < 0 {
        -2 * (shrunk(g, l1) * (h + l2))
    } else {
        2 * (shrunk(g, l1) * (h + l2))
    }
}

/// That in the hessian, with its sign turned.
spec fn fall(g: int, h: int, l1: int, l2: int) -> int {
    shrunk(g, l1) * shrunk(g, l1)
}

/// What the plane lies below zero at the origin.
spec fn depth(g: int, h: int, l1: int, l2: int) -> int {
    2 * (shrunk(g, l1) * (h + l2)) * l1 + fall(g, h, l1, l2) * l2
}

/// A plane that touches the score lies below it everywhere.
proof fn lemma_touching(f: int, g: int, h: int, at_g: int, at_h: int, l1: int, l2: int)
    requires
        0 <= l1,
        0 <= l2,
        0 <= h,
        0 < at_h + l2,
        side_score(f, g, h, l1, l2),
    ensures
        slope(at_g, at_h, l1, l2) * g - fall(at_g, at_h, l1, l2) * h - depth(at_g, at_h, l1, l2) <= f * ((
        at_h + l2) * (at_h + l2)),
{
    let x = shrunk(at_g, l1);
    let y = at_h + l2;
    let z = shrunk(g, l1);
    let w = h + l2;
    let c = x * y;
    let p = slope(at_g, at_h, l1, l2);
    let q = x * x;
    assert(c >= 0) by (nonlinear_arith)
        requires
            c == x * y,
            x >= 0,
            y > 0,
    ;
    assert(q >= 0) by (nonlinear_arith)
        requires
            q == x * x,
    ;
    // The plane is not above the one for the shrunk gradient.
    assert(p * g - 2 * c * l1 <= 2 * c * z) by (nonlinear_arith)
        requires
            c >= 0,
            p == 2 * c || p == -2 * c,
            g - l1 <= z,
            -g - l1 <= z,
    ;
    assert(q * h + q * l2 == q * w) by (nonlinear_arith)
        requires
            w == h + l2,
    ;
    if h + l2 > 0 && f * (h + l2) == z * z {
        let m = z * y;
        let k = x * w;
        let d = m - k;
        assert(d * d >= 0) by (nonlinear_arith);
        assert(m * m - 2 * (m * k) + k * k == d * d) by (nonlinear_arith)
            requires
                d == m - k,
        ;
        assert(m * m == (z * z) * (y * y)) by (nonlinear_arith)
            requires
                m == z * y,
        ;
        assert(m * k == c * z * w) by (nonlinear_arith)
            requires
                m == z * y,
                k == x * w,
                c == x * y,
        ;
        assert(2 * (c * z * w) == 2 * c * z * w) by (nonlinear_arith);
        assert(k * k == q * w * w) by (nonlinear_arith)
            requires
                k == x * w,
                q == x * x,
        ;
        assert((f * w) * (y * y) == (f * (y * y)) * w) by (nonlinear_arith);
        let e = f * (y * y);
        assert((e - 2 * c * z + q * w) * w >= 0) by (nonlinear_arith)
            requires
                e * w - 2 * c * z * w + q * w * w >= 0,
        ;
        assert(e - 2 * c * z + q * w >= 0) by (nonlinear_arith)
            requires
                (e - 2 * c * z + q * w) * w >= 0,
                w > 0,
        ;
    } else {
        assert(z == 0);
        assert(2 * c * z == 0) by (nonlinear_arith)
            requires
                z == 0,
        ;
        assert(q * w >= 0) by (nonlinear_arith)
            requires
                q >= 0,
                w >= 0,
        ;
        assert(f * (y * y) == 0) by (nonlinear_arith)
            requires
                f == 0,
        ;
    }
}

/// It meets the score where it touches it.
proof fn lemma_touched(g: int, h: int, l1: int, l2: int)
    requires
        0 <= l1,
    ensures
        slope(g, h, l1, l2) * g - fall(g, h, l1, l2) * h - depth(g, h, l1, l2) == (shrunk(g, l1) * shrunk(
            g,
            l1,
        )) * (h + l2),
{
    let x = shrunk(g, l1);
    let y = h + l2;
    let c = x * y;
    let p = slope(g, h, l1, l2);
    let q = x * x;
    assert(p * g - 2 * c * l1 == 2 * (q * y)) by (nonlinear_arith)
        requires
            c == x * y,
            q == x * x,
            x == 0 || (g < 0 && p == -2 * c && x == -g - l1) || (g >= 0 && p == 2 * c && x == g - l1),
            x == 0 ==> p == 0,
    ;
    assert(q * h + q * l2 == q * y) by (nonlinear_arith)
        requires
            y == h + l2,
    ;
}

/// Where one split weighs no less than another by the planes that touch the other's two sides,
/// it scores no less.
proof fn lemma_heavier_scores_more(
    f1: int,
    f2: int,
    g: int,
    h: int,
    at_g: int,
    at_h: int,
    all_g: int,
    all_h: int,
    l1: int,
    l2: int,
)
    requires
        0 <= l1,
        0 <= l2,
        0 <= h <= all_h,
        0 < at_h + l2,
        0 < all_h - at_h + l2,
        side_score(f1, g, h, l1, l2),
        side_score(f2, all_g - g, all_h - h, l1, l2),
        weigh(weight_a(at_g, at_h, all_g, all_h, l1, l2), weight_b(at_g, at_h, all_g, all_h, l1, l2), at_g, at_h)
            <= weigh(weight_a(at_g, at_h, all_g, all_h, l1, l2), weight_b(at_g, at_h, all_g, all_h, l1, l2), g, h),
    ensures
        not_below_sides(f1 + f2, at_g, at_h, all_g, all_h, l1, l2),
{
    reveal(weigh);
    let y1 = at_h + l2;
    let y2 = all_h - at_h + l2;
    let s1 = y1 * y1;
    let s2 = y2 * y2;
    let p1 = slope(at_g, at_h, l1, l2);
    let q1 = fall(at_g, at_h, l1, l2);
    let r1 = depth(at_g, at_h, l1, l2);
    let p2 = slope(all_g - at_g, all_h - at_h, l1, l2);
    let q2 = fall(all_g - at_g, all_h - at_h, l1, l2);
    let r2 = depth(all_g - at_g, all_h - at_h, l1, l2);
    let a = weight_a(at_g, at_h, all_g, all_h, l1, l2);
    let b = weight_b(at_g, at_h, all_g, all_h, l1, l2);
    lemma_touching(f1, g, h, at_g, at_h, l1, l2);
    lemma_touching(f2, all_g - g, all_h - h, all_g - at_g, all_h - at_h, l1, l2);
    lemma_touched(at_g, at_h, l1, l2);
    lemma_touched(all_g - at_g, all_h - at_h, l1, l2);
    let u1 = p1 * g - q1 * h - r1;
    let u2 = p2 * (all_g - g) - q2 * (all_h - h) - r2;
    let v1 = p1 * at_g - q1 * at_h - r1;
    let v2 = p2 * (all_g - at_g) - q2 * (all_h - at_h) - r2;
    assert(s1 > 0 && s2 > 0) by (nonlinear_arith)
        requires
            s1 == y1 * y1,
            s2 == y2 * y2,
            y1 > 0,
            y2 > 0,
    ;
    assert(u1 - v1 == p1 * (g - at_g) - q1 * (h - at_h)) by (nonlinear_arith)
        requires
            u1 == p1 * g - q1 * h - r1,
            v1 == p1 * at_g - q1 * at_h - r1,
    ;
    assert(u2 - v2 == q2 * (h - at_h) - p2 * (g - at_g)) by (nonlinear_arith)
        requires
            u2 == p2 * (all_g - g) - q2 * (all_h - h) - r2,
            v2 == p2 * (all_g - at_g) - q2 * (all_h - at_h) - r2,
    ;
    lemma_weighed_planes(a, b, p1, q1, p2, q2, s1, s2, g - at_g, h - at_h);
    assert(a * (g - at_g) + b * (h - at_h) >= 0) by (nonlinear_arith)
        requires
            a * at_g + b * at_h <= a * g + b * h,
    ;
    let d1 = u1 - v1;
    let d2 = u2 - v2;
    assert(d1 * s2 + d2 * s1 >= 0);
    let e1 = f1 * s1;
    let e2 = f2 * s2;
    assert(e1 * s2 >= (v1 + d1) * s2) by (nonlinear_arith)
        requires
            e1 >= v1 + d1,
            s2 > 0,
    ;
    assert(e2 * s1 >= (v2 + d2) * s1) by (nonlinear_arith)
        requires
            e2 >= v2 + d2,
            s1 > 0,
    ;
    assert((v1 + d1) * s2 == v1 * s2 + d1 * s2) by (nonlinear_arith);
    assert((v2 + d2) * s1 == v2 * s1 + d2 * s1) by (nonlinear_arith);
    assert(e1 * s2 + e2 * s1 >= v1 * s2 + v2 * s1);
    // Both sides hold the factor y1 * y2.
    let y = y1 * y2;
    let f = f1 + f2;
    assert(y > 0) by (nonlinear_arith)
        requires
            y == y1 * y2,
            y1 > 0,
            y2 > 0,
    ;
    assert(s1 * s2 == y * y) by (nonlinear_arith)
        requires
            s1 == y1 * y1,
            s2 == y2 * y2,
            y == y1 * y2,
    ;
    assert(e1 * s2 == f1 * (s1 * s2)) by (nonlinear_arith)
        requires
            e1 == f1 * s1,
    ;
    assert(e2 * s1 == f2 * (s1 * s2)) by (nonlinear_arith)
        requires
            e2 == f2 * s2,
    ;
    assert(f1 * (y * y) + f2 * (y * y) == (f * y) * y) by (nonlinear_arith)
        requires
            f == f1 + f2,
    ;
    assert(v1 * s2 == (q1 * y2) * y) by (nonlinear_arith)
        requires
            v1 == q1 * y1,
            s2 == y2 * y2,
            y == y1 * y2,
    ;
    assert(v2 * s1 == (q2 * y1) * y) by (nonlinear_arith)
        requires
            v2 == q2 * y2,
            s1 == y1 * y1,
            y == y1 * y2,
    ;
    let k = q1 * y2 + q2 * y1;
    assert((q1 * y2) * y + (q2 * y1) * y == k * y) by (nonlinear_arith)
        requires
            k == q1 * y2 + q2 * y1,
    ;
    assert(f * y >= k) by (nonlinear_arith)
        requires
            (f * y) * y >= k * y,
            y > 0,
    ;
}

/// The weight of a gradient by the planes that touch both sides.
spec fn weight_a(g: int, h: int, all_g: int, all_h: int, l1: int, l2: int) -> int {
    let y1 = h + l2;
    let y2 = all_h - h + l2;
    slope(g, h, l1, l2) * (y2 * y2) - slope(all_g - g, all_h - h, l1, l2) * (y1 * y1)
}

/// That of a hessian.
spec fn weight_b(g: int, h: int, all_g: int, all_h: int, l1: int, l2: int) -> int {
    let y1 = h + l2;
    let y2 = all_h - h + l2;
    fall(all_g - g, all_h - h, l1, l2) * (y1 * y1) - fall(g, h, l1, l2) * (y2 * y2)
}

proof fn lemma_weighed_planes(a: int, b: int, p1: int, q1: int, p2: int, q2: int, s1: int, s2: int, x: int, y: int)
    requires
        a == p1 * s2 - p2 * s1,
        b == q2 * s1 - q1 * s2,
    ensures
        (p1 * x - q1 * y) * s2 + (q2 * y - p2 * x) * s1 == a * x + b * y,
{
    assert((p1 * x - q1 * y) * s2 == (p1 * s2) * x - (q1 * s2) * y) by (nonlinear_arith);
    assert((q2 * y - p2 * x) * s1 == (q2 * s1) * y - (p2 * s1) * x) by (nonlinear_arith);
    let c = p1 * s2;
    let d = p2 * s1;
    let e = q2 * s1;
    let f = q1 * s2;
    assert(a * x == c * x - d * x) by (nonlinear_arith)
        requires
            a == c - d,
    ;
    assert(b * y == e * y - f * y) by (nonlinear_arith)
        requires
            b == e - f,
    ;
}

proof fn lemma_sum_not_negative(h: Seq<int>, m: nat, n: nat)
    requires
        m <= n <= h.len(),
        forall|i: int| 0 <= i < h.len() ==> #[trigger] h[i] > 0,
    ensures
        0 <= sum_of(h, m) <= sum_of(h, n),
    decreases n,
{
    if n > 0 {
        assert(h[n - 1] > 0);
        if m < n {
            lemma_sum_not_negative(h, m, (n - 1) as nat);
        } else {
            lemma_sum_not_negative(h, (n - 1) as nat, (n - 1) as nat);
        }
    }
}

/// Of categories by rising gradient over hessian, no pick is split off from the others with a
/// higher score than some cut has: `left` and `right` hold the scores of the categories before
/// and behind each cut. The two cuts that leave a side empty count too: they have the score of
/// the leaf as a whole.
pub proof fn law_some_cut_is_best(
    g: Seq<int>,
    h: Seq<int>,
    picked: Seq<bool>,
    left: Seq<int>,
    right: Seq<int>,
    l1: int,
    l2: int,
)
    requires
        by_ratio(g, h),
        picked.len() == g.len(),
        0 <= l1,
        0 <= l2,
        0 < picked_sum(h, picked, h.len()) + l2,
        0 < sum_of(h, h.len()) - picked_sum(h, picked, h.len()) + l2,
        left.len() == g.len() + 1,
        right.len() == g.len() + 1,
        forall|m: nat|
            m <= g.len() ==> side_score(#[trigger] left[m as int], sum_of(g, m), sum_of(h, m), l1, l2),
        forall|m: nat|
            m <= g.len() ==> side_score(
                #[trigger] right[m as int],
                sum_of(g, g.len()) - sum_of(g, m),
                sum_of(h, h.len()) - sum_of(h, m),
                l1,
                l2,
            ),
    ensures
        exists|m: nat|
            #![trigger left[m as int]]
            m <= g.len() && not_below_sides(
                left[m as int] + right[m as int],
                picked_sum(g, picked, g.len()),
                picked_sum(h, picked, h.len()),
                sum_of(g, g.len()),
                sum_of(h, h.len()),
                l1,
                l2,
            ),
{
    let n = g.len();
    let all_g = sum_of(g, n);
    let all_h = sum_of(h, n);
    let at_g = picked_sum(g, picked, n);
    let at_h = picked_sum(h, picked, n);
    let a = weight_a(at_g, at_h, all_g, all_h, l1, l2);
    let b = weight_b(at_g, at_h, all_g, all_h, l1, l2);
    lemma_pick_weighs_less(g, h, a, b, picked, n);
    let m = lemma_cut(g, h, a, b, n);
    lemma_sum_not_negative(h, m, n);
    let cut_g = sum_of(g, m);
    let cut_h = sum_of(h, m);
    assert(side_score(left[m as int], cut_g, cut_h, l1, l2));
    assert(side_score(right[m as int], all_g - cut_g, all_h - cut_h, l1, l2));
    if a < 0 {
        lemma_heavier_scores_more(left[m as int], right[m as int], cut_g, cut_h, at_g, at_h, all_g, all_h, l1, l2);
    } else {
        lemma_weigh_sum(a, b, all_g - cut_g, all_h - cut_h, cut_g, cut_h);
        lemma_heavier_scores_more(
            right[m as int],
            left[m as int],
            all_g - cut_g,
            all_h - cut_h,
            at_g,
            at_h,
            all_g,
            all_h,
            l1,
            l2,
        );
        assert(right[m as int] + left[m as int] == left[m as int] + right[m as int]);
    }
}

// ---------------------------------------------------------------------------------------
// Categorical splits
// ---------------------------------------------------------------------------------------

/// The gradients of bins, in units of the least positive number.
pub open spec fn gradients(bins: Seq<HistogramBin>) -> Seq<int> {
    Seq::new(bins.len(), |i: int| bins[i].sum_gradients.value())
}

/// Their hessians.
pub open spec fn hessians(bins: Seq<HistogramBin>) -> Seq<int> {
    Seq::new(bins.len(), |i: int| bins[i].sum_hessians.value())
}

/// Ratios that round to the same number are the same.
pub open spec fn ratios_told_apart(bins: Seq<HistogramBin>) -> bool {
    forall|i: int, j: int|
        0 <= i < bins.len() && 0 <= j < bins.len() && ratio(#[trigger] bins[i]).ordinal() == ratio(
            #[trigger] bins[j],
        ).ordinal() ==> not_above(
            bins[i].sum_gradients.value(),
            bins[i].sum_hessians.value(),
            bins[j].sum_gradients.value(),
            bins[j].sum_hessians.value(),
        )
}

/// A side holds its exact sums and has its exact score.
pub open spec fn exact_side(side: HistogramBin, g: int, h: int, p: BoosterParameters) -> bool {
    let score = score_of(side.sum_gradients, side.sum_hessians, p.lambda_l1, p.lambda_l2);
    &&& holds(side.sum_gradients, g)
    &&& holds(side.sum_hessians, h)
    &&& score.finite()
    &&& side_score(score.value(), g, h, p.lambda_l1.value(), p.lambda_l2.value())
}

/// The scan over bins in their order rounds nothing, and every cut leaves enough on both
/// sides.
pub open spec fn exact_cuts(bins: Seq<HistogramBin>, all: HistogramBin, p: BoosterParameters) -> bool {
    let g = gradients(bins);
    let h = hessians(bins);
    forall|t: int|
        0 <= t < bins.len() - 1 ==> {
            let (left, right) = #[trigger] after(bins, all, t);
            let sum = score_of(left.sum_gradients, left.sum_hessians, p.lambda_l1, p.lambda_l2).plus_spec(
                score_of(right.sum_gradients, right.sum_hessians, p.lambda_l1, p.lambda_l2),
            );
            &&& exact_side(left, sum_of(g, (t + 1) as nat), sum_of(h, (t + 1) as nat), p)
            &&& exact_side(
                right,
                sum_of(g, g.len()) - sum_of(g, (t + 1) as nat),
                sum_of(h, h.len()) - sum_of(h, (t + 1) as nat),
                p,
            )
            &&& holds(
                sum,
                score_of(left.sum_gradients, left.sum_hessians, p.lambda_l1, p.lambda_l2).value() + score_of(
                    right.sum_gradients,
                    right.sum_hessians,
                    p.lambda_l1,
                    p.lambda_l2,
                ).value(),
            )
            &&& p.min_sum_hessian_in_leaf.le_spec(left.sum_hessians)
            &&& p.min_sum_hessian_in_leaf.le_spec(right.sum_hessians)
        }
}

proof fn lemma_positive_value(x: Double)
    requires
        x.finite(),
        Double::zero_spec().lt_spec(x),
    ensures
        x.value() > 0,
{
    lemma_size_positive(x);
}

/// The order of the categories is that of the exact ratios.
proof fn lemma_ordered_by_ratio(bins: Seq<HistogramBin>)
    requires
        bins.len() <= usize::MAX,
        ({
            let order = category_order(bins, bins.len());
            let row = arranged(bins, order);
            &&& ratios_told_apart(row)
            &&& forall|i: int|
                0 <= i < row.len() ==> (#[trigger] row[i]).sum_gradients.finite() && row[i].sum_hessians.finite()
        }),
    ensures
        ({
            let row = arranged(bins, category_order(bins, bins.len()));
            by_ratio(gradients(row), hessians(row))
        }),
{
    let order = category_order(bins, bins.len());
    let row = arranged(bins, order);
    let g = gradients(row);
    let h = hessians(row);
    law_category_order(bins, bins.len());
    assert forall|i: int| 0 <= i < h.len() implies #[trigger] h[i] > 0 by {
        assert(order.contains(order[i]));
        assert(row[i].sum_hessians.finite());
        lemma_positive_value(row[i].sum_hessians);
    }
    assert forall|i: int, j: int| 0 <= i < j < g.len() implies #[trigger] not_above(g[i], h[i], g[j], h[j]) by {
        assert(stands_before(bins, order[i], order[j]));
        assert(h[i] > 0 && h[j] > 0);
        assert(row[i].sum_gradients.finite() && row[j].sum_gradients.finite());
        if ratio(row[i]).ordinal() < ratio(row[j]).ordinal() && g[j] * h[i] <= g[i] * h[j] {
            lemma_over_monotone(
                row[j].sum_gradients,
                row[j].sum_hessians,
                row[i].sum_gradients,
                row[i].sum_hessians,
            );
        }
    }
}

/// What is not below a score, and what is above that, is not below it either.
proof fn lemma_not_below_sides(f: int, more: int, g: int, h: int, all_g: int, all_h: int, l1: int, l2: int)
    requires
        f <= more,
        0 < h + l2,
        0 < all_h - h + l2,
        not_below_sides(f, g, h, all_g, all_h, l1, l2),
    ensures
        not_below_sides(more, g, h, all_g, all_h, l1, l2),
{
    let y1 = h + l2;
    let y2 = all_h - h + l2;
    let y = y1 * y2;
    assert(y > 0) by (nonlinear_arith)
        requires
            y == y1 * y2,
            y1 > 0,
            y2 > 0,
    ;
    assert(f * y <= more * y) by (nonlinear_arith)
        requires
            f <= more,
            y > 0,
    ;
}

/// The larger of two numbers.
pub open spec fn larger(a: int, b: int) -> int {
    if a < b {
        b
    } else {
        a
    }
}

/// The best cut is one of the cuts, has its score, and no cut scores higher.
proof fn lemma_best_cut(bins: Seq<HistogramBin>, all: HistogramBin, p: BoosterParameters)
    requires
        category_order(bins, bins.len()).len() >= 2,
        exact_cuts(arranged(bins, category_order(bins, bins.len())), all, p),
    ensures
        ({
            let order = category_order(bins, bins.len());
            let row = arranged(bins, order);
            let candidates = categorical_candidates(bins, order, all);
            let best = best_of(candidates, candidates.len(), p);
            &&& best.score.finite()
            &&& best.score.value() == score_of(
                best.candidate.left.sum_gradients,
                best.candidate.left.sum_hessians,
                p.lambda_l1,
                p.lambda_l2,
            ).value() + score_of(
                best.candidate.right.sum_gradients,
                best.candidate.right.sum_hessians,
                p.lambda_l1,
                p.lambda_l2,
            ).value()
            &&& forall|t: int|
                0 <= t < row.len() - 1 ==> {
                    let (left, right) = #[trigger] after(row, all, t);
                    score_of(left.sum_gradients, left.sum_hessians, p.lambda_l1, p.lambda_l2).value() + score_of(
                        right.sum_gradients,
                        right.sum_hessians,
                        p.lambda_l1,
                        p.lambda_l2,
                    ).value() <= best.score.value()
                }
        }),
{
    let order = category_order(bins, bins.len());
    let row = arranged(bins, order);
    let candidates = categorical_candidates(bins, order, all);
    let n = candidates.len();
    let best = best_of(candidates, n, p);
    law_best_is_first_maximum(candidates, n, p);
    assert forall|t: int| 0 <= t < n implies (#[trigger] candidates[t]).score(p).finite() && candidates[t].score(
        p,
    ).value() == score_of(
        candidates[t].left.sum_gradients,
        candidates[t].left.sum_hessians,
        p.lambda_l1,
        p.lambda_l2,
    ).value() + score_of(
        candidates[t].right.sum_gradients,
        candidates[t].right.sum_hessians,
        p.lambda_l1,
        p.lambda_l2,
    ).value() by {
        let (left, right) = after(row, all, t);
        assert(candidates[t].left == left && candidates[t].right == right);
    }
    assert(candidates[0].score(p).finite());
    assert(best != Best::none());
    assert forall|t: int| 0 <= t < row.len() - 1 implies ({
        let (left, right) = #[trigger] after(row, all, t);
        score_of(left.sum_gradients, left.sum_hessians, p.lambda_l1, p.lambda_l2).value() + score_of(
            right.sum_gradients,
            right.sum_hessians,
            p.lambda_l1,
            p.lambda_l2,
        ).value() <= best.score.value()
    }) by {
        let (left, right) = after(row, all, t);
        assert(candidates[t].left == left && candidates[t].right == right);
        assert(candidates[t].score(p).finite());
        lemma_value_order(candidates[t].score(p), best.score);
    }
}

/// Which categories of an order are picked, where `picked` has a flag for each category.
pub open spec fn picks(order: Seq<usize>, picked: Seq<bool>) -> Seq<bool> {
    Seq::new(order.len(), |i: int| picked[order[i] as int])
}

/// Where sums and scores are exact, ratios are told apart and no cut leaves a side too light,
/// no subset of the categories is split off with a higher score than the best cut has, or the
/// leaf as a whole. Where the least gain is not negative, a split that is found scores higher
/// than the leaf as a whole: no subset of the categories does better than it.
pub proof fn law_no_subset_is_better(
    bins: Seq<HistogramBin>,
    all: HistogramBin,
    parent_score: Double,
    p: BoosterParameters,
    picked: Seq<bool>,
)
    requires
        bins.len() <= usize::MAX,
        picked.len() == bins.len(),
        p.lambda_l1.finite(),
        p.lambda_l2.finite(),
        0 <= p.lambda_l1.value(),
        0 <= p.lambda_l2.value(),
        parent_score.finite(),
        ({
            let order = category_order(bins, bins.len());
            let row = arranged(bins, order);
            let g = gradients(row);
            let h = hessians(row);
            &&& order.len() >= 2
            &&& forall|i: int|
                0 <= i < row.len() ==> (#[trigger] row[i]).sum_gradients.finite() && row[i].sum_hessians.finite()
            &&& ratios_told_apart(row)
            &&& exact_cuts(row, all, p)
            &&& side_score(
                parent_score.value(),
                sum_of(g, g.len()),
                sum_of(h, h.len()),
                p.lambda_l1.value(),
                p.lambda_l2.value(),
            )
            &&& 0 < picked_sum(h, picks(order, picked), h.len()) + p.lambda_l2.value()
            &&& 0 < sum_of(h, h.len()) - picked_sum(h, picks(order, picked), h.len()) + p.lambda_l2.value()
        }),
    ensures
        ({
            let order = category_order(bins, bins.len());
            let row = arranged(bins, order);
            let g = gradients(row);
            let h = hessians(row);
            let candidates = categorical_candidates(bins, order, all);
            let best = best_of(candidates, candidates.len(), p);
            &&& not_below_sides(
                larger(best.score.value(), parent_score.value()),
                picked_sum(g, picks(order, picked), g.len()),
                picked_sum(h, picks(order, picked), h.len()),
                sum_of(g, g.len()),
                sum_of(h, h.len()),
                p.lambda_l1.value(),
                p.lambda_l2.value(),
            )
            &&& Double::zero_spec().le_spec(p.min_gain_to_split) ==> (categorical_split(bins, all, parent_score, p) matches Some(
                s,
            ) ==> not_below_sides(
                score_of(s.left.sum_gradients, s.left.sum_hessians, p.lambda_l1, p.lambda_l2).value() + score_of(
                    s.right.sum_gradients,
                    s.right.sum_hessians,
                    p.lambda_l1,
                    p.lambda_l2,
                ).value(),
                picked_sum(g, picks(order, picked), g.len()),
                picked_sum(h, picks(order, picked), h.len()),
                sum_of(g, g.len()),
                sum_of(h, h.len()),
                p.lambda_l1.value(),
                p.lambda_l2.value(),
            ))
        }),
{
    let order = category_order(bins, bins.len());
    let row = arranged(bins, order);
    let g = gradients(row);
    let h = hessians(row);
    let n = g.len();
    let l1 = p.lambda_l1.value();
    let l2 = p.lambda_l2.value();
    let candidates = categorical_candidates(bins, order, all);
    let best = best_of(candidates, candidates.len(), p);
    let whole = parent_score.value();
    lemma_ordered_by_ratio(bins);
    lemma_best_cut(bins, all, p);
    let score = |side: HistogramBin| score_of(side.sum_gradients, side.sum_hessians, p.lambda_l1, p.lambda_l2).value();
    let left = Seq::new(
        n + 1,
        |m: int|
            if m == 0 {
                0
            } else if m == n {
                whole
            } else {
                score(after(row, all, m - 1).0)
            },
    );
    let right = Seq::new(
        n + 1,
        |m: int|
            if m == 0 {
                whole
            } else if m == n {
                0
            } else {
                score(after(row, all, m - 1).1)
            },
    );
    assert forall|m: nat| m <= n implies side_score(#[trigger] left[m as int], sum_of(g, m), sum_of(h, m), l1, l2) by {
        if 0 < m < n {
            let (a, b) = after(row, all, m - 1);
            assert(exact_side(a, sum_of(g, m), sum_of(h, m), p));
        }
    }
    assert forall|m: nat| m <= n implies side_score(
        #[trigger] right[m as int],
        sum_of(g, n) - sum_of(g, m),
        sum_of(h, h.len()) - sum_of(h, m),
        l1,
        l2,
    ) by {
        if 0 < m < n {
            let (a, b) = after(row, all, m - 1);
            assert(exact_side(b, sum_of(g, n) - sum_of(g, m), sum_of(h, n) - sum_of(h, m), p));
        }
    }
    let subset = picks(order, picked);
    law_some_cut_is_best(g, h, subset, left, right, l1, l2);
    let at_g = picked_sum(g, subset, n);
    let at_h = picked_sum(h, subset, n);
    let m = choose|m: nat|
        #![trigger left[m as int]]
        m <= n && not_below_sides(left[m as int] + right[m as int], at_g, at_h, sum_of(g, n), sum_of(h, n), l1, l2);
    let f = left[m as int] + right[m as int];
    let most = larger(best.score.value(), whole);
    if 0 < m < n {
        let (a, b) = after(row, all, m - 1);
        assert(f == score(a) + score(b));
    }
    lemma_not_below_sides(f, most, at_g, at_h, sum_of(g, n), sum_of(h, n), l1, l2);
    if Double::zero_spec().le_spec(p.min_gain_to_split) && categorical_split(bins, all, parent_score, p) is Some {
        assert(parent_score.neg_spec().value() == -whole);
        lemma_plus_ordinal(best.score, parent_score.neg_spec());
        assert(whole < best.score.value());
    }
}

} // verus!
