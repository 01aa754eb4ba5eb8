//! Odds and probabilities: how far the one undoes the other.

use vstd::arithmetic::power2::{lemma2_to64, lemma2_to64_rest, lemma_pow2_adds, lemma_pow2_pos, lemma_pow2_unfold, pow2};
use vstd::prelude::*;

use crate::accuracy::{law_quotient_is_near, law_sum_is_near, lemma_scale, lemma_unscale, within};
use crate::arithmetic::{
    lemma_from_count_exact, lemma_nearest_double_monotone, lemma_nearest_of_double, lemma_plus_ordinal, lemma_signed,
    lemma_size_positive, lemma_value_order,
};
use crate::double::{nearest_double, signed, Double, INFINITY_BITS};
use crate::exact::lemma_one;
use crate::objective::{
    label_sum, mean_label, safe_probability, weighted_sums, Logistic, HALF_BITS, HIGH_BITS, LOW_BITS,
};
use crate::rounding::{lemma_grid_at, lemma_grid_monotone, lemma_pow2_le};

verus! {

/// `a` is off from `b` by `t` parts in `2^53` at most.
pub open spec fn near(a: int, b: int, t: int) -> bool {
    within(pow2(53) * (a - b), t * b)
}

/// The most parts in `2^53` that are reckoned with.
pub open spec fn max_parts() -> int {
    0x10_0000
}

proof fn lemma_near_scale(k: int, a: int, b: int, t: int)
    requires
        0 <= k,
        near(a, b, t),
    ensures
        near(k * a, k * b, t),
{
    let n = pow2(53) as int;
    lemma_scale(k, n * (a - b), t * b);
    assert(k * (n * (a - b)) == n * (k * a - k * b)) by (nonlinear_arith);
    assert(k * (t * b) == t * (k * b)) by (nonlinear_arith);
}

proof fn lemma_near_unscale(k: int, a: int, b: int, t: int)
    requires
        0 < k,
        near(k * a, k * b, t),
    ensures
        near(a, b, t),
{
    let n = pow2(53) as int;
    assert(k * (n * (a - b)) == n * (k * a - k * b)) by (nonlinear_arith);
    assert(k * (t * b) == t * (k * b)) by (nonlinear_arith);
    lemma_unscale(k, n * (a - b), t * b);
}

proof fn lemma_near_shift(k: int, a: int, b: int, t: int)
    requires
        0 <= k,
        0 <= t,
        near(a, b, t),
    ensures
        near(a + k, b + k, t),
{
    assert(t * (b + k) >= t * b) by (nonlinear_arith)
        requires
            0 <= t,
            0 <= k,
    ;
    assert((a + k) - (b + k) == a - b);
}

proof fn lemma_near_range(a: int, b: int, t: int)
    requires
        0 <= b,
        0 <= t <= max_parts() + 20,
        near(a, b, t),
    ensures
        a <= 2 * b,
        b <= 2 * a,
        t * a <= t * b + b,
        t * b <= t * a + a,
{
    lemma2_to64_rest();
    let n = pow2(53) as int;
    let x = a - b;
    assert(2 * (t * t) <= n) by (nonlinear_arith)
        requires
            0 <= t <= 0x10_0014,
            n == 0x20_0000_0000_0000,
    ;
    assert(2 * (t * b) <= n * b) by (nonlinear_arith)
        requires
            2 * t <= n,
            0 <= b,
    ;
    assert(2 * x <= b && -b <= 2 * x) by (nonlinear_arith)
        requires
            -(t * b) <= n * x <= t * b,
            2 * (t * b) <= n * b,
            n > 0,
    ;
    assert(2 * (t * x) <= b && -b <= 2 * (t * x)) by (nonlinear_arith)
        requires
            -(t * b) <= n * x <= t * b,
            0 <= b,
            0 <= t,
            2 * (t * t) <= n,
            n > 0,
    {
        let y = t * x;
        assert(n * y == t * (n * x)) by (nonlinear_arith)
            requires
                y == t * x,
        ;
        assert(t * (n * x) <= (t * t) * b) by (nonlinear_arith)
            requires
                n * x <= t * b,
                0 <= t,
        ;
        assert(-((t * t) * b) <= t * (n * x)) by (nonlinear_arith)
            requires
                -(t * b) <= n * x,
                0 <= t,
        ;
        assert(2 * ((t * t) * b) <= n * b) by (nonlinear_arith)
            requires
                2 * (t * t) <= n,
                0 <= b,
        ;
        assert(n * (2 * y) <= n * b && n * (-b) <= n * (2 * y)) by (nonlinear_arith)
            requires
                n * y <= (t * t) * b,
                -((t * t) * b) <= n * y,
                2 * ((t * t) * b) <= n * b,
        ;
        assert(2 * y <= b && -b <= 2 * y) by (nonlinear_arith)
            requires
                n * (2 * y) <= n * b,
                n * (-b) <= n * (2 * y),
                n > 0,
        ;
    }
    assert(t * a == t * b + t * x) by (nonlinear_arith)
        requires
            x == a - b,
    ;
}

proof fn lemma_near_back(a: int, b: int, t: int)
    requires
        0 <= b,
        0 <= t <= max_parts() + 20,
        near(a, b, t),
    ensures
        near(b, a, t + 1),
{
    let n = pow2(53) as int;
    lemma_near_range(a, b, t);
    assert(n * (b - a) == -(n * (a - b))) by (nonlinear_arith);
    assert((t + 1) * a == t * a + a) by (nonlinear_arith);
}

proof fn lemma_near_chain(a: int, b: int, c: int, s: int, t: int)
    requires
        0 <= b,
        0 <= c,
        0 <= s <= max_parts() + 20,
        0 <= t <= max_parts() + 20,
        near(a, b, s),
        near(b, c, t),
    ensures
        near(a, c, s + t + 1),
{
    let n = pow2(53) as int;
    lemma2_to64_rest();
    assert(n * (a - c) == n * (a - b) + n * (b - c)) by (nonlinear_arith);
    assert((s + t + 1) * c == s * c + t * c + c) by (nonlinear_arith);
    // s parts of b are s parts of c, and one more.
    let x = b - c;
    assert(s * b == s * c + s * x) by (nonlinear_arith)
        requires
            x == b - c,
    ;
    let y = s * x;
    assert(n * y <= (s * t) * c) by (nonlinear_arith)
        requires
            n * x <= t * c,
            0 <= s,
            y == s * x,
    ;
    assert(s * t <= n) by (nonlinear_arith)
        requires
            0 <= s <= 0x10_0014,
            0 <= t <= 0x10_0014,
            n == 0x20_0000_0000_0000,
    ;
    assert((s * t) * c <= n * c) by (nonlinear_arith)
        requires
            s * t <= n,
            0 <= c,
    ;
    assert(y <= c) by (nonlinear_arith)
        requires
            n * y <= n * c,
            n > 0,
    ;
}

/// Numbers far from both ends of the format.
spec fn medium(x: Double) -> bool {
    x.finite() && !x.negative() && pow2(1000) <= x.size() <= pow2(1150)
}

proof fn lemma_not_infinite(num: nat, den: nat)
    requires
        den > 0,
        num <= pow2(1300) * den,
    ensures
        nearest_double(num, den) < INFINITY_BITS,
{
    let unit = pow2(52);
    lemma2_to64_rest();
    lemma_pow2_unfold(53);
    let k = 1248 * unit + unit;
    lemma_grid_at(53, 1248, unit);
    lemma_pow2_adds(52, 1248);
    let c = signed(false, k);
    lemma_signed(false, k);
    assert(pow2(1300) * 1 == pow2(1300));
    lemma_nearest_of_double(c, pow2(1300), 1);
    assert(num * 1 == num);
    lemma_nearest_double_monotone(num, den, pow2(1300), 1);
}

proof fn lemma_medium_quotient(a: Double, b: Double)
    requires
        medium(a),
        medium(b),
    ensures
        a.over_spec(b).finite(),
        !a.over_spec(b).negative(),
        near((a.over_spec(b).size() * b.size()) as int, (a.size() * pow2(1074)) as int, 1),
{
    let x = a.size();
    let y = b.size();
    let u = pow2(1074);
    lemma_pow2_pos(1000);
    lemma_size_positive(a);
    lemma_size_positive(b);
    let num = x * u;
    lemma_pow2_adds(1150, 1074);
    lemma_pow2_adds(1300, 1000);
    lemma_pow2_adds(52, 1150);
    lemma_pow2_adds(1000, 1074);
    lemma_pow2_le(2224, 2300);
    lemma_pow2_le(1202, 2074);
    assert(num <= pow2(2224)) by (nonlinear_arith)
        requires
            num == x * u,
            x <= pow2(1150),
            pow2(1150) * u == pow2(2224),
    ;
    assert(pow2(2300) <= pow2(1300) * y) by (nonlinear_arith)
        requires
            pow2(1000) <= y,
            pow2(1300) * pow2(1000) == pow2(2300),
    ;
    assert(pow2(52) * y <= pow2(1202)) by (nonlinear_arith)
        requires
            y <= pow2(1150),
            pow2(52) * pow2(1150) == pow2(1202),
    ;
    assert(pow2(2074) <= num) by (nonlinear_arith)
        requires
            num == x * u,
            pow2(1000) <= x,
            pow2(1000) * u == pow2(2074),
    ;
    lemma_not_infinite(num, y);
    assert(a.over_spec(b).finite()) by {
        reveal(Double::over_spec);
        lemma_signed(false, nearest_double(num, y));
    }
    law_quotient_is_near(a, b);
}

/// Where a quotient lies, given that it is near.
proof fn lemma_quotient_range(r: nat, b: nat, top: nat, low: nat, high: nat, low_b: nat, high_b: nat)
    requires
        r * b <= 2 * top,
        top <= 2 * (r * b),
        pow2(low) <= top <= pow2(high),
        pow2(low_b) <= b <= pow2(high_b),
        high >= low_b,
        low >= high_b + 1,
    ensures
        r <= pow2((high + 1 - low_b) as nat),
        pow2((low - high_b - 1) as nat) <= r,
{
    let p = pow2((high + 1 - low_b) as nat);
    lemma_pow2_adds((high + 1 - low_b) as nat, low_b);
    lemma_pow2_unfold(high + 1);
    lemma_pow2_pos(low_b);
    if r > p {
        assert(p * pow2(low_b) < r * b) by (nonlinear_arith)
            requires
                p < r,
                0 < pow2(low_b) <= b,
        ;
    }
    let q = pow2((low - high_b - 1) as nat);
    lemma_pow2_adds((low - high_b - 1) as nat, high_b);
    lemma_pow2_unfold(low);
    lemma_pow2_pos(high_b);
    if r < q {
        assert(r * b < q * pow2(high_b)) by (nonlinear_arith)
            requires
                r < q,
                b <= pow2(high_b),
                0 < pow2(high_b),
        ;
    }
}

/// A probability that is kept away from zero and one.
proof fn lemma_safe_probability(m: Double) -> (p: Double)
    requires
        !m.nan(),
    ensures
        p == safe_probability(m),
        p.finite(),
        !p.negative(),
        pow2(1050) <= p.size(),
        p.size() + pow2(1050) <= pow2(1074),
{
    let p = safe_probability(m);
    let unit = pow2(52);
    lemma2_to64();
    lemma2_to64_rest();
    lemma_pow2_unfold(53);
    assert(LOW_BITS <= p.bits <= HIGH_BITS);
    let low = 998 * unit + unit;
    lemma_grid_at(53, 998, unit);
    lemma_pow2_adds(52, 998);
    lemma_grid_monotone(53, low, p.magnitude());
    // The greatest probability is less than one by this many units of the last place.
    let gap: nat = 0x35AF_E535;
    let q = (2 * unit - gap) as nat;
    let high = 1021 * unit + q;
    lemma_grid_at(53, 1021, q);
    assert(high == HIGH_BITS);
    lemma_grid_monotone(53, p.magnitude(), high);
    lemma_pow2_adds(53, 1021);
    lemma_pow2_adds(29, 1021);
    let w = pow2(1021);
    assert(q * w + gap * w == pow2(53) * w) by (nonlinear_arith)
        requires
            q + gap == pow2(53),
    ;
    assert(pow2(29) * w <= gap * w) by (nonlinear_arith)
        requires
            pow2(29) <= gap,
    ;
    p
}

/// The odds of a safe probability.
proof fn lemma_odds(m: Double) -> (r: (Double, Double, Double))
    requires
        !m.nan(),
    ensures
        r.0 == safe_probability(m),
        r.1 == Double::one_spec().minus_spec(r.0),
        r.2 == Logistic::odds_spec(r.0),
        r.0.finite() && !r.0.negative() && pow2(1050) <= r.0.size() < pow2(1074),
        r.1.finite() && !r.1.negative() && pow2(1049) <= r.1.size() <= pow2(1074),
        r.2.finite() && !r.2.negative() && pow2(1049) <= r.2.size() <= pow2(1100),
        near(r.1.size() as int, pow2(1074) - r.0.size(), 1),
        near((r.2.size() * r.1.size()) as int, (r.0.size() * pow2(1074)) as int, 1),
{
    let p = lemma_safe_probability(m);
    let one = Double::one_spec();
    let u = pow2(1074);
    lemma_one();
    lemma_pow2_pos(1050);
    let n = p.neg_spec();
    let q = one.plus_spec(n);
    assert(n.value() == -(p.size() as int));
    lemma_plus_ordinal(one, n);
    lemma_nearest_double_monotone((u - p.size()) as nat, 1, u, 1);
    lemma_nearest_of_double(one, u, 1);
    assert(q.finite());
    law_sum_is_near(one, n);
    assert(!q.negative()) by {
        assert(q.value() > 0);
    }
    assert(q.magnitude() <= one.magnitude());
    lemma_pow2_pos(52);
    lemma_grid_monotone(53, q.magnitude(), one.magnitude());
    lemma_near_range(q.size() as int, u - p.size(), 1);
    lemma_pow2_unfold(1050);
    lemma_pow2_le(1000, 1049);
    lemma_pow2_le(1000, 1050);
    lemma_pow2_le(1074, 1150);
    lemma_medium_quotient(p, q);
    let o = p.over_spec(q);
    let top = p.size() * u;
    assert(top >= 0) by (nonlinear_arith)
        requires
            top == p.size() * u,
    ;
    lemma_near_range((o.size() * q.size()) as int, top as int, 1);
    lemma_pow2_adds(1050, 1074);
    lemma_pow2_adds(1074, 1074);
    assert(pow2(2124) <= top <= pow2(2148)) by (nonlinear_arith)
        requires
            top == p.size() * u,
            pow2(1050) <= p.size() <= u,
            pow2(1050) * u == pow2(2124),
            u * u == pow2(2148),
    ;
    lemma_quotient_range(o.size(), q.size(), top, 2124, 2148, 1049, 1074);
    (p, q, o)
}

/// The probability at the negative of the logarithm of odds is the probability that the odds are
/// of, kept away from zero and one: up to ten parts in `2^53`, and as many as the exponential that
/// is handed in is off from the reciprocal of the odds. The odds are finite and positive.
pub proof fn law_probability_undoes_odds(m: Double, exp_neg_score: Double, parts: int)
    requires
        !m.nan(),
        0 <= parts <= max_parts(),
        exp_neg_score.finite(),
        !exp_neg_score.negative(),
        near(
            (exp_neg_score.size() * Logistic::odds_spec(safe_probability(m)).size()) as int,
            (pow2(1074) * pow2(1074)) as int,
            parts,
        ),
    ensures
        Logistic::odds_spec(safe_probability(m)).finite(),
        Logistic::odds_spec(safe_probability(m)).value() > 0,
        Logistic::probability_spec(exp_neg_score).finite(),
        near(Logistic::probability_spec(exp_neg_score).value(), safe_probability(m).value(), parts + 10),
{
    let e = exp_neg_score;
    let (p, q, o) = lemma_odds(m);
    let one = Double::one_spec();
    let u = pow2(1074) as int;
    let uu = u * u;
    let pv = p.size() as int;
    let qv = q.size() as int;
    let ov = o.size() as int;
    let ev = e.size() as int;
    let rest = u - pv;
    lemma_one();
    lemma_pow2_pos(1049);
    lemma_pow2_pos(1050);
    lemma_pow2_pos(1074);
    // The exponential is near the exact reciprocal.
    assert(uu >= 0) by (nonlinear_arith)
        requires
            uu == u * u,
    ;
    lemma_near_range(ev * ov, uu, parts);
    lemma_pow2_adds(1074, 1074);
    lemma_quotient_range(e.size(), o.size(), uu as nat, 2148, 2148, 1049, 1100);
    lemma_near_scale(qv, ev * ov, uu, parts);
    lemma_near_scale(ev, ov * qv, pv * u, 1);
    assert(qv * (ev * ov) == ev * (ov * qv)) by (nonlinear_arith);
    let x = ev * (pv * u);
    assert(x >= 0) by (nonlinear_arith)
        requires
            x == ev * (pv * u),
            ev >= 0,
            pv >= 0,
            u >= 0,
    ;
    lemma_near_back(ev * (ov * qv), x, 1);
    let y = qv * uu;
    assert(y >= 0) by (nonlinear_arith)
        requires
            y == qv * uu,
            qv >= 0,
            uu >= 0,
    ;
    let w = ev * (ov * qv);
    assert(w >= 0) by (nonlinear_arith)
        requires
            w == ev * (ov * qv),
            ev >= 0,
            ov >= 0,
            qv >= 0,
    ;
    lemma_near_chain(x, w, y, 2, parts);
    lemma_near_scale(uu, qv, rest, 1);
    assert(uu * qv == y) by (nonlinear_arith)
        requires
            y == qv * uu,
    ;
    let z = uu * rest;
    assert(z >= 0) by (nonlinear_arith)
        requires
            z == uu * rest,
            uu >= 0,
            rest >= 0,
    ;
    lemma_near_chain(x, y, z, parts + 3, 1);
    assert(x == u * (ev * pv) && z == u * (u * rest)) by (nonlinear_arith)
        requires
            x == ev * (pv * u),
            z == uu * rest,
            uu == u * u,
    ;
    lemma_near_unscale(u, ev * pv, u * rest, parts + 5);
    // So is one more.
    let up = u * pv;
    assert(up >= 0) by (nonlinear_arith)
        requires
            up == u * pv,
            u >= 0,
            pv >= 0,
    ;
    lemma_near_shift(up, ev * pv, u * rest, parts + 5);
    assert(u * rest + up == uu) by (nonlinear_arith)
        requires
            rest == u - pv,
            up == u * pv,
            uu == u * u,
    ;
    let sum = u + ev;
    assert(ev * pv + up == pv * sum) by (nonlinear_arith)
        requires
            up == u * pv,
            sum == u + ev,
    ;
    lemma_pow2_le(1074, 1100);
    lemma_pow2_unfold(1101);
    lemma_pow2_le(1101, 1300);
    assert(pow2(1300) * 1 == pow2(1300));
    lemma_not_infinite(sum as nat, 1);
    lemma_plus_ordinal(one, e);
    let f = one.plus_spec(e);
    assert(f.finite());
    law_sum_is_near(one, e);
    assert(!f.negative()) by {
        assert(f.value() > 0);
    }
    let fv = f.size() as int;
    lemma_near_range(fv, sum, 1);
    lemma_near_scale(pv, fv, sum, 1);
    let ps = pv * sum;
    assert(ps >= 0) by (nonlinear_arith)
        requires
            ps == pv * sum,
            pv >= 0,
            sum >= 0,
    ;
    lemma_near_chain(pv * fv, ps, uu, 1, parts + 5);
    // And the reciprocal of that is near the probability.
    lemma_pow2_unfold(1102);
    lemma_pow2_unfold(1074);
    lemma_pow2_le(1000, 1073);
    lemma_pow2_le(1102, 1150);
    lemma_pow2_le(1000, 1074);
    lemma_pow2_le(1074, 1150);
    lemma_medium_quotient(one, f);
    let r = one.over_spec(f);
    let rv = r.size() as int;
    lemma_near_back(pv * fv, uu, parts + 7);
    let pf = pv * fv;
    assert(pf >= 0) by (nonlinear_arith)
        requires
            pf == pv * fv,
            pv >= 0,
            fv >= 0,
    ;
    lemma_near_chain(rv * fv, uu, pf, 1, parts + 8);
    assert(rv * fv == fv * rv && pf == fv * pv) by (nonlinear_arith)
        requires
            pf == pv * fv,
    ;
    lemma_near_unscale(fv, rv, pv, parts + 10);
}

/// The probability at the reciprocal of the odds, rounded, is the probability that the odds are
/// of, kept away from zero and one, up to eleven parts in `2^53`.
pub proof fn law_probability_of_reciprocal_odds(m: Double)
    requires
        !m.nan(),
    ensures
        ({
            let p = safe_probability(m);
            let odds = Logistic::odds_spec(p);
            let probability = Logistic::probability_spec(Double::one_spec().over_spec(odds));
            &&& odds.finite()
            &&& odds.value() > 0
            &&& probability.finite()
            &&& near(probability.value(), p.value(), 11)
        }),
{
    let (p, q, o) = lemma_odds(m);
    let one = Double::one_spec();
    lemma_one();
    lemma_pow2_le(1000, 1049);
    lemma_pow2_le(1100, 1150);
    lemma_pow2_le(1000, 1074);
    lemma_pow2_le(1074, 1150);
    lemma_medium_quotient(one, o);
    law_probability_undoes_odds(m, one.over_spec(o), 1);
}

/// Adding to a number that is not negative another such number gives a third.
proof fn lemma_plus_not_negative(a: Double, b: Double)
    requires
        !a.nan() && !a.negative(),
        !b.nan() && !b.negative(),
    ensures
        !a.plus_spec(b).nan() && !a.plus_spec(b).negative(),
{
    reveal(Double::plus_spec);
    if a.finite() && b.finite() {
        let sum = a.value() + b.value();
        let m = sum as nat;
        lemma_nearest_double_monotone(m, 1, m, 1);
        lemma_signed(false, nearest_double(m, 1));
    }
}

proof fn lemma_times_not_negative(a: Double, b: Double)
    requires
        a.finite() && !a.negative(),
        b.finite() && !b.negative(),
    ensures
        !a.times_spec(b).nan() && !a.times_spec(b).negative(),
{
    reveal(Double::times_spec);
    lemma_pow2_pos(1074);
    let num = a.size() * b.size();
    lemma_nearest_double_monotone(num, pow2(1074), num, pow2(1074));
    lemma_signed(false, nearest_double(num, pow2(1074)));
}

proof fn lemma_over_number(a: Double, b: Double)
    requires
        !a.nan(),
        b.finite(),
        !b.is_zero(),
    ensures
        !a.over_spec(b).nan(),
{
    reveal(Double::over_spec);
    lemma_size_positive(b);
    let num = a.size() * pow2(1074);
    lemma_nearest_double_monotone(num, b.size(), num, b.size());
    lemma_signed(a.negative() != b.negative(), nearest_double(num, b.size()));
}

/// Finite numbers that are not negative.
pub open spec fn not_negative(x: Seq<Double>) -> bool {
    forall|i: int| 0 <= i < x.len() ==> (#[trigger] x[i]).finite() && !x[i].negative()
}

proof fn lemma_label_sum(labels: Seq<Double>, n: nat)
    requires
        not_negative(labels),
        0 < n <= labels.len(),
    ensures
        !label_sum(labels, n).nan() && !label_sum(labels, n).negative(),
    decreases n,
{
    if n > 1 {
        lemma_label_sum(labels, (n - 1) as nat);
        lemma_plus_not_negative(label_sum(labels, (n - 1) as nat), labels[n - 1]);
    }
}

proof fn lemma_weighted_sums(labels: Seq<Double>, weights: Seq<Double>, n: nat)
    requires
        not_negative(labels),
        not_negative(weights),
        n <= labels.len(),
        n <= weights.len(),
    ensures
        !weighted_sums(labels, weights, n).0.nan() && !weighted_sums(labels, weights, n).0.negative(),
        !weighted_sums(labels, weights, n).1.nan() && !weighted_sums(labels, weights, n).1.negative(),
    decreases n,
{
    if n > 0 {
        lemma_weighted_sums(labels, weights, (n - 1) as nat);
        let (labelled, weight) = weighted_sums(labels, weights, (n - 1) as nat);
        lemma_times_not_negative(weights[n - 1], labels[n - 1]);
        lemma_plus_not_negative(labelled, weights[n - 1].times_spec(labels[n - 1]));
        lemma_plus_not_negative(weight, weights[n - 1]);
    }
}

/// The weights sum up to a finite number.
pub open spec fn weights_sum_up(labels: Seq<Double>, weights: Option<Seq<Double>>) -> bool {
    weights matches Some(w) ==> {
        &&& not_negative(w)
        &&& weighted_sums(labels, w, if labels.len() <= w.len() { labels.len() } else { w.len() }).1.finite()
    }
}

/// The mean of labels that are not negative is a number.
proof fn lemma_mean_number(labels: Seq<Double>, weights: Option<Seq<Double>>, fallback: Double)
    requires
        0 < labels.len() <= pow2(53),
        not_negative(labels),
        weights_sum_up(labels, weights),
        !fallback.nan(),
    ensures
        !mean_label(labels, weights, fallback).nan(),
{
    match weights {
        Some(w) => {
            let n = if labels.len() <= w.len() { labels.len() } else { w.len() };
            lemma_weighted_sums(labels, w, n);
            let (labelled, weight) = weighted_sums(labels, w, n);
            if Double::zero_spec().lt_spec(weight) {
                lemma_over_number(labelled, weight);
            }
        },
        None => {
            let n = labels.len();
            let count = Double::from_count_spec(n);
            lemma_label_sum(labels, n);
            lemma_from_count_exact(n);
            lemma_pow2_pos(1074);
            assert(n * pow2(1074) > 0) by (nonlinear_arith)
                requires
                    n > 0,
                    pow2(1074) > 0,
            ;
            lemma_size_positive(count);
            lemma_over_number(label_sum(labels, n), count);
        },
    }
}

/// The logistic prediction at the initial score is the mean label, kept away from zero and one:
/// up to ten parts in `2^53`, and as many as the exponential of the negative score that is handed
/// in is off from the reciprocal of the initial odds. The odds are finite and positive, also where
/// all labels are the same.
pub proof fn law_initial_prediction_is_the_mean(
    labels: Seq<Double>,
    weights: Option<Seq<Double>>,
    exp_neg_score: Double,
    parts: int,
)
    requires
        0 < labels.len() <= pow2(53),
        not_negative(labels),
        weights_sum_up(labels, weights),
        0 <= parts <= max_parts(),
        exp_neg_score.finite(),
        !exp_neg_score.negative(),
        ({
            let mean = safe_probability(mean_label(labels, weights, Double { bits: HALF_BITS }));
            near(
                (exp_neg_score.size() * Logistic::odds_spec(mean).size()) as int,
                (pow2(1074) * pow2(1074)) as int,
                parts,
            )
        }),
    ensures
        ({
            let mean = safe_probability(mean_label(labels, weights, Double { bits: HALF_BITS }));
            let odds = Logistic::odds_spec(mean);
            let prediction = Logistic::probability_spec(exp_neg_score);
            &&& odds.finite()
            &&& odds.value() > 0
            &&& prediction.finite()
            &&& near(prediction.value(), mean.value(), parts + 10)
        }),
{
    let half = Double { bits: HALF_BITS };
    lemma_mean_number(labels, weights, half);
    law_probability_undoes_odds(mean_label(labels, weights, half), exp_neg_score, parts);
}

/// A probability that is kept safe is the same between the bounds, and the nearer bound outside
/// them: one part in ten million from zero and from one.
pub proof fn law_safe_probabilities_are_between(p: Double)
    requires
        !p.nan(),
    ensures
        ({
            let low = Double { bits: 0x3E7A_D7F2_9ABC_AF48 };
            let high = Double { bits: 0x3FEF_FFFF_CA50_1ACB };
            &&& low.le_spec(safe_probability(p)) && safe_probability(p).le_spec(high)
            &&& low.le_spec(p) && p.le_spec(high) ==> safe_probability(p) == p
            &&& p.lt_spec(low) ==> safe_probability(p) == low
            &&& high.lt_spec(p) ==> safe_probability(p) == high
        }),
{
}

/// Whatever is handed in, a probability is one over one more, and odds are a probability over what
/// it lacks of one. No probability of a number that is not negative is above one.
pub proof fn law_probabilities_and_odds_follow_their_formulas(x: Double)
    ensures
        Logistic::probability_spec(x) == Double::one_spec().over_spec(Double::one_spec().plus_spec(x)),
        Logistic::odds_spec(x) == x.over_spec(Double::one_spec().plus_spec(x.neg_spec())),
        x.nan() ==> safe_probability(x) == x,
        !x.nan() && !x.negative() ==> {
            &&& Double::zero_spec().le_spec(Logistic::probability_spec(x))
            &&& Logistic::probability_spec(x).le_spec(Double::one_spec())
        },
{
    let one = Double::one_spec();
    if !x.nan() && !x.negative() {
        let sum = one.plus_spec(x);
        lemma_one();
        if x.infinite() {
            reveal(Double::plus_spec);
            reveal(Double::over_spec);
        } else {
            lemma_plus_ordinal(one, x);
            let m = (one.size() + x.size()) as nat;
            lemma_pow2_pos(1074);
            lemma_nearest_double_monotone(one.size(), 1, m, 1);
            lemma_nearest_of_double(one, one.size(), 1);
            assert(one.ordinal() <= sum.ordinal());
            if sum.finite() {
                lemma_size_positive(sum);
                lemma_value_order(one, sum);
                let num = one.size() * pow2(1074);
                let den = sum.size();
                assert(num * 1 <= one.size() * den) by (nonlinear_arith)
                    requires
                        num == one.size() * pow2(1074),
                        pow2(1074) <= den,
                ;
                lemma_nearest_double_monotone(num, den, one.size(), 1);
                reveal(Double::over_spec);
                lemma_signed(false, nearest_double(num, den));
            } else {
                reveal(Double::over_spec);
            }
        }
    }
}

} // verus!
