//! Round-to-nearest on the grid of a binary floating-point format.
//!
//! The non-negative numbers of a format with `p`-bit significands are numbered from zero
//! upwards; `grid` gives the value of each in units of the least positive one. The number
//! of a value is also its bit pattern without the sign, which is what makes the
//! numbering useful.

use vstd::arithmetic::div_mod::{lemma_fundamental_div_mod, lemma_fundamental_div_mod_converse};
use vstd::arithmetic::power2::{lemma2_to64, lemma2_to64_rest, lemma_pow2_adds, lemma_pow2_pos, lemma_pow2_unfold, pow2};
use vstd::prelude::*;

verus! {

/// The value of the `k`-th non-negative number of a format with `p`-bit significands, in
/// units of the least positive one.
pub open spec fn grid(p: nat, k: nat) -> nat {
    let unit = pow2((p - 1) as nat);
    if k < unit {
        k
    } else {
        (unit + k % unit) * pow2((k / unit - 1) as nat)
    }
}

/// `k` is the number of the grid point, among those numbered up to `top`, that is nearest
/// to `num / den`; of two equally near points, the one with the even number.
pub open spec fn is_nearest(p: nat, top: nat, k: nat, num: nat, den: nat) -> bool {
    &&& k <= top
    &&& k > 0 ==> {
        let mid = (grid(p, (k - 1) as nat) + grid(p, k)) * den;
        2 * num > mid || (2 * num == mid && k % 2 == 0)
    }
    &&& k < top ==> {
        let mid = (grid(p, k) + grid(p, k + 1)) * den;
        2 * num < mid || (2 * num == mid && k % 2 == 0)
    }
}

/// The nearest grid point to `num / den`.
pub open spec fn nearest(p: nat, top: nat, num: nat, den: nat) -> nat {
    choose|k: nat| is_nearest(p, top, k, num, den)
}

pub(crate) proof fn lemma_grid_at(p: nat, e: nat, q: nat)
    requires
        p >= 1,
        q < pow2(p),
        e == 0 || pow2((p - 1) as nat) <= q,
    ensures
        grid(p, e * pow2((p - 1) as nat) + q) == q * pow2(e),
        grid(p, e * pow2((p - 1) as nat) + q + 1) == (q + 1) * pow2(e),
{
    let unit = pow2((p - 1) as nat);
    lemma_pow2_unfold(p);
    lemma_pow2_pos((p - 1) as nat);
    lemma_pow2_unfold(e + 1);
    lemma2_to64();
    if q < unit {
        assert(e * unit == 0) by (nonlinear_arith) requires e == 0;
        if q + 1 == unit {
            assert(unit == 1 * unit + 0);
            lemma_fundamental_div_mod_converse(unit as int, unit as int, 1, 0);
        }
        assert(q * 1 == q && (q + 1) * 1 == q + 1);
    } else {
        let f = (q - unit) as nat;
        let k = e * unit + q;
        assert(k == (e + 1) * unit + f) by (nonlinear_arith)
            requires k == e * unit + q, q == unit + f;
        assert(k >= unit) by (nonlinear_arith) requires k == e * unit + q, q >= unit;
        lemma_fundamental_div_mod_converse(k as int, unit as int, (e + 1) as int, f as int);
        if f + 1 < unit {
            lemma_fundamental_div_mod_converse((k + 1) as int, unit as int, (e + 1) as int, (f + 1) as int);
        } else {
            assert(k + 1 == (e + 2) * unit) by (nonlinear_arith)
                requires k == (e + 1) * unit + f, f + 1 == unit;
            lemma_fundamental_div_mod_converse((k + 1) as int, unit as int, (e + 2) as int, 0);
            assert(unit * pow2(e + 1) == (q + 1) * pow2(e)) by (nonlinear_arith)
                requires pow2(e + 1) == 2 * pow2(e), q + 1 == 2 * unit;
        }
    }
}

/// Every number is an exponent times the unit plus a significand.
pub(crate) proof fn lemma_grid_split(p: nat, k: nat) -> (r: (nat, nat))
    requires
        p >= 1,
    ensures
        k == r.0 * pow2((p - 1) as nat) + r.1,
        r.1 < pow2(p),
        r.0 == 0 || pow2((p - 1) as nat) <= r.1,
{
    let unit = pow2((p - 1) as nat);
    lemma_pow2_unfold(p);
    lemma_pow2_pos((p - 1) as nat);
    if k < unit {
        assert(0 * unit == 0);
        (0, k)
    } else {
        lemma_fundamental_div_mod(k as int, unit as int);
        let d = k / unit;
        let f = k % unit;
        assert(d >= 1) by (nonlinear_arith) requires k == unit * d + f, f < unit, k >= unit;
        assert(k == (d - 1) * unit + (unit + f)) by (nonlinear_arith)
            requires k == unit * d + f;
        ((d - 1) as nat, unit + f)
    }
}

pub(crate) proof fn lemma_grid_step(p: nat, k: nat)
    requires
        p >= 1,
    ensures
        grid(p, k) < grid(p, k + 1),
{
    let (e, q) = lemma_grid_split(p, k);
    lemma_grid_at(p, e, q);
    lemma_pow2_pos(e);
    assert(q * pow2(e) < (q + 1) * pow2(e)) by (nonlinear_arith) requires pow2(e) > 0;
}

pub(crate) proof fn lemma_grid_monotone(p: nat, a: nat, b: nat)
    requires
        p >= 1,
        a <= b,
    ensures
        grid(p, a) <= grid(p, b),
        a < b ==> grid(p, a) < grid(p, b),
    decreases b,
{
    if a < b {
        lemma_grid_monotone(p, a, (b - 1) as nat);
        lemma_grid_step(p, (b - 1) as nat);
    }
}

/// Rounding is monotone.
pub(crate) proof fn lemma_nearest_monotone(
    p: nat, top: nat, k: nat, num: nat, den: nat, k2: nat, num2: nat, den2: nat)
    requires
        p >= 1,
        is_nearest(p, top, k, num, den),
        is_nearest(p, top, k2, num2, den2),
        den > 0,
        den2 > 0,
        num * den2 <= num2 * den,
    ensures
        k <= k2,
{
    if k > k2 {
        let hi = grid(p, (k - 1) as nat) + grid(p, k);
        let lo = grid(p, k2) + grid(p, k2 + 1);
        lemma_grid_monotone(p, k2, (k - 1) as nat);
        lemma_grid_monotone(p, k2 + 1, k);
        assert(2 * num >= hi * den);
        assert(2 * num2 <= lo * den2);
        assert(hi * den * den2 <= 2 * num * den2) by (nonlinear_arith)
            requires 2 * num >= hi * den;
        assert(2 * num2 * den <= lo * den2 * den) by (nonlinear_arith)
            requires 2 * num2 <= lo * den2;
        assert(2 * num * den2 <= 2 * num2 * den) by (nonlinear_arith)
            requires num * den2 <= num2 * den;
        assert(lo == hi && 2 * num == hi * den && 2 * num2 == lo * den2) by (nonlinear_arith)
            requires
                lo <= hi,
                den > 0,
                den2 > 0,
                hi * den * den2 <= 2 * num * den2,
                2 * num2 * den <= lo * den2 * den,
                2 * num * den2 <= 2 * num2 * den,
                2 * num >= hi * den,
                2 * num2 <= lo * den2,
        {
            let dd = den * den2;
            assert(dd > 0);
            assert(hi * dd <= lo * dd);
            assert(hi <= lo);
            assert(2 * num * den2 <= hi * den * den2);
            assert(2 * num2 * den >= lo * den2 * den);
        }
        if k2 < k - 1 {
            lemma_grid_monotone(p, k2, (k - 1) as nat);
        }
        assert(k2 == k - 1);
        assert(false);
    }
}

/// At most one grid point is the nearest one.
pub proof fn law_nearest_unique(p: nat, top: nat, k: nat, num: nat, den: nat)
    requires
        p >= 1,
        is_nearest(p, top, k, num, den),
        den > 0,
    ensures
        nearest(p, top, num, den) == k,
{
    let c = nearest(p, top, num, den);
    lemma_nearest_monotone(p, top, k, num, den, c, num, den);
    lemma_nearest_monotone(p, top, c, num, den, k, num, den);
}

proof fn lemma_nearest_search(p: nat, top: nat, k: nat, num: nat, den: nat)
    requires
        k <= top,
        k > 0 ==> {
            let mid = (grid(p, (k - 1) as nat) + grid(p, k)) * den;
            2 * num > mid || (2 * num == mid && k % 2 == 0)
        },
    ensures
        exists|c: nat| is_nearest(p, top, c, num, den),
    decreases top - k,
{
    let mid = (grid(p, k) + grid(p, k + 1)) * den;
    if k < top && !(2 * num < mid || (2 * num == mid && k % 2 == 0)) {
        lemma_nearest_search(p, top, k + 1, num, den);
    } else {
        assert(is_nearest(p, top, k, num, den));
    }
}

/// Some grid point is the nearest one.
pub proof fn law_nearest_exists(p: nat, top: nat, num: nat, den: nat)
    ensures
        is_nearest(p, top, nearest(p, top, num, den), num, den),
{
    lemma_nearest_search(p, top, 0, num, den);
}

/// A value that lies on the grid is its own nearest point, short of the top.
pub(crate) proof fn lemma_nearest_exact(p: nat, top: nat, k: nat, num: nat, den: nat)
    requires
        p >= 1,
        num == grid(p, k) * den,
        den > 0,
    ensures
        is_nearest(p, top, if k <= top { k } else { top }, num, den),
{
    let c = if k <= top { k } else { top };
    lemma_grid_monotone(p, c, k);
    if c > 0 {
        lemma_grid_step(p, (c - 1) as nat);
        let below = grid(p, (c - 1) as nat);
        let at = grid(p, c);
        assert(2 * num > (below + at) * den) by (nonlinear_arith)
            requires below < at, at <= grid(p, k), num == grid(p, k) * den, den > 0;
    }
    if c < top {
        lemma_grid_step(p, c);
        let at = grid(p, c);
        let above = grid(p, c + 1);
        assert(2 * num < (at + above) * den) by (nonlinear_arith)
            requires at < above, num == at * den, den > 0;
    }
}

/// Neighbours on the grid lie one unit apart, or no further than by a fraction of their size.
proof fn lemma_grid_gap(p: nat, k: nat)
    requires
        p >= 1,
    ensures
        grid(p, k) <= grid(p, k + 1),
        (grid(p, k + 1) - grid(p, k)) * pow2((p - 1) as nat) <= larger(grid(p, k), pow2((p - 1) as nat)),
{
    let unit = pow2((p - 1) as nat);
    let (e, q) = lemma_grid_split(p, k);
    lemma_grid_at(p, e, q);
    let g = pow2(e);
    assert((q + 1) * g == q * g + g) by (nonlinear_arith);
    if e == 0 {
        lemma2_to64();
        assert(1 * unit == unit);
    } else {
        assert(g * unit <= q * g) by (nonlinear_arith)
            requires
                unit <= q,
        ;
    }
}

/// The larger of two numbers.
pub open spec fn larger(a: nat, b: nat) -> nat {
    if a < b { b } else { a }
}

/// A rounded value is off by one part in `2^p` of the exact one at most, or by half a unit where
/// that is more, as long as it is below the top.
pub proof fn law_rounding_error(p: nat, top: nat, k: nat, num: nat, den: nat)
    requires
        p >= 1,
        den > 0,
        is_nearest(p, top, k, num, den),
        k < top,
    ensures
        pow2(p) * (grid(p, k) * den - num) <= larger(num, pow2((p - 1) as nat) * den),
        pow2(p) * (num - grid(p, k) * den) <= larger(num, pow2((p - 1) as nat) * den),
{
    let unit = pow2((p - 1) as nat);
    let r = grid(p, k);
    let most = larger(num, unit * den);
    lemma_pow2_unfold(p);
    lemma_pow2_pos((p - 1) as nat);
    assert(pow2(p) == 2 * unit);
    lemma_grid_gap(p, k);
    let above = grid(p, k + 1);
    let up = above - r;
    let rest = num - r * den;
    assert(2 * rest <= up * den) by (nonlinear_arith)
        requires
            2 * num <= (r + above) * den,
            up == above - r,
            rest == num - r * den,
    ;
    if rest > 0 {
        lemma_gap_error(unit, up, r, den, rest, most as int);
    } else {
        assert(2 * unit * rest <= 0) by (nonlinear_arith)
            requires
                rest <= 0,
        ;
    }
    let over = r * den - num;
    if k > 0 && over > 0 {
        let j = (k - 1) as nat;
        lemma_grid_gap(p, j);
        let below = grid(p, j);
        let down = r - below;
        assert(2 * over <= down * den && below * den <= num) by (nonlinear_arith)
            requires
                2 * num >= (below + r) * den,
                below <= r,
                down == r - below,
                over == r * den - num,
        ;
        lemma_gap_error(unit, down, below, den, over, most as int);
    } else {
        assert(over <= 0) by {
            if k == 0 {
                assert(0 * den == 0);
            }
        }
        assert(2 * unit * over <= 0) by (nonlinear_arith)
            requires
                over <= 0,
        ;
    }
}

proof fn lemma_gap_error(unit: nat, gap: int, at: nat, den: nat, rest: int, most: int)
    requires
        0 < unit,
        0 < den,
        0 <= gap,
        2 * rest <= gap * den,
        gap * unit <= larger(at, unit),
        at * den <= most,
        unit * den <= most,
    ensures
        2 * unit * rest <= most,
{
    let w = larger(at, unit);
    assert(2 * unit * rest <= (gap * unit) * den) by (nonlinear_arith)
        requires
            2 * rest <= gap * den,
            unit > 0,
    ;
    assert((gap * unit) * den <= w * den) by (nonlinear_arith)
        requires
            gap * unit <= w,
            den > 0,
    ;
}

/// Rounding a value known as `m` units and a fraction of one, of which `q` multiples of
/// `2 * half` units are kept.
proof fn lemma_round_step(
    p: nat, top: nat, e: nat, q: nat, r: nat, half: nat, m: nat, z: nat, s: nat,
    exact: bool, num: nat, den: nat)
    requires
        p >= 1,
        q < pow2(p),
        e == 0 || pow2((p - 1) as nat) <= q,
        m == q * (2 * half) + r,
        r < 2 * half,
        z > 0,
        s > 0,
        den > 0,
        m * z <= num * s < (m + 1) * z,
        exact <==> num * s == m * z,
        pow2(e) * s * den == 2 * half * z,
    ensures
        ({
            let k = e * pow2((p - 1) as nat) + q;
            let up = r > half || (r == half && (!exact || k % 2 == 1));
            let c = if up { k + 1 } else { k };
            is_nearest(p, top, if c <= top { c } else { top }, num, den)
        }),
{
    let k = e * pow2((p - 1) as nat) + q;
    let g = pow2(e);
    let up = r > half || (r == half && (!exact || k % 2 == 1));
    let c = if up { k + 1 } else { k };
    let t = if c <= top { c } else { top };
    lemma_grid_at(p, e, q);
    let lo = grid(p, k);
    let hi = grid(p, k + 1);
    lemma_grid_step(p, k);
    // Where the value stands among the two neighbours and their midpoint.
    let x = num * s;
    assert(lo * den * s == q * (2 * half) * z) by (nonlinear_arith)
        requires lo == q * g, g * s * den == 2 * half * z;
    assert(hi * den * s == (q + 1) * (2 * half) * z) by (nonlinear_arith)
        requires hi == (q + 1) * g, g * s * den == 2 * half * z;
    let base = q * (2 * half);
    assert(base * z <= m * z) by (nonlinear_arith) requires base <= m;
    assert(lo * den <= num) by (nonlinear_arith)
        requires lo * den * s <= num * s, s > 0;
    assert(m + 1 <= (q + 1) * (2 * half)) by (nonlinear_arith)
        requires m == q * (2 * half) + r, r < 2 * half;
    assert((m + 1) * z <= (q + 1) * (2 * half) * z) by (nonlinear_arith)
        requires m + 1 <= (q + 1) * (2 * half);
    assert(num < hi * den) by (nonlinear_arith)
        requires num * s < hi * den * s, s > 0;
    let mid = (lo + hi) * den;
    assert(mid * s == 2 * ((base + half) * z)) by (nonlinear_arith)
        requires
            mid == (lo + hi) * den,
            lo * den * s == base * z,
            hi * den * s == (q + 1) * (2 * half) * z,
            base == q * (2 * half);
    if r > half {
        assert((base + half) * z < m * z) by (nonlinear_arith)
            requires base + half < m, z > 0;
        assert(2 * num > mid) by (nonlinear_arith)
            requires mid * s == 2 * ((base + half) * z), (base + half) * z < num * s, s > 0;
    } else if r == half {
        assert(m == base + half);
        if exact {
            assert(2 * num == mid) by (nonlinear_arith)
                requires mid * s == 2 * (m * z), num * s == m * z, s > 0;
        } else {
            assert(2 * num > mid) by (nonlinear_arith)
                requires mid * s == 2 * (m * z), num * s > m * z, s > 0;
        }
    } else {
        assert((m + 1) * z <= (base + half) * z) by (nonlinear_arith)
            requires m + 1 <= base + half;
        assert(2 * num < mid) by (nonlinear_arith)
            requires mid * s == 2 * ((base + half) * z), num * s < (base + half) * z, s > 0;
    }
    // The three conditions on the point that was picked.
    if t > 0 {
        let below = grid(p, (t - 1) as nat);
        let at = grid(p, t);
        lemma_grid_step(p, (t - 1) as nat);
        if t == k + 1 {
        } else {
            lemma_grid_monotone(p, t, k);
            assert(2 * num > (below + at) * den) by (nonlinear_arith)
                requires below < at, at <= lo, lo * den <= num, den > 0;
        }
    }
    if t < top {
        if t == k + 1 {
            lemma_grid_step(p, k + 1);
            let above = grid(p, k + 2);
            assert(2 * num < (hi + above) * den) by (nonlinear_arith)
                requires hi < above, num < hi * den, den > 0;
        }
    }
}

/// The number of the top of the grid of a format: the number that stands for infinity.
pub open spec fn infinity_of(p: nat) -> nat {
    if p == 53 { 0x7FF0_0000_0000_0000 } else { 0x7F80_0000 }
}

/// The exponent by which values are scaled up so that no power of two below one occurs.
pub(crate) open spec fn scale() -> nat {
    1200
}

/// The number of binary digits of a positive number.
pub(crate) fn bit_length(m: u128) -> (l: u32)
    requires
        m > 0,
    ensures
        1 <= l <= 128,
        pow2((l - 1) as nat) <= m,
        m < pow2(l as nat),
{
    let mut l: u32 = 0;
    let mut rest: u128 = m;
    let mut step: u32 = 64;
    proof {
        lemma2_to64();
        lemma_pow2_adds(64, 64);
        assert(m < pow2(64) * pow2(64));
        assert(pow2(0) * m == m);
        assert(m + 1 == (rest + 1) * pow2(0));
    }
    while step > 0
        invariant
            step == 64 || step == 32 || step == 16 || step == 8 || step == 4 || step == 2
                || step == 1 || step == 0,
            rest > 0,
            step > 0 ==> rest < pow2(2 * step as nat),
            step == 0 ==> rest < 2,
            step > 0 ==> l + 2 * step <= 128,
            step == 0 ==> l <= 127,
            rest * pow2(l as nat) <= m,
            m < (rest + 1) * pow2(l as nat),
        decreases step,
    {
        let shifted = rest >> step;
        proof {
            vstd::bits::lemma_u128_shr_is_div(rest, step as u128);
            assert(rest >> step == rest >> (step as u128)) by (bit_vector)
                requires step < 128;
            lemma_pow2_pos(step as nat);
            lemma_fundamental_div_mod(rest as int, pow2(step as nat) as int);
            lemma_pow2_adds(step as nat, step as nat);
            lemma_pow2_adds(l as nat, step as nat);
            lemma2_to64();
            let d = pow2(step as nat);
            let f = (rest as nat) % d;
            let g = pow2(l as nat);
            assert(rest == d * shifted + f);
            assert(shifted < d) by (nonlinear_arith)
                requires rest == d * shifted + f, rest < d * d, f >= 0;
            assert(shifted * (g * d) <= rest * g) by (nonlinear_arith)
                requires rest == d * shifted + f, f >= 0, g >= 0;
            assert((rest + 1) * g <= (shifted + 1) * (g * d)) by (nonlinear_arith)
                requires rest == d * shifted + f, f < d, g >= 0;
            if shifted == 0 {
                assert(d * shifted == 0) by (nonlinear_arith) requires shifted == 0;
                assert(rest < d);
            }
        }
        if shifted > 0 {
            l = l + step;
            rest = shifted;
        }
        step = step / 2;
    }
    proof {
        lemma_pow2_unfold((l + 1) as nat);
        assert(rest == 1);
    }
    l + 1
}

pub(crate) proof fn lemma_pow2_le(a: nat, b: nat)
    requires
        a <= b,
    ensures
        pow2(a) <= pow2(b),
{
    if a < b {
        vstd::arithmetic::power2::lemma_pow2_strictly_increases(a, b);
    }
}

#[verifier::rlimit(40)]
proof fn lemma_shl_by_u128(x: u128, shift: u128)
    requires
        shift < 128,
        x * pow2(shift as nat) <= u128::MAX,
    ensures
        x << shift == x * pow2(shift as nat),
    decreases shift,
{
    lemma2_to64();
    if shift == 0 {
        assert(x << 0u128 == x) by (bit_vector);
        assert(x * 1 == x);
    } else {
        let t = (shift - 1) as u128;
        let g = pow2(t as nat);
        lemma_pow2_unfold(shift as nat);
        assert(x * (2 * g) == 2 * (x * g)) by (nonlinear_arith);
        lemma_shl_by_u128(x, t);
        let y = x << t;
        assert(x << shift == (x << t) << 1u128) by (bit_vector)
            requires
                shift < 128,
                t < 128,
                shift == t + 1,
        ;
        assert(y << 1u128 == 2 * y) by (bit_vector)
            requires
                y <= 0x7FFF_FFFF_FFFF_FFFF_FFFF_FFFF_FFFF_FFFFu128,
        ;
    }
}

/// Shifting left multiplies by a power of two.
pub(crate) proof fn lemma_shl_u128(x: u128, shift: u32)
    requires
        shift < 128,
        x * pow2(shift as nat) <= u128::MAX,
    ensures
        x << shift == x * pow2(shift as nat),
{
    lemma_shl_by_u128(x, shift as u128);
    assert(x << shift == x << (shift as u128)) by (bit_vector)
        requires
            shift < 128,
    ;
}

/// The digits that are left when the last `sh` are dropped.
proof fn lemma_kept_digits(p: u32, m: u128, l: u32, sh: u32)
    requires
        0 < sh < 128,
        1 <= p,
        0 < l < 128,
        pow2((l - 1) as nat) <= m < pow2(l as nat),
        l <= p + sh,
    ensures
        ({
            let q = m >> sh;
            let h = pow2(sh as nat);
            &&& 1u128 << ((sh - 1) as u32) == pow2((sh - 1) as nat)
            &&& h == 2 * pow2((sh - 1) as nat)
            &&& q << sh == q * h
            &&& q * h <= m < q * h + h
            &&& q < pow2(p as nat)
            &&& l == p + sh ==> pow2((p - 1) as nat) <= q
        }),
{
    let q = m >> sh;
    let h = pow2(sh as nat);
    lemma2_to64();
    lemma2_to64_rest();
    lemma_pow2_unfold(sh as nat);
    lemma_pow2_le(sh as nat, 127);
    lemma_pow2_le((sh - 1) as nat, 127);
    lemma_pow2_adds(64, 63);
    assert(1 * pow2((sh - 1) as nat) == pow2((sh - 1) as nat));
    lemma_shl_u128(1, (sh - 1) as u32);
    vstd::bits::lemma_u128_shr_is_div(m, sh as u128);
    assert(m >> sh == m >> (sh as u128)) by (bit_vector)
        requires
            sh < 128,
    ;
    lemma_pow2_pos(sh as nat);
    lemma_fundamental_div_mod(m as int, h as int);
    assert(q * h == h * q) by (nonlinear_arith);
    lemma_shl_u128(q, sh);
    lemma_pow2_le(l as nat, (p + sh) as nat);
    lemma_pow2_adds(p as nat, sh as nat);
    let f = (m as nat) % h;
    let pp = pow2(p as nat);
    assert(q < pp) by (nonlinear_arith)
        requires
            m == h * q + f,
            m < pp * h,
            h > 0,
    ;
    if l == p + sh {
        lemma_pow2_adds((p - 1) as nat, sh as nat);
        let ph = pow2((p - 1) as nat);
        assert(q >= ph) by (nonlinear_arith)
            requires
                m == h * q + f,
                m >= ph * h,
                h > 0,
                f < h,
        ;
    }
}

/// A value whose digits all fit is a grid point.
proof fn lemma_no_digit_dropped(p: nat, top: nat, e: nat, up: nat, m: nat, u: int, num: nat, den: nat)
    requires
        p >= 1,
        den > 0,
        u + scale() >= 0,
        e + up == u,
        m * pow2(up) < pow2(p),
        e == 0 || pow2((p - 1) as nat) <= m * pow2(up),
        num * pow2(scale()) == m * (pow2((u + scale()) as nat) * den),
    ensures
        ({
            let k = e * pow2((p - 1) as nat) + m * pow2(up);
            is_nearest(p, top, if k <= top { k } else { top }, num, den)
        }),
{
    let q = m * pow2(up);
    let s = pow2(scale());
    lemma_pow2_pos(scale());
    lemma_grid_at(p, e, q);
    lemma_pow2_adds(e, scale());
    lemma_pow2_adds(up, e + scale());
    let ge = pow2(e);
    let gu = pow2(up);
    let w = pow2((u + scale()) as nat);
    assert(e + scale() + up == u + scale());
    let x = ge * den;
    assert(m * ((gu * (ge * s)) * den) == ((m * gu) * x) * s) by (nonlinear_arith)
        requires
            x == ge * den,
    ;
    assert(num == q * x) by (nonlinear_arith)
        requires
            num * s == (q * x) * s,
            s > 0,
    ;
    assert(q * x == q * ge * den) by (nonlinear_arith)
        requires
            x == ge * den,
    ;
    lemma_nearest_exact(p, top, e * pow2((p - 1) as nat) + q, num, den);
}

/// The nearest grid point to a value known as `m` units of `2^u`, or as more than `m` and
/// less than `m + 1` of them where it is not exact.
pub(crate) fn round(
    p: u32, m: u128, exact: bool, u: i32, Ghost(num): Ghost<nat>, Ghost(den): Ghost<nat>,
) -> (k: u64)
    requires
        p == 53 || p == 24,
        m < pow2(127),
        -1200 <= u <= 3100,
        den > 0,
        m * (pow2((u + scale()) as nat) * den) <= num * pow2(scale()),
        num * pow2(scale()) < (m + 1) * (pow2((u + scale()) as nat) * den),
        exact <==> num * pow2(scale()) == m * (pow2((u + scale()) as nat) * den),
        exact || pow2((p + 1) as nat) <= m,
    ensures
        is_nearest(p as nat, infinity_of(p as nat), k as nat, num, den),
{
    let ghost pn = p as nat;
    let ghost top = infinity_of(p as nat);
    let ghost s = pow2(scale());
    let ghost z = pow2((u + scale()) as nat) * den;
    let inf: u64 = if p == 53 { 0x7FF0_0000_0000_0000 } else { 0x7F80_0000 };
    let unit: u64 = if p == 53 { 0x10_0000_0000_0000 } else { 0x80_0000 };
    proof {
        lemma2_to64();
        lemma2_to64_rest();
        lemma_pow2_pos(scale());
        lemma_pow2_pos((u + scale()) as nat);
        assert(z > 0) by (nonlinear_arith)
            requires z == pow2((u + scale()) as nat) * den, den > 0, pow2((u + scale()) as nat) > 0;
    }
    if m == 0 {
        proof {
            lemma_pow2_pos((p + 1) as nat);
            assert(num == 0) by (nonlinear_arith)
                requires num * s == 0 * z, s > 0;
            assert(0 * den == 0);
            lemma_nearest_exact(pn, top, 0, num, den);
        }
        return 0;
    }
    let l = bit_length(m);
    proof {
        if l == 128 {
            assert(false);
        }
    }
    let by_length: i32 = l as i32 - p as i32;
    let sh: i32 = if by_length >= -u { by_length } else { -u };
    let e: u64 = (u + sh) as u64;
    proof {
        if !exact {
            // Enough digits are known for at least one to be dropped.
            if l < p + 2 {
                lemma_pow2_le(l as nat, (p + 1) as nat);
                assert(false);
            }
        }
        assert(e * unit <= 3300 * 0x10_0000_0000_0000) by (nonlinear_arith)
            requires e <= 3300, unit <= 0x10_0000_0000_0000;
    }
    if sh <= 0 {
        let up: u32 = (-sh) as u32;
        proof {
            lemma_pow2_adds(l as nat, up as nat);
            lemma_pow2_adds((l - 1) as nat, up as nat);
            lemma_pow2_le((l + up) as nat, p as nat);
            lemma_pow2_pos(up as nat);
            let g = pow2(up as nat);
            assert(m * g < pow2(l as nat) * g) by (nonlinear_arith)
                requires m < pow2(l as nat), g > 0;
            assert(m * g >= pow2((l - 1) as nat) * g) by (nonlinear_arith)
                requires m >= pow2((l - 1) as nat);
            lemma_shl_u128(m, up);
        }
        let q: u128 = m << up;
        let k: u64 = e * unit + q as u64;
        proof {
            lemma_no_digit_dropped(pn, top, e as nat, up as nat, m as nat, u as int, num, den);
        }
        if k >= inf { inf } else { k }
    } else if sh >= 128 {
        proof {
            let half = pow2((sh - 1) as nat);
            lemma_pow2_unfold(sh as nat);
            lemma_pow2_le(127, (sh - 1) as nat);
            lemma_pow2_adds(sh as nat, (u + scale()) as nat);
            let w = pow2((u + scale()) as nat);
            assert(1 * s * den == 2 * half * (w * den)) by (nonlinear_arith)
                requires s == (2 * half) * w;
            assert(0 * (2 * half) == 0);
            assert(0 * unit == 0);
            lemma_round_step(pn, top, 0, 0, m as nat, half, m as nat, z, s, exact, num, den);
        }
        0
    } else {
        let q: u128 = m >> (sh as u32);
        let half: u128 = 1u128 << ((sh - 1) as u32);
        proof {
            lemma_kept_digits(p, m, l, sh as u32);
        }
        let r: u128 = m - (q << (sh as u32));
        let k: u64 = e * unit + q as u64;
        proof {
            lemma_pow2_adds(e as nat, scale());
            lemma_pow2_adds(sh as nat, (u + scale()) as nat);
            let ge = pow2(e as nat);
            let w = pow2((u + scale()) as nat);
            assert(ge * s == (2 * half) * w);
            assert(ge * s * den == 2 * half * (w * den)) by (nonlinear_arith)
                requires ge * s == (2 * half) * w;
            lemma_round_step(pn, top, e as nat, q as nat, r as nat, half as nat, m as nat, z, s,
                exact, num, den);
        }
        let up = r > half || (r == half && (!exact || k % 2 == 1));
        let c: u64 = if up { k + 1 } else { k };
        if c >= inf { inf } else { c }
    }
}

/// How far a grid point is from `num / den`, times `den`.
pub open spec fn distance(p: nat, k: nat, num: nat, den: nat) -> int {
    let d = grid(p, k) * den - num;
    if d < 0 { -d } else { d }
}

/// No grid point up to the top is nearer than the one that a value is rounded to, and of two that
/// are equally near it is the one with the even number.
pub proof fn law_no_point_is_nearer(p: nat, top: nat, num: nat, den: nat, j: nat)
    requires
        p >= 1,
        den > 0,
        j <= top,
    ensures
        ({
            let k = nearest(p, top, num, den);
            &&& k <= top
            &&& distance(p, k, num, den) <= distance(p, j, num, den)
            &&& j != k && distance(p, k, num, den) == distance(p, j, num, den) ==> k % 2 == 0
        }),
{
    let k = nearest(p, top, num, den);
    law_nearest_exists(p, top, num, den);
    let at = grid(p, k) as int;
    let x = grid(p, j) as int;
    let d = den as int;
    if j < k {
        let below = grid(p, (k - 1) as nat) as int;
        lemma_grid_monotone(p, j, (k - 1) as nat);
        lemma_grid_step(p, (k - 1) as nat);
        assert(x * d <= below * d && below * d < at * d) by (nonlinear_arith)
            requires
                x <= below,
                below < at,
                d > 0,
        ;
        assert((below + at) * d == below * d + at * d) by (nonlinear_arith);
        if j < k - 1 {
            lemma_grid_monotone(p, j, (k - 1) as nat);
            assert(x * d < below * d) by (nonlinear_arith)
                requires
                    x < below,
                    d > 0,
            ;
        }
    } else if j > k {
        let above = grid(p, k + 1) as int;
        lemma_grid_monotone(p, k + 1, j);
        lemma_grid_step(p, k);
        assert(above * d <= x * d && at * d < above * d) by (nonlinear_arith)
            requires
                above <= x,
                at < above,
                d > 0,
        ;
        assert((at + above) * d == at * d + above * d) by (nonlinear_arith);
        if j > k + 1 {
            assert(above * d < x * d) by (nonlinear_arith)
                requires
                    above < x,
                    d > 0,
            ;
        }
    }
}

} // verus!
