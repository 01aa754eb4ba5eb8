//! Binary floating-point numbers, computed exactly.
//!
//! `Double` and `Single` are the two IEEE 754 binary formats that the library works in.
//! Every operation returns the number of the format that is nearest to the exact result,
//! ties going to the even one, so sums, products and quotients are the same on every
//! machine, bit for bit.

use vstd::arithmetic::power2::{lemma2_to64, lemma2_to64_rest, lemma_pow2_adds, lemma_pow2_pos, pow2};
use vstd::prelude::*;

use crate::rounding::{
    grid, bit_length, is_nearest, law_nearest_unique, lemma_pow2_le, lemma_shl_u128, nearest, round, scale,
};

verus! {

/// The weight of the sign bit of a `Double`.
pub const SIGN: u64 = 0x8000_0000_0000_0000;

/// The bits of positive infinity.
pub const INFINITY_BITS: u64 = 0x7FF0_0000_0000_0000;

/// The bits of the quiet not-a-number that operations return.
pub const NAN_BITS: u64 = 0x7FF8_0000_0000_0000;

/// A 64-bit binary floating-point number, held as its bit pattern.
#[derive(Clone, Copy, Debug, PartialEq, Eq, Structural)]
pub struct Double {
    pub bits: u64,
}

/// A 32-bit binary floating-point number, held as its bit pattern.
#[derive(Clone, Copy, Debug, PartialEq, Eq, Structural)]
pub struct Single {
    pub bits: u32,
}

/// The number with the given sign whose bits without the sign are `magnitude`.
pub open spec fn signed(negative: bool, magnitude: nat) -> Double {
    Double { bits: (magnitude + if negative { SIGN as nat } else { 0 }) as u64 }
}

/// The double nearest to `num / den`, without its sign.
pub open spec fn nearest_double(num: nat, den: nat) -> nat {
    nearest(53, INFINITY_BITS as nat, num, den)
}

impl Double {
    pub open spec fn negative(self) -> bool {
        self.bits >= SIGN
    }

    /// The bits without the sign: the number of the value on the format's grid.
    pub open spec fn magnitude(self) -> nat {
        if self.bits >= SIGN { (self.bits - SIGN) as nat } else { self.bits as nat }
    }

    pub open spec fn nan(self) -> bool {
        self.magnitude() > INFINITY_BITS
    }

    pub open spec fn infinite(self) -> bool {
        self.magnitude() == INFINITY_BITS
    }

    pub open spec fn finite(self) -> bool {
        self.magnitude() < INFINITY_BITS
    }

    pub open spec fn is_zero(self) -> bool {
        self.magnitude() == 0
    }

    /// The position of a number in the order of all numbers; both zeros stand at 0.
    pub open spec fn ordinal(self) -> int {
        if self.negative() { -(self.magnitude() as int) } else { self.magnitude() as int }
    }

    /// The distance from zero of a finite number, in units of the least positive one.
    pub open spec fn size(self) -> nat {
        grid(53, self.magnitude())
    }

    /// The value of a finite number, in units of the least positive one.
    pub open spec fn value(self) -> int {
        if self.negative() { -(self.size() as int) } else { self.size() as int }
    }

    pub open spec fn zero_spec() -> Double {
        Double { bits: 0 }
    }

    pub open spec fn one_spec() -> Double {
        Double { bits: 0x3FF0_0000_0000_0000 }
    }

    pub open spec fn two_spec() -> Double {
        Double { bits: 0x4000_0000_0000_0000 }
    }

    pub open spec fn infinity_spec() -> Double {
        Double { bits: INFINITY_BITS }
    }

    pub open spec fn neg_infinity_spec() -> Double {
        Double { bits: 0xFFF0_0000_0000_0000 }
    }

    pub open spec fn nan_spec() -> Double {
        Double { bits: NAN_BITS }
    }

    #[verifier::when_used_as_spec(zero_spec)]
    pub fn zero() -> (r: Self)
        ensures
            r == Self::zero_spec(),
    {
        Double { bits: 0 }
    }

    #[verifier::when_used_as_spec(one_spec)]
    pub fn one() -> (r: Self)
        ensures
            r == Self::one_spec(),
    {
        Double { bits: 0x3FF0_0000_0000_0000 }
    }

    #[verifier::when_used_as_spec(two_spec)]
    pub fn two() -> (r: Self)
        ensures
            r == Self::two_spec(),
    {
        Double { bits: 0x4000_0000_0000_0000 }
    }

    #[verifier::when_used_as_spec(infinity_spec)]
    pub fn infinity() -> (r: Self)
        ensures
            r == Self::infinity_spec(),
    {
        Double { bits: INFINITY_BITS }
    }

    #[verifier::when_used_as_spec(neg_infinity_spec)]
    pub fn neg_infinity() -> (r: Self)
        ensures
            r == Self::neg_infinity_spec(),
    {
        Double { bits: 0xFFF0_0000_0000_0000 }
    }

    #[verifier::when_used_as_spec(nan_spec)]
    pub fn not_a_number() -> (r: Self)
        ensures
            r == Self::nan_spec(),
    {
        Double { bits: NAN_BITS }
    }

    fn is_negative(self) -> (r: bool)
        ensures
            r == self.negative(),
    {
        self.bits >= SIGN
    }

    fn unsigned_bits(self) -> (r: u64)
        ensures
            r == self.magnitude(),
            r < SIGN,
    {
        if self.bits >= SIGN { self.bits - SIGN } else { self.bits }
    }

    fn assemble(negative: bool, magnitude: u64) -> (r: Self)
        requires
            magnitude < SIGN,
        ensures
            r == signed(negative, magnitude as nat),
            r.negative() == negative,
            r.magnitude() == magnitude,
    {
        if negative { Double { bits: magnitude + SIGN } } else { Double { bits: magnitude } }
    }

    pub fn is_nan(self) -> (r: bool)
        ensures
            r == self.nan(),
    {
        self.unsigned_bits() > INFINITY_BITS
    }

    pub open spec fn neg_spec(self) -> Double {
        signed(!self.negative(), self.magnitude())
    }

    /// The number with its sign turned round.
    pub fn neg(self) -> (r: Self)
        ensures
            r == self.neg_spec(),
    {
        Self::assemble(!self.is_negative(), self.unsigned_bits())
    }

    pub open spec fn abs_spec(self) -> Double {
        signed(false, self.magnitude())
    }

    /// The number with a positive sign.
    pub fn abs(self) -> (r: Self)
        ensures
            r == self.abs_spec(),
    {
        Self::assemble(false, self.unsigned_bits())
    }

    pub open spec fn signum_spec(self) -> Double {
        if self.nan() {
            Self::nan_spec()
        } else if self.negative() {
            Self::one_spec().neg_spec()
        } else {
            Self::one_spec()
        }
    }

    /// One with the number's sign, zeros counted by their sign; not-a-number stays that.
    pub fn signum(self) -> (r: Self)
        ensures
            r == self.signum_spec(),
    {
        if self.is_nan() {
            Self::not_a_number()
        } else if self.is_negative() {
            Self::one().neg()
        } else {
            Self::one()
        }
    }

    pub open spec fn lt_spec(self, other: Double) -> bool {
        !self.nan() && !other.nan() && self.ordinal() < other.ordinal()
    }

    /// Less than; false where either side is not a number.
    pub fn lt(self, other: Self) -> (r: bool)
        ensures
            r == self.lt_spec(other),
    {
        !self.is_nan() && !other.is_nan() && self.order_key() < other.order_key()
    }

    pub open spec fn le_spec(self, other: Double) -> bool {
        !self.nan() && !other.nan() && self.ordinal() <= other.ordinal()
    }

    /// Less than or equal; false where either side is not a number.
    pub fn le(self, other: Self) -> (r: bool)
        ensures
            r == self.le_spec(other),
    {
        !self.is_nan() && !other.is_nan() && self.order_key() <= other.order_key()
    }

    pub open spec fn same_spec(self, other: Double) -> bool {
        !self.nan() && !other.nan() && self.ordinal() == other.ordinal()
    }

    /// Equality of numbers: the two zeros are equal and not-a-number equals nothing.
    pub fn same(self, other: Self) -> (r: bool)
        ensures
            r == self.same_spec(other),
    {
        !self.is_nan() && !other.is_nan() && self.order_key() == other.order_key()
    }

    /// The position of the number in the order of all numbers.
    pub fn order_key(self) -> (r: i64)
        ensures
            r == self.ordinal(),
    {
        let m = self.unsigned_bits() as i64;
        if self.is_negative() { -m } else { m }
    }

    pub open spec fn from_order_key_spec(key: int) -> Double {
        signed(key < 0, (if key < 0 { -key } else { key }) as nat)
    }

    /// The number that stands at a position in the order of all numbers.
    pub fn from_order_key(key: i64) -> (r: Self)
        requires
            key > i64::MIN,
        ensures
            r == Self::from_order_key_spec(key as int),
            r.ordinal() == key,
    {
        if key < 0 {
            Self::assemble(true, (-key) as u64)
        } else {
            Self::assemble(false, key as u64)
        }
    }

    pub open spec fn total_rank(self) -> int {
        if self.negative() { -1 - self.magnitude() } else { self.magnitude() as int }
    }

    /// The rank of a bit pattern in the total order in which every pattern, zeros and
    /// not-a-numbers included, has its own place.
    pub fn total_order_key(self) -> (r: i64)
        ensures
            r == self.total_rank(),
    {
        let m = self.unsigned_bits() as i64;
        if self.is_negative() { -1 - m } else { m }
    }

    pub open spec fn max_spec(self, other: Double) -> Double {
        if self.nan() {
            other
        } else if self.lt_spec(other) {
            other
        } else {
            self
        }
    }

    /// The larger of two numbers; a number wins over not-a-number.
    pub fn max(self, other: Self) -> (r: Self)
        ensures
            r == self.max_spec(other),
    {
        if self.is_nan() || self.lt(other) { other } else { self }
    }

    pub open spec fn min_spec(self, other: Double) -> Double {
        if self.nan() {
            other
        } else if other.lt_spec(self) {
            other
        } else {
            self
        }
    }

    /// The smaller of two numbers; a number wins over not-a-number.
    pub fn min(self, other: Self) -> (r: Self)
        ensures
            r == self.min_spec(other),
    {
        if self.is_nan() || other.lt(self) { other } else { self }
    }

    pub open spec fn clamp_spec(self, low: Double, high: Double) -> Double {
        if self.lt_spec(low) {
            low
        } else if high.lt_spec(self) {
            high
        } else {
            self
        }
    }

    /// The number, or the bound that it lies beyond; not-a-number stays as it is.
    pub fn clamp(self, low: Self, high: Self) -> (r: Self)
        requires
            low.le_spec(high),
        ensures
            r == self.clamp_spec(low, high),
    {
        if self.lt(low) {
            low
        } else if high.lt(self) {
            high
        } else {
            self
        }
    }

    pub open spec fn next_up_spec(self) -> Double {
        if self.nan() || self == Self::infinity_spec() {
            self
        } else if self.is_zero() {
            Double { bits: 1 }
        } else if self.negative() {
            Double { bits: (self.bits - 1) as u64 }
        } else {
            Double { bits: (self.bits + 1) as u64 }
        }
    }

    /// The least number above this one.
    pub fn next_up(self) -> (r: Self)
        ensures
            r == self.next_up_spec(),
    {
        if self.is_nan() || self.bits == INFINITY_BITS {
            self
        } else if self.unsigned_bits() == 0 {
            Double { bits: 1 }
        } else if self.is_negative() {
            Double { bits: self.bits - 1 }
        } else {
            Double { bits: self.bits + 1 }
        }
    }
}

/// The significand and exponent of a grid number: its value is `m * 2^e`.
fn parts(mag: u64) -> (r: (u64, u32))
    requires
        mag < INFINITY_BITS,
    ensures
        grid(53, mag as nat) == r.0 * pow2(r.1 as nat),
        r.0 < 0x20_0000_0000_0000,
        r.1 <= 2045,
        r.1 > 0 ==> r.0 >= 0x10_0000_0000_0000,
        mag > 0 ==> r.0 > 0,
        mag == 0 ==> r.0 == 0,
{
    proof {
        lemma2_to64();
        lemma2_to64_rest();
    }
    let field: u64 = mag / 0x10_0000_0000_0000;
    let frac: u64 = mag % 0x10_0000_0000_0000;
    if field == 0 {
        assert(mag * 1 == mag);
        (mag, 0)
    } else {
        (0x10_0000_0000_0000 + frac, (field - 1) as u32)
    }
}

/// A value of `m` units of `2^u` in the scale that `round` works in.
proof fn lemma_exact_units(m: nat, u: nat, num: nat)
    requires
        num == m * pow2(u),
    ensures
        num * pow2(scale()) == m * (pow2((u + scale()) as nat) * 1),
{
    lemma_pow2_adds(u, scale());
    assert(num * pow2(scale()) == m * (pow2(u) * pow2(scale()))) by (nonlinear_arith)
        requires num == m * pow2(u);
}

/// Adding or taking away less than one unit.
proof fn lemma_near_units(m: nat, u: nat, rest: nat, up: bool, num: nat)
    requires
        0 < rest < pow2(u),
        m > 0,
        num == if up { m * pow2(u) + rest } else { (m * pow2(u) - rest) as nat },
    ensures
        ({
            let lo = if up { m } else { (m - 1) as nat };
            let z = pow2((u + scale()) as nat) * 1;
            lo * z < num * pow2(scale()) < (lo + 1) * z
        }),
{
    let g = pow2(u);
    let s = pow2(scale());
    let z = pow2((u + scale()) as nat) * 1;
    let lo = if up { m } else { (m - 1) as nat };
    lemma_pow2_adds(u, scale());
    lemma_pow2_pos(scale());
    assert(m * g >= g) by (nonlinear_arith) requires m > 0, g > 0;
    assert(lo * g < num < (lo + 1) * g) by (nonlinear_arith)
        requires
            lo == if up { m } else { (m - 1) as nat },
            num == if up { m * g + rest } else { (m * g - rest) as nat },
            0 < rest < g,
            m > 0,
            m * g >= g;
    assert(lo * (g * s) < num * s < (lo + 1) * (g * s)) by (nonlinear_arith)
        requires lo * g < num < (lo + 1) * g, s > 0;
}

/// The nearest double to a sum of two signed values, given by sign, significand and
/// exponent, where the first exponent is not the smaller one.
fn add_parts(an: bool, ma: u64, ea: u32, bn: bool, mb: u64, eb: u32, Ghost(sum): Ghost<int>) -> (r: Double)
    requires
        ma < 0x20_0000_0000_0000,
        mb < 0x20_0000_0000_0000,
        eb <= ea <= 2045,
        ea > 0 ==> ma >= 0x10_0000_0000_0000,
        sum == (if an { -(ma * pow2(ea as nat)) } else { ma * pow2(ea as nat) })
            + (if bn { -(mb * pow2(eb as nat)) } else { mb * pow2(eb as nat) }),
    ensures
        r == if sum == 0 {
            signed(an && bn, 0)
        } else {
            signed(sum < 0, nearest_double((if sum < 0 { -sum } else { sum }) as nat, 1))
        },
{
    let d: u32 = ea - eb;
    let ghost ge = pow2(ea as nat);
    let ghost gb = pow2(eb as nat);
    let ghost num: nat = (if sum < 0 { -sum } else { sum }) as nat;
    proof {
        lemma2_to64();
        lemma2_to64_rest();
        lemma_pow2_adds(64, 63);
        lemma_pow2_adds(d as nat, eb as nat);
        lemma_pow2_pos(ea as nat);
        lemma_pow2_pos(eb as nat);
    }
    if d <= 64 {
        let ghost gd = pow2(d as nat);
        proof {
            lemma_pow2_le(d as nat, 64);
            assert(ma * gd <= 0x20_0000_0000_0000 * 0x1_0000_0000_0000_0000) by (nonlinear_arith)
                requires ma <= 0x20_0000_0000_0000, gd <= 0x1_0000_0000_0000_0000;
            lemma_shl_u128(ma as u128, d);
            assert(ma * ge == (ma * gd) * gb) by (nonlinear_arith) requires ge == gd * gb;
        }
        let x: u128 = (ma as u128) << d;
        let y: u128 = mb as u128;
        let m: u128 = if an == bn { x + y } else if x >= y { x - y } else { y - x };
        let neg: bool = if an == bn || x >= y { an } else { bn };
        proof {
            let xi = x as int;
            let yi = y as int;
            assert((xi + yi) * gb == xi * gb + yi * gb) by (nonlinear_arith);
            assert((xi - yi) * gb == xi * gb - yi * gb) by (nonlinear_arith);
            assert((yi - xi) * gb == yi * gb - xi * gb) by (nonlinear_arith);
            let mi = m as int;
            assert(mi > 0 ==> mi * gb > 0) by (nonlinear_arith) requires gb > 0;
            assert(mi == 0 ==> mi * gb == 0) by (nonlinear_arith);
            assert(sum == if neg { -(mi * gb) } else { mi * gb });
        }
        if m == 0 {
            return Double::assemble(an && bn, 0);
        }
        proof {
            assert(num == m * gb);
            lemma_exact_units(m as nat, eb as nat, num);
            assert((m + 1) * (pow2((eb + scale()) as nat) * 1) > m * (pow2((eb + scale()) as nat) * 1)) by {
                lemma_pow2_pos((eb + scale()) as nat);
                let t = pow2((eb + scale()) as nat) * 1;
                assert((m + 1) * t > m * t) by (nonlinear_arith) requires t > 0;
            }
        }
        let k = round(53, m, true, eb as i32, Ghost(num), Ghost(1));
        proof {
            law_nearest_unique(53, INFINITY_BITS as nat, k as nat, num, 1);
        }
        Double::assemble(neg, k)
    } else {
        let u: u32 = ea - 3;
        let ghost gu = pow2(u as nat);
        let ghost rest: nat = mb as nat * gb;
        let wide: u128 = (ma as u128) * 8;
        proof {
            lemma_pow2_adds(u as nat, 3);
            assert(ma * ge == wide * gu) by (nonlinear_arith)
                requires ge == gu * 8, wide == ma * 8;
            // The smaller number is less than one unit of the larger one.
            lemma_pow2_adds(53, eb as nat);
            lemma_pow2_le((53 + eb) as nat, u as nat);
            assert(rest < gu) by (nonlinear_arith)
                requires rest == mb * gb, mb < 0x20_0000_0000_0000, gb > 0,
                    0x20_0000_0000_0000 * gb <= gu;
            assert(rest > 0 <==> mb > 0) by (nonlinear_arith)
                requires rest == mb * gb, gb > 0;
            assert(wide * gu >= gu) by (nonlinear_arith) requires wide >= 1, gu >= 0;
            assert((wide + 1) * (pow2((u + scale()) as nat) * 1) > wide * (pow2((u + scale()) as nat) * 1)) by {
                lemma_pow2_pos((u + scale()) as nat);
                let t = pow2((u + scale()) as nat) * 1;
                assert((wide + 1) * t > wide * t) by (nonlinear_arith) requires t > 0;
            }
        }
        let exact: bool = mb == 0;
        let m: u128 = if exact || an == bn { wide } else { wide - 1 };
        proof {
            assert(sum == if an { -(num as int) } else { num as int });
            assert(num > 0);
            if exact {
                lemma_exact_units(wide as nat, u as nat, num);
            } else {
                lemma_near_units(wide as nat, u as nat, rest, an == bn, num);
            }
        }
        let k = round(53, m, exact, u as i32, Ghost(num), Ghost(1));
        proof {
            law_nearest_unique(53, INFINITY_BITS as nat, k as nat, num, 1);
        }
        Double::assemble(an, k)
    }
}

impl Double {
    /// The sum: the double nearest to the exact one. A sum of exactly zero is positive
    /// unless both addends are negative zeros; opposite infinities have no sum.
    #[verifier::opaque]
    pub open spec fn plus_spec(self, other: Double) -> Double {
        if self.nan() || other.nan() {
            Self::nan_spec()
        } else if self.infinite() {
            if other.infinite() && self.negative() != other.negative() {
                Self::nan_spec()
            } else {
                self
            }
        } else if other.infinite() {
            other
        } else {
            let sum = self.value() + other.value();
            if sum == 0 {
                signed(self.negative() && other.negative(), 0)
            } else {
                signed(sum < 0, nearest_double((if sum < 0 { -sum } else { sum }) as nat, 1))
            }
        }
    }

    pub fn plus(self, other: Self) -> (r: Self)
        ensures
            r == self.plus_spec(other),
    {
        reveal(Double::plus_spec);
        let a = self.unsigned_bits();
        let b = other.unsigned_bits();
        let an = self.is_negative();
        let bn = other.is_negative();
        if a > INFINITY_BITS || b > INFINITY_BITS {
            Self::not_a_number()
        } else if a == INFINITY_BITS {
            if b == INFINITY_BITS && an != bn { Self::not_a_number() } else { self }
        } else if b == INFINITY_BITS {
            other
        } else {
            let (ma, ea) = parts(a);
            let (mb, eb) = parts(b);
            if ea >= eb {
                add_parts(an, ma, ea, bn, mb, eb, Ghost(self.value() + other.value()))
            } else {
                add_parts(bn, mb, eb, an, ma, ea, Ghost(self.value() + other.value()))
            }
        }
    }

    pub open spec fn minus_spec(self, other: Double) -> Double {
        self.plus_spec(other.neg_spec())
    }

    /// The difference: the double nearest to the exact one.
    pub fn minus(self, other: Self) -> (r: Self)
        ensures
            r == self.minus_spec(other),
    {
        self.plus(other.neg())
    }
}

/// What `round` asks of a value of exactly `m` units of `2^u` over a denominator.
proof fn lemma_exact_rational(m: nat, u: int, num: nat, den: nat)
    requires
        -1200 <= u,
        den > 0,
        num * pow2(scale()) == m * (pow2((u + scale()) as nat) * den),
    ensures
        num * pow2(scale()) < (m + 1) * (pow2((u + scale()) as nat) * den),
{
    let w = pow2((u + scale()) as nat);
    lemma_pow2_pos((u + scale()) as nat);
    assert((m + 1) * (w * den) > m * (w * den)) by (nonlinear_arith) requires w > 0, den > 0;
}

/// The quotient of two positive values given by significand and exponent.
fn divide_parts(ma: u64, ea: u32, mb: u64, eb: u32, Ghost(num): Ghost<nat>, Ghost(den): Ghost<nat>) -> (k: u64)
    requires
        0 < ma < 0x20_0000_0000_0000,
        0 < mb < 0x20_0000_0000_0000,
        ea <= 2045,
        eb <= 2045,
        num == ma * pow2(ea as nat) * pow2(1074),
        den == mb * pow2(eb as nat),
    ensures
        den > 0,
        is_nearest(53, INFINITY_BITS as nat, k as nat, num, den),
{
    let l = bit_length(ma as u128);
    proof {
        lemma2_to64();
        lemma2_to64_rest();
        if l > 53 {
            lemma_pow2_le(53, (l - 1) as nat);
        }
    }
    let t: u32 = 53 - l;
    let sh: u32 = t + 74;
    let ghost gs = pow2(sh as nat);
    proof {
        lemma_pow2_adds(l as nat, sh as nat);
        lemma_pow2_adds((l - 1) as nat, sh as nat);
        lemma_pow2_adds(64, 63);
        lemma_pow2_adds(64, 62);
        lemma_pow2_adds(53, 73);
        lemma_pow2_pos(sh as nat);
        assert(pow2((l - 1) as nat) * gs <= ma * gs < pow2(l as nat) * gs) by (nonlinear_arith)
            requires pow2((l - 1) as nat) <= ma < pow2(l as nat), gs > 0;
        lemma_shl_u128(ma as u128, sh);
    }
    let n: u128 = (ma as u128) << sh;
    let q: u128 = n / (mb as u128);
    let rem: u128 = n % (mb as u128);
    let u: i32 = ea as i32 - eb as i32 + 1000 - t as i32;
    proof {
        vstd::arithmetic::div_mod::lemma_fundamental_div_mod(n as int, mb as int);
        assert(n == mb * q + rem);
        assert(q < pow2(127)) by (nonlinear_arith)
            requires n == mb * q + rem, n < pow2(127), mb >= 1;
        assert(q >= pow2(73)) by (nonlinear_arith)
            requires n == mb * q + rem, n >= 0x20_0000_0000_0000 * pow2(73), rem < mb,
                mb < 0x20_0000_0000_0000;
        lemma_pow2_le(54, 73);
        // Both sides in one scale.
        let g = pow2((ea + 2200 - t) as nat);
        let w = pow2((u + scale()) as nat);
        let s = pow2(scale());
        lemma_pow2_adds((u + scale()) as nat, eb as nat);
        lemma_pow2_adds(ea as nat, 1074);
        lemma_pow2_adds((ea + 1074) as nat, scale());
        lemma_pow2_adds((ea + 2200 - t) as nat, sh as nat);
        lemma_pow2_pos((ea + 2200 - t) as nat);
        lemma_pow2_pos(eb as nat);
        let z = w * den;
        let gb = pow2(eb as nat);
        assert(den > 0) by (nonlinear_arith) requires den == mb * gb, mb > 0, gb > 0;
        assert(z == mb * g) by (nonlinear_arith)
            requires z == w * den, den == mb * gb, g == w * gb;
        let ge = pow2(ea as nat);
        let gf = pow2(1074);
        assert(num * s == n * g) by (nonlinear_arith)
            requires num == ma * ge * gf, n == ma * gs, ge * gf * s == g * gs;
        assert(q * z == (mb * q) * g) by (nonlinear_arith) requires z == mb * g;
        assert((q + 1) * z == (mb * q + mb) * g) by (nonlinear_arith) requires z == mb * g;
        let lo = (mb * q) as nat;
        assert(lo * g <= n * g) by (nonlinear_arith) requires lo <= n;
        assert(n * g < (lo + mb) * g) by (nonlinear_arith) requires n < lo + mb, g > 0;
        assert(rem == 0 <==> lo * g == n * g) by (nonlinear_arith)
            requires n == lo + rem, g > 0;
    }
    round(53, q, rem == 0, u, Ghost(num), Ghost(den))
}

impl Double {
    /// The product: the double nearest to the exact one. Zero and infinity have no product.
    #[verifier::opaque]
    pub open spec fn times_spec(self, other: Double) -> Double {
        let negative = self.negative() != other.negative();
        if self.nan() || other.nan() {
            Self::nan_spec()
        } else if self.infinite() || other.infinite() {
            if self.is_zero() || other.is_zero() {
                Self::nan_spec()
            } else {
                signed(negative, INFINITY_BITS as nat)
            }
        } else {
            signed(negative, nearest_double(self.size() * other.size(), pow2(1074)))
        }
    }

    pub fn times(self, other: Self) -> (r: Self)
        ensures
            r == self.times_spec(other),
    {
        reveal(Double::times_spec);
        let a = self.unsigned_bits();
        let b = other.unsigned_bits();
        let negative = self.is_negative() != other.is_negative();
        if a > INFINITY_BITS || b > INFINITY_BITS {
            Self::not_a_number()
        } else if a == INFINITY_BITS || b == INFINITY_BITS {
            if a == 0 || b == 0 {
                Self::not_a_number()
            } else {
                Self::assemble(negative, INFINITY_BITS)
            }
        } else {
            let (ma, ea) = parts(a);
            let (mb, eb) = parts(b);
            let ghost num: nat = self.size() * other.size();
            let ghost den: nat = pow2(1074);
            proof {
                lemma2_to64();
                lemma2_to64_rest();
                lemma_pow2_adds(64, 63);
                assert(ma * mb < 0x20_0000_0000_0000 * 0x20_0000_0000_0000) by (nonlinear_arith)
                    requires ma < 0x20_0000_0000_0000, mb < 0x20_0000_0000_0000;
            }
            let m: u128 = (ma as u128) * (mb as u128);
            let u: i32 = ea as i32 + eb as i32 - 1074;
            proof {
                let ga = pow2(ea as nat);
                let gb = pow2(eb as nat);
                let w = pow2((u + scale()) as nat);
                let s = pow2(scale());
                lemma_pow2_adds((u + scale()) as nat, 1074);
                lemma_pow2_adds(ea as nat, eb as nat);
                lemma_pow2_adds((ea + eb) as nat, scale());
                lemma_pow2_pos(1074);
                assert(num * s == m * (w * den)) by (nonlinear_arith)
                    requires num == (ma * ga) * (mb * gb), m == ma * mb, w * den == ga * gb * s;
                lemma_exact_rational(m as nat, u as int, num, den);
            }
            let k = round(53, m, true, u, Ghost(num), Ghost(den));
            proof {
                law_nearest_unique(53, INFINITY_BITS as nat, k as nat, num, den);
            }
            Self::assemble(negative, k)
        }
    }

    /// The quotient: the double nearest to the exact one. A number over zero is infinite;
    /// zero over zero and infinity over infinity are not numbers.
    #[verifier::opaque]
    pub open spec fn over_spec(self, other: Double) -> Double {
        let negative = self.negative() != other.negative();
        if self.nan() || other.nan() || (self.infinite() && other.infinite())
            || (self.is_zero() && other.is_zero()) {
            Self::nan_spec()
        } else if self.infinite() || other.is_zero() {
            signed(negative, INFINITY_BITS as nat)
        } else if other.infinite() || self.is_zero() {
            signed(negative, 0)
        } else {
            signed(negative, nearest_double(self.size() * pow2(1074), other.size()))
        }
    }

    pub fn over(self, other: Self) -> (r: Self)
        ensures
            r == self.over_spec(other),
    {
        reveal(Double::over_spec);
        let a = self.unsigned_bits();
        let b = other.unsigned_bits();
        let negative = self.is_negative() != other.is_negative();
        if a > INFINITY_BITS || b > INFINITY_BITS || (a == INFINITY_BITS && b == INFINITY_BITS)
            || (a == 0 && b == 0) {
            Self::not_a_number()
        } else if a == INFINITY_BITS || b == 0 {
            Self::assemble(negative, INFINITY_BITS)
        } else if b == INFINITY_BITS || a == 0 {
            Self::assemble(negative, 0)
        } else {
            let (ma, ea) = parts(a);
            let (mb, eb) = parts(b);
            let ghost num: nat = self.size() * pow2(1074);
            let ghost den: nat = other.size();
            let k = divide_parts(ma, ea, mb, eb, Ghost(num), Ghost(den));
            proof {
                law_nearest_unique(53, INFINITY_BITS as nat, k as nat, num, den);
            }
            Self::assemble(negative, k)
        }
    }

    /// The double nearest to a whole number.
    #[verifier::opaque]
    pub open spec fn from_count_spec(n: nat) -> Double {
        signed(false, nearest_double(n * pow2(1074), 1))
    }

    pub fn from_count(n: usize) -> (r: Self)
        ensures
            r == Self::from_count_spec(n as nat),
    {
        reveal(Double::from_count_spec);
        let ghost num: nat = n as nat * pow2(1074);
        proof {
            lemma2_to64();
            lemma2_to64_rest();
            lemma_pow2_adds(64, 63);
            lemma_exact_units(n as nat, 1074, num);
            lemma_exact_rational(n as nat, 1074, num, 1);
        }
        let k = round(53, n as u128, true, 1074, Ghost(num), Ghost(1));
        proof {
            law_nearest_unique(53, INFINITY_BITS as nat, k as nat, num, 1);
        }
        Self::assemble(false, k)
    }

    /// The single nearest to the number.
    #[verifier::opaque]
    pub open spec fn narrow_spec(self) -> Single {
        let sign: nat = if self.negative() { SINGLE_SIGN as nat } else { 0 };
        if self.nan() {
            Single { bits: SINGLE_NAN_BITS }
        } else if self.infinite() {
            Single { bits: (SINGLE_INFINITY_BITS + sign) as u32 }
        } else {
            Single {
                bits: (nearest(24, SINGLE_INFINITY_BITS as nat, self.size(), pow2(925)) + sign) as u32,
            }
        }
    }

    pub fn narrow(self) -> (r: Single)
        ensures
            r == self.narrow_spec(),
    {
        reveal(Double::narrow_spec);
        let a = self.unsigned_bits();
        let sign: u32 = if self.is_negative() { SINGLE_SIGN } else { 0 };
        if a > INFINITY_BITS {
            Single { bits: SINGLE_NAN_BITS }
        } else if a == INFINITY_BITS {
            Single { bits: SINGLE_INFINITY_BITS + sign }
        } else {
            let (m, e) = parts(a);
            let ghost num: nat = self.size();
            let ghost den: nat = pow2(925);
            let u: i32 = e as i32 - 925;
            proof {
                lemma2_to64();
                lemma2_to64_rest();
                lemma_pow2_adds(64, 63);
                let w = pow2((u + scale()) as nat);
                let s = pow2(scale());
                let g = pow2(e as nat);
                lemma_pow2_adds((u + scale()) as nat, 925);
                lemma_pow2_adds(e as nat, scale());
                lemma_pow2_pos(925);
                assert(num * s == m * (w * den)) by (nonlinear_arith)
                    requires num == m * g, w * den == g * s;
                lemma_exact_rational(m as nat, u as int, num, den);
            }
            let k = round(24, m as u128, true, u, Ghost(num), Ghost(den));
            proof {
                law_nearest_unique(24, SINGLE_INFINITY_BITS as nat, k as nat, num, den);
            }
            Single { bits: k as u32 + sign }
        }
    }
}

/// The weight of the sign bit of a `Single`.
pub const SINGLE_SIGN: u32 = 0x8000_0000;

/// The bits of positive infinity in a `Single`.
pub const SINGLE_INFINITY_BITS: u32 = 0x7F80_0000;

/// The bits of the quiet not-a-number of a `Single`.
pub const SINGLE_NAN_BITS: u32 = 0x7FC0_0000;

impl Single {
    pub open spec fn negative(self) -> bool {
        self.bits >= SINGLE_SIGN
    }

    pub open spec fn magnitude(self) -> nat {
        if self.bits >= SINGLE_SIGN { (self.bits - SINGLE_SIGN) as nat } else { self.bits as nat }
    }

    /// The double with the same value.
    #[verifier::opaque]
    pub open spec fn widen_spec(self) -> Double {
        if self.magnitude() > SINGLE_INFINITY_BITS {
            Double::nan_spec()
        } else if self.magnitude() == SINGLE_INFINITY_BITS {
            signed(self.negative(), INFINITY_BITS as nat)
        } else {
            signed(self.negative(), nearest_double(grid(24, self.magnitude()) * pow2(925), 1))
        }
    }

    pub fn widen(self) -> (r: Double)
        ensures
            r == self.widen_spec(),
    {
        reveal(Single::widen_spec);
        let negative = self.bits >= SINGLE_SIGN;
        let mag: u32 = if negative { self.bits - SINGLE_SIGN } else { self.bits };
        if mag > SINGLE_INFINITY_BITS {
            Double::not_a_number()
        } else if mag == SINGLE_INFINITY_BITS {
            Double::assemble(negative, INFINITY_BITS)
        } else {
            proof {
                lemma2_to64();
                lemma2_to64_rest();
                lemma_pow2_adds(64, 63);
            }
            let field: u32 = mag / 0x80_0000;
            let frac: u32 = mag % 0x80_0000;
            let m: u32 = if field == 0 { mag } else { 0x80_0000 + frac };
            let e: u32 = if field == 0 { 0 } else { field - 1 };
            let ghost num: nat = grid(24, self.magnitude()) * pow2(925);
            proof {
                assert(m * 1 == m);
                assert(grid(24, self.magnitude()) == m * pow2(e as nat));
                lemma_pow2_adds(e as nat, 925);
                assert(num == m * (pow2(e as nat) * pow2(925))) by (nonlinear_arith)
                    requires num == m * pow2(e as nat) * pow2(925);
                lemma_exact_units(m as nat, (e + 925) as nat, num);
                lemma_exact_rational(m as nat, e + 925, num, 1);
            }
            let k = round(53, m as u128, true, e as i32 + 925, Ghost(num), Ghost(1));
            proof {
                law_nearest_unique(53, INFINITY_BITS as nat, k as nat, num, 1);
            }
            Double::assemble(negative, k)
        }
    }
}

} // verus!
