//! Single precision numbers held as their IEEE 754 bit patterns.
//!
//! Every finite binary32 value is a whole multiple of 2^-149, the smallest
//! positive one. [`Binary32::units`] is that multiple, so that order, rounding
//! and integer parts are statements about integers.

use vstd::prelude::*;
use vstd::arithmetic::power2::{pow2, lemma_pow2_adds, lemma_pow2_pos, lemma_pow2_strictly_increases, lemma_pow2_unfold, lemma2_to64};
use vstd::arithmetic::div_mod::{lemma_div_denominator, lemma_div_multiples_vanish, lemma_fundamental_div_mod, lemma_fundamental_div_mod_converse, lemma_mod_multiples_basic, lemma_mod_pos_bound};
use vstd::std_specs::cmp::PartialEqSpecImpl;
use vstd::arithmetic::mul::{lemma_mul_inequality, lemma_mul_is_associative, lemma_mul_is_commutative, lemma_mul_strict_inequality};

verus! {

/// Positive infinity.
pub const INFINITY_BITS: u32 = 0x7f80_0000;

/// Negative infinity.
pub const NEG_INFINITY_BITS: u32 = 0xff80_0000;

/// A quiet NaN.
pub const NAN_BITS: u32 = 0x7fc0_0000;

/// One.
pub const ONE_BITS: u32 = 0x3f80_0000;

/// One half.
pub const HALF_BITS: u32 = 0x3f00_0000;

/// One and a half.
pub const ONE_AND_A_HALF_BITS: u32 = 0x3fc0_0000;

/// One hundred.
pub const HUNDRED_BITS: u32 = 0x42c8_0000;

/// One hundred and twenty-seven and a half.
pub const BYTE_MIDDLE_BITS: u32 = 0x42ff_0000;

/// The number nearest to 10^-3.
pub const MILLI_BITS: u32 = 0x3a83_126f;

/// Negative zero.
pub const NEG_ZERO_BITS: u32 = 0x8000_0000;

/// The number nearest to 10^-12.
pub const TINY_NORM_BITS: u32 = 0x2b8c_bccc;

/// The binary32 number with the given bit pattern.
///
/// In code `==` compares by value, as IEEE 754 does: zeros are equal whatever
/// their sign, and a NaN equals nothing. In contracts `==` compares bit patterns.
#[derive(Clone, Copy, Debug)]
pub struct Binary32 {
    pub bits: u32,
}

/// How many low bits have to go for `n` to fit in 24 bits.
pub open spec fn excess_bits(n: nat) -> nat
    decreases n,
{
    if n < 0x100_0000 {
        0
    } else {
        1 + excess_bits(n / 2)
    }
}

/// `n / d` rounded to 24 significant bits, to nearest with ties to even: the
/// rounding of binary32 arithmetic, for a quotient counted in units of 2^-149.
pub open spec fn round24(n: nat, d: nat) -> nat {
    let k = excess_bits(n / d);
    let step = d * pow2(k);
    let q = n / step;
    let r = n % step;
    (if 2 * r > step || (2 * r == step && q % 2 == 1) {
        q + 1
    } else {
        q
    }) * pow2(k)
}

/// The whole number `n`, rounded to binary32, in units of 2^-149.
pub open spec fn whole_units(n: u32) -> nat {
    round24(n as nat, 1) * pow2(149)
}

impl Binary32 {
    /// The bit pattern without the sign.
    pub open spec fn magnitude(self) -> nat {
        (self.bits % 0x8000_0000) as nat
    }

    pub open spec fn sign_bit(self) -> bool {
        self.bits >= 0x8000_0000
    }

    pub open spec fn exponent(self) -> nat {
        self.magnitude() / 0x80_0000
    }

    pub open spec fn fraction(self) -> nat {
        self.magnitude() % 0x80_0000
    }

    /// Neither infinite nor NaN.
    pub open spec fn finite(self) -> bool {
        self.exponent() < 255
    }

    pub open spec fn nan(self) -> bool {
        self.exponent() == 255 && self.fraction() > 0
    }

    /// The absolute value, counted in units of 2^-149. Infinity counts as 2^128.
    pub open spec fn abs_units(self) -> nat {
        if self.exponent() == 0 {
            self.fraction()
        } else {
            (0x80_0000 + self.fraction()) * pow2((self.exponent() - 1) as nat)
        }
    }

    /// The value, counted in units of 2^-149.
    pub open spec fn units(self) -> int {
        if self.sign_bit() {
            -(self.abs_units() as int)
        } else {
            self.abs_units() as int
        }
    }

    /// The IEEE 754 relation `self < other`, which no NaN is part of.
    pub open spec fn below(self, other: Binary32) -> bool {
        !self.nan() && !other.nan() && self.units() < other.units()
    }
}

/// Bit patterns without sign are ordered as the values they stand for.
pub(crate) proof fn lemma_magnitude_order(a: Binary32, b: Binary32)
    requires
        a.magnitude() < b.magnitude(),
    ensures
        a.abs_units() < b.abs_units(),
{
    let (ea, fa) = (a.exponent(), a.fraction());
    let (eb, fb) = (b.exponent(), b.fraction());
    lemma2_to64();
    if ea == eb {
        if ea > 0 {
            lemma_pow2_pos((ea - 1) as nat);
            lemma_mul_strict_inequality((0x80_0000 + fa) as int, (0x80_0000 + fb) as int, pow2((ea - 1) as nat) as int);
        }
    } else {
        assert(ea < eb);
        lemma_pow2_pos((eb - 1) as nat);
        let pb = pow2((eb - 1) as nat) as int;
        lemma_mul_inequality(0x80_0000, (0x80_0000 + fb) as int, pb);
        if ea == 0 {
            assert(0x80_0000 * pb >= 0x80_0000) by (nonlinear_arith) requires pb >= 1;
        } else {
            let pa = pow2((ea - 1) as nat) as int;
            lemma_pow2_pos((ea - 1) as nat);
            lemma_mul_strict_inequality((0x80_0000 + fa) as int, 0x100_0000, pa);
            lemma_pow2_unfold(ea);
            if ea < eb - 1 {
                lemma_pow2_strictly_increases(ea, (eb - 1) as nat);
            }
            assert(2 * pa <= pb);
        }
    }
}

/// Patterns without sign and the values they stand for determine each other.
proof fn lemma_magnitude_injective(a: Binary32, b: Binary32)
    ensures
        a.magnitude() < b.magnitude() <==> a.abs_units() < b.abs_units(),
        a.magnitude() == b.magnitude() <==> a.abs_units() == b.abs_units(),
{
    if a.magnitude() < b.magnitude() {
        lemma_magnitude_order(a, b);
    } else if b.magnitude() < a.magnitude() {
        lemma_magnitude_order(b, a);
    }
}

/// The number without sign that is this many units of 2^-149.
pub open spec fn with_units(units: nat) -> Binary32 {
    choose|b: Binary32| !b.sign_bit() && b.abs_units() == units
}

/// No other number without sign has the same value.
pub proof fn lemma_with_units(b: Binary32)
    requires
        !b.sign_bit(),
    ensures
        with_units(b.abs_units()) == b,
{
    let c = with_units(b.abs_units());
    assert(!c.sign_bit() && c.abs_units() == b.abs_units());
    lemma_magnitude_injective(b, c);
}

/// The whole number `n`, rounded to binary32.
pub open spec fn whole(n: u32) -> Binary32 {
    with_units(whole_units(n))
}

/// A significand and an exponent field, put together.
proof fn lemma_assemble(exp: nat, sig: nat)
    requires
        1 <= exp <= 253,
        0x80_0000 <= sig <= 0x100_0000,
    ensures
        ({
            let r = Binary32 { bits: (exp * 0x80_0000 + (sig - 0x80_0000)) as u32 };
            &&& r.finite()
            &&& !r.sign_bit()
            &&& r.abs_units() == sig * pow2((exp - 1) as nat)
            &&& r.units() == sig * pow2((exp - 1) as nat)
            &&& r == with_units(sig * pow2((exp - 1) as nat))
        }),
{
    let r = Binary32 { bits: (exp * 0x80_0000 + (sig - 0x80_0000)) as u32 };
    if sig == 0x100_0000 {
        assert(r.magnitude() == (exp + 1) * 0x80_0000);
        assert(r.exponent() == exp + 1);
        assert(r.fraction() == 0);
        lemma_pow2_unfold(exp);
        assert((r.exponent() - 1) as nat == exp);
        assert(0x80_0000 + r.fraction() == 0x80_0000);
        assert(r.abs_units() == 0x80_0000 * pow2(exp));
        let p = pow2((exp - 1) as nat);
        assert(sig * p == 0x80_0000 * (2 * p)) by (nonlinear_arith)
            requires sig == 0x100_0000;
        assert(r.abs_units() == sig * p);
    } else {
        assert(r.exponent() == exp);
        assert(r.fraction() == sig - 0x80_0000);
        assert(0x80_0000 + r.fraction() == sig);
    }
    lemma_with_units(r);
}

impl PartialEq for Binary32 {
    fn eq(&self, other: &Binary32) -> (r: bool) {
        proof {
            lemma_magnitude_injective(*self, *other);
            lemma_magnitude_injective(*self, Binary32 { bits: 0 });
            lemma_magnitude_injective(*other, Binary32 { bits: 0 });
        }
        let a: u32 = self.bits % 0x8000_0000;
        let b: u32 = other.bits % 0x8000_0000;
        a <= INFINITY_BITS && a == b && (self.bits == other.bits || a == 0)
    }
}

impl PartialEqSpecImpl for Binary32 {
    open spec fn obeys_eq_spec() -> bool {
        true
    }

    open spec fn eq_spec(&self, other: &Binary32) -> bool {
        !self.nan() && !other.nan() && self.units() == other.units()
    }
}

impl Binary32 {
    pub fn from_bits(bits: u32) -> (r: Binary32)
        ensures
            r.bits == bits,
    {
        Binary32 { bits }
    }

    pub fn is_finite(self) -> (r: bool)
        ensures
            r == self.finite(),
    {
        self.bits % 0x8000_0000 < INFINITY_BITS
    }

    pub fn is_nan(self) -> (r: bool)
        ensures
            r == self.nan(),
    {
        self.bits % 0x8000_0000 > INFINITY_BITS
    }

    /// The comparison `self < other` of IEEE 754.
    pub fn less_than(self, other: Binary32) -> (r: bool)
        ensures
            r == self.below(other),
    {
        if self.is_nan() || other.is_nan() {
            return false;
        }
        let a: u32 = self.bits % 0x8000_0000;
        let b: u32 = other.bits % 0x8000_0000;
        proof {
            lemma_magnitude_injective(self, other);
            lemma_magnitude_injective(self, Binary32 { bits: 0 });
            lemma_magnitude_injective(other, Binary32 { bits: 0 });
        }
        if self.bits >= 0x8000_0000 {
            if other.bits >= 0x8000_0000 {
                b < a
            } else {
                a != 0 || b != 0
            }
        } else {
            if other.bits >= 0x8000_0000 {
                false
            } else {
                a < b
            }
        }
    }

    /// The smaller of two numbers; a NaN gives way to the other argument.
    pub open spec fn smaller(self, other: Binary32) -> Binary32 {
        if self.nan() || other.below(self) {
            other
        } else {
            self
        }
    }

    pub fn min(self, other: Binary32) -> (r: Binary32)
        ensures
            r == self.smaller(other),
    {
        if self.is_nan() || other.less_than(self) {
            other
        } else {
            self
        }
    }

    /// The larger of two numbers; a NaN gives way to the other argument.
    pub open spec fn larger(self, other: Binary32) -> Binary32 {
        if self.nan() || self.below(other) {
            other
        } else {
            self
        }
    }

    pub fn max(self, other: Binary32) -> (r: Binary32)
        ensures
            r == self.larger(other),
    {
        if self.is_nan() || self.less_than(other) {
            other
        } else {
            self
        }
    }

    /// The IEEE 754 relation `self <= 0`, which no NaN meets.
    pub open spec fn at_most_zero(self) -> bool {
        !self.nan() && self.units() <= 0
    }

    pub fn is_at_most_zero(self) -> (r: bool)
        ensures
            r == self.at_most_zero(),
    {
        proof {
            lemma2_to64();
        }
        !self.is_nan() && !(Binary32 { bits: 0 }).less_than(self)
    }

    /// The number moved into the range from zero to one.
    pub open spec fn unit_clamped(self) -> Binary32 {
        if self.below(Binary32 { bits: 0 }) {
            Binary32 { bits: 0 }
        } else if (Binary32 { bits: ONE_BITS }).below(self) {
            Binary32 { bits: ONE_BITS }
        } else {
            self
        }
    }

    pub fn clamp_to_unit(self) -> (r: Binary32)
        ensures
            r == self.unit_clamped(),
    {
        let zero = Binary32 { bits: 0 };
        let one = Binary32 { bits: ONE_BITS };
        if self.less_than(zero) {
            zero
        } else if one.less_than(self) {
            one
        } else {
            self
        }
    }
}

/// The number of surplus bits is fixed by the power of two below `n`.
proof fn lemma_excess_bits(n: nat, k: nat)
    requires
        k > 0 ==> 0x80_0000 * pow2(k) <= n,
        n < 0x100_0000 * pow2(k),
    ensures
        excess_bits(n) == k,
    decreases k,
{
    lemma2_to64();
    if k == 0 {
    } else {
        lemma_pow2_unfold(k);
        let j = (k - 1) as nat;
        lemma_pow2_pos(j);
        assert(n >= 0x100_0000 * pow2(j));
        assert(n >= 0x100_0000);
        assert(n / 2 < 0x100_0000 * pow2(j));
        assert(n / 2 >= 0x80_0000 * pow2(j));
        lemma_excess_bits(n / 2, j);
    }
}

/// Rounding, from a quotient and a remainder at the right power of two.
pub(crate) proof fn lemma_round24(n: nat, d: nat, k: nat, q: nat, r: nat)
    requires
        d > 0,
        n == q * (d * pow2(k)) + r,
        r < d * pow2(k),
        k > 0 ==> 0x80_0000 <= q,
        q < 0x100_0000,
    ensures
        round24(n, d) == (if 2 * r > d * pow2(k) || (2 * r == d * pow2(k) && q % 2 == 1) {
            q + 1
        } else {
            q
        }) * pow2(k),
{
    lemma_pow2_pos(k);
    let p = pow2(k);
    let step = d * p;
    assert(step > 0) by (nonlinear_arith) requires d > 0, p > 0, step == d * p;
    lemma_fundamental_div_mod_converse(n as int, step as int, q as int, r as int);
    lemma_div_denominator(n as int, d as int, p as int);
    let m = n / d;
    assert(m / p == q);
    lemma_fundamental_div_mod(m as int, p as int);
    lemma_mod_pos_bound(m as int, p as int);
    assert(m < 0x100_0000 * p) by (nonlinear_arith) requires m == p * q + m % p, m % p < p, q <= 0xff_ffff, p > 0;
    assert(k > 0 ==> 0x80_0000 * p <= m) by (nonlinear_arith)
        requires m == p * q + m % p, 0 <= m % p, k > 0 ==> 0x80_0000 <= q, p > 0;
    lemma_excess_bits(m, k);
}

/// The power `2^k`, for small `k`.
fn power_of_two(k: u32) -> (r: u64)
    requires
        k <= 40,
    ensures
        r == pow2(k as nat),
{
    let mut r: u64 = 1;
    let mut i: u32 = 0;
    proof {
        lemma2_to64();
    }
    while i < k
        invariant
            i <= k <= 40,
            r == pow2(i as nat),
        decreases k - i,
    {
        proof {
            lemma2_to64();
            lemma_pow2_unfold((i + 1) as nat);
            lemma_pow2_strictly_increases(i as nat, 41);
            assert(pow2(41) == 0x200_0000_0000) by {
                lemma_pow2_adds(32, 9);
            }
        }
        r = r * 2;
        i = i + 1;
    }
    r
}

impl Binary32 {
    /// The whole number `n`, rounded as a conversion to binary32 rounds it.
    pub fn from_u32(n: u32) -> (r: Binary32)
        ensures
            r.finite(),
            !r.sign_bit(),
            r.units() == whole_units(n),
            r == whole(n),
    {
        proof {
            lemma2_to64();
        }
        if n == 0 {
            assert(round24(0, 1) == 0);
            proof {
                lemma_with_units(Binary32 { bits: 0 });
            }
            return Binary32 { bits: 0 };
        }
        if n < 0x100_0000 {
            let mut sig: u32 = n;
            let mut exp: u32 = 150;
            while sig < 0x80_0000
                invariant
                    0 < n,
                    0 < sig < 0x100_0000,
                    100 <= exp <= 150,
                    sig >= pow2((150 - exp) as nat),
                    sig * pow2((exp - 1) as nat) == n * pow2(149),
                decreases exp,
            {
                proof {
                    lemma2_to64();
                    lemma_pow2_unfold((exp - 1) as nat);
                    lemma_pow2_unfold((151 - exp) as nat);
                    if exp == 100 {
                        lemma_pow2_strictly_increases(24, 50);
                    }
                    let p = pow2((exp - 2) as nat);
                    assert((2 * sig) * p == sig * (2 * p)) by (nonlinear_arith);
                }
                sig = sig * 2;
                exp = exp - 1;
            }
            proof {
                lemma_assemble(exp as nat, sig as nat);
                lemma2_to64();
                assert(1 * pow2(0) == 1);
                lemma_round24(n as nat, 1, 0, n as nat, 0);
            }
            return Binary32 { bits: exp * 0x80_0000 + (sig - 0x80_0000) };
        }
        let mut step: u32 = 2;
        let mut exp: u32 = 151;
        while n / step >= 0x100_0000
            invariant
                0x100_0000 <= n,
                151 <= exp <= 158,
                step == pow2((exp - 150) as nat),
                2 <= step <= 0x100,
                n / step >= 0x80_0000,
            decreases 160 - exp,
        {
            proof {
                lemma2_to64();
                lemma_pow2_unfold((exp - 149) as nat);
                if exp == 158 {
                    assert(n / 0x100 < 0x100_0000);
                }
                lemma_pow2_strictly_increases((exp - 150) as nat, 8);
                lemma_div_denominator(n as int, step as int, 2);
                assert((n / step) / 2 >= 0x80_0000);
            }
            step = step * 2;
            exp = exp + 1;
        }
        let q: u32 = n / step;
        let r: u32 = n % step;
        let sig: u32 = if 2 * r > step || (2 * r == step && q % 2 == 1) {
            q + 1
        } else {
            q
        };
        proof {
            let k = (exp - 150) as nat;
            lemma_fundamental_div_mod(n as int, step as int);
            lemma_mul_is_commutative(q as int, step as int);
            lemma_round24(n as nat, 1, k, q as nat, r as nat);
            lemma_pow2_adds(k, 149);
            lemma_mul_is_associative(sig as int, pow2(k) as int, pow2(149) as int);
            lemma_assemble(exp as nat, sig as nat);
        }
        Binary32 { bits: exp * 0x80_0000 + (sig - 0x80_0000) }
    }

    /// The whole part of a number that is not negative and lies below 2^32.
    pub fn floor(self) -> (r: u32)
        requires
            self.finite(),
            0 <= self.units() < 0x1_0000_0000 * pow2(149),
        ensures
            r == self.units() / pow2(149) as int,
    {
        let exp: u32 = self.bits % 0x8000_0000 / 0x80_0000;
        let sig: u32 = self.bits % 0x80_0000 + 0x80_0000;
        proof {
            lemma_parts(self);
            lemma2_to64();
            lemma_pow2_pos(149);
        }
        if exp < 127 {
            proof {
                lemma_small(self);
            }
            0
        } else if exp < 150 {
            let step: u64 = power_of_two(150 - exp);
            proof {
                lemma_split(sig as nat, exp as nat);
            }
            (sig as u64 / step) as u32
        } else {
            proof {
                let j = (exp - 150) as nat;
                lemma_pow2_adds(j, 149);
                lemma_mul_is_associative(sig as int, pow2(j) as int, pow2(149) as int);
                lemma_div_multiples_vanish((sig * pow2(j)) as int, pow2(149) as int);
                lemma_mul_is_commutative((sig * pow2(j)) as int, pow2(149) as int);
                assert(sig * pow2(j) < 0x1_0000_0000) by (nonlinear_arith)
                    requires (sig * pow2(j)) * pow2(149) < 0x1_0000_0000 * pow2(149), pow2(149) > 0;
                if j >= 9 {
                    if j > 9 {
                        lemma_pow2_strictly_increases(9, j);
                    }
                    assert(sig * pow2(j) >= 0x1_0000_0000) by (nonlinear_arith)
                        requires sig >= 0x80_0000, pow2(j) >= 0x200;
                }
            }
            let step: u64 = power_of_two(exp - 150);
            (sig as u64 * step) as u32
        }
    }

    /// The number cut to a whole one and moved into the range of a byte; NaN gives zero.
    pub open spec fn as_byte(self) -> u8 {
        if self.nan() || self.units() <= 0 {
            0
        } else if self.units() >= 255 * pow2(149) {
            255
        } else {
            (self.units() / pow2(149) as int) as u8
        }
    }

    pub fn to_byte(self) -> (r: u8)
        ensures
            r == self.as_byte(),
    {
        if self.is_nan() || self.is_at_most_zero() {
            return 0;
        }
        let top = Binary32 { bits: 0x437f_0000 };
        proof {
            lemma2_to64();
            lemma_pow2_pos(149);
            assert(top.exponent() == 134 && top.fraction() == 0x7f_0000);
            lemma_pow2_adds(16, 133);
            assert(0x80_0000 + top.fraction() == 0xff_0000);
            assert((top.exponent() - 1) as nat == 133);
            assert(top.abs_units() == 0xff_0000 * pow2(133));
            assert(top.units() == 255 * pow2(149));
        }
        if !self.less_than(top) {
            return 255;
        }
        proof {
            let inf = Binary32 { bits: INFINITY_BITS };
            if !self.finite() {
                assert(self.magnitude() == inf.magnitude());
                lemma_magnitude_order(top, self);
            }
            assert(self.units() / (pow2(149) as int) < 255) by (nonlinear_arith)
                requires 0 < self.units() < 255 * pow2(149), pow2(149) > 0;
        }
        self.floor() as u8
    }

    /// What is left of a number that is not negative without its whole part.
    pub fn fractional_part(self) -> (r: Binary32)
        requires
            self.finite(),
            0 <= self.units(),
        ensures
            r.finite(),
            r.units() == self.units() % pow2(149) as int,
    {
        let exp: u32 = self.bits % 0x8000_0000 / 0x80_0000;
        let sig: u32 = self.bits % 0x80_0000 + 0x80_0000;
        proof {
            lemma_parts(self);
            lemma2_to64();
            lemma_pow2_pos(149);
        }
        if exp < 127 {
            proof {
                lemma_small(self);
            }
            self
        } else if exp < 150 {
            let step: u64 = power_of_two(150 - exp);
            let low: u64 = sig as u64 % step;
            proof {
                lemma_split(sig as nat, exp as nat);
            }
            if low == 0 {
                assert(0 * pow2((exp - 1) as nat) == 0);
                assert(self.units() % pow2(149) as int == 0);
                return Binary32 { bits: 0 };
            }
            let mut part: u64 = low;
            let mut e: u32 = exp;
            assert(part < 0x80_0000) by {
                if exp > 127 {
                    lemma_pow2_strictly_increases((150 - exp) as nat, 23);
                }
            }
            while part < 0x80_0000
                invariant
                    0 < low,
                    0 < part < 0x100_0000,
                    100 <= e <= exp < 150,
                    127 <= exp,
                    part >= pow2((exp - e) as nat),
                    part * pow2((e - 1) as nat) == low * pow2((exp - 1) as nat),
                decreases e,
            {
                proof {
                    lemma2_to64();
                    lemma_pow2_unfold((e - 1) as nat);
                    lemma_pow2_unfold((exp - e + 1) as nat);
                    if e == 100 {
                        lemma_pow2_strictly_increases(23, (exp - e) as nat);
                    }
                    let p = pow2((e - 2) as nat);
                    assert((2 * part) * p == part * (2 * p)) by (nonlinear_arith);
                }
                part = part * 2;
                e = e - 1;
            }
            proof {
                lemma_assemble(e as nat, part as nat);
            }
            Binary32 { bits: e * 0x80_0000 + (part as u32 - 0x80_0000) }
        } else {
            proof {
                let j = (exp - 150) as nat;
                lemma_pow2_adds(j, 149);
                lemma_mul_is_associative(sig as int, pow2(j) as int, pow2(149) as int);
                lemma_mod_multiples_basic((sig * pow2(j)) as int, pow2(149) as int);
            }
            Binary32 { bits: 0 }
        }
    }
}

/// A number below `n` as binary32 rounds it has a whole part below `n` itself,
/// also where the rounding went up.
pub proof fn lemma_below_whole(x: Binary32, n: u32)
    requires
        x.finite(),
        0 <= x.units() < whole_units(n),
    ensures
        0 <= x.units() / pow2(149) as int,
        x.units() / (pow2(149) as int) < n,
        x.units() < n * pow2(149),
{
    let one = pow2(149);
    let k = excess_bits(n as nat);
    let step = pow2(k);
    let q = n as nat / step;
    let r = n as nat % step;
    lemma_pow2_pos(149);
    lemma_pow2_pos(k);
    lemma2_to64();
    lemma_excess_range(n as nat);
    assert(n as nat / 1 == n);
    assert(1 * step == step);
    lemma_fundamental_div_mod(n as int, step as int);
    lemma_mod_pos_bound(n as int, step as int);
    lemma_mul_is_commutative(q as int, step as int);
    let rounded = round24(n as nat, 1);
    if rounded <= n {
        assert(rounded * one <= n * one) by (nonlinear_arith) requires rounded <= n, one > 0;
    } else {
        assert(rounded == (q + 1) * step);
        assert(r > 0);
        assert(k > 0);
        assert(q >= 0x80_0000) by (nonlinear_arith)
            requires n == q * step + r, r < step, 0x80_0000 * step <= n, step > 0;
        lemma_parts(x);
        lemma_pow2_adds(k, 149);
        let gap = pow2(k + 149);
        assert(step * one == gap);
        assert(((q + 1) * step) * one == (q + 1) * gap) by (nonlinear_arith) requires step * one == gap;
        assert(x.abs_units() <= q * gap) by {
            lemma_pow2_pos(k + 149);
            let (e, f) = (x.exponent(), x.fraction());
            assert(f < 0x80_0000);
            if e == 0 {
                assert(q * gap >= q) by (nonlinear_arith) requires gap >= 1, q >= 0;
            } else {
                let sig = 0x80_0000 + f;
                let p = pow2((e - 1) as nat);
                lemma_pow2_pos((e - 1) as nat);
                if e - 1 < k + 149 {
                    lemma_pow2_unfold(k + 149);
                    if e - 1 < k + 148 {
                        lemma_pow2_strictly_increases((e - 1) as nat, (k + 148) as nat);
                    }
                    assert(2 * p <= gap);
                    assert(sig * p <= 0x80_0000 * gap) by (nonlinear_arith)
                        requires sig <= 0x100_0000, 2 * p <= gap, p > 0;
                    assert(0x80_0000 * gap <= q * gap) by (nonlinear_arith) requires 0x80_0000 <= q, gap > 0;
                } else {
                    let up = (e - 1 - (k + 149)) as nat;
                    lemma_pow2_adds(up, k + 149);
                    let m = sig * pow2(up);
                    assert(sig * p == m * gap) by (nonlinear_arith) requires p == pow2(up) * gap, m == sig * pow2(up);
                    assert(m < q + 1) by (nonlinear_arith) requires m * gap < (q + 1) * gap, gap > 0;
                    assert(m * gap <= q * gap) by (nonlinear_arith) requires m <= q, gap > 0;
                }
            }
        }
        assert(q * gap == (q * step) * one) by (nonlinear_arith) requires step * one == gap;
        assert((q * step) * one < n * one) by (nonlinear_arith) requires q * step < n, one > 0;
    }
    assert(x.units() < n * one);
    lemma_fundamental_div_mod(x.units(), one as int);
    lemma_mod_pos_bound(x.units(), one as int);
    let w = x.units() / one as int;
    assert(w < n) by (nonlinear_arith)
        requires x.units() == one * w + x.units() % one as int, 0 <= x.units() % one as int, x.units() < n * one, one > 0;
    assert(0 <= w) by (nonlinear_arith)
        requires x.units() == one * w + x.units() % one as int, x.units() % (one as int) < one, x.units() >= 0, one > 0;
}

/// Without its surplus bits a number has 24 bits.
pub(crate) proof fn lemma_excess_range(n: nat)
    ensures
        n < 0x100_0000 * pow2(excess_bits(n)),
        excess_bits(n) > 0 ==> 0x80_0000 * pow2(excess_bits(n)) <= n,
    decreases n,
{
    lemma2_to64();
    if n >= 0x100_0000 {
        lemma_excess_range(n / 2);
        lemma_pow2_unfold(excess_bits(n));
    }
}

/// The fields of a number that is not negative.
proof fn lemma_parts(x: Binary32)
    requires
        0 <= x.units(),
    ensures
        x.abs_units() == x.units(),
        x.exponent() == x.bits % 0x8000_0000 / 0x80_0000,
        x.fraction() == x.bits % 0x80_0000,
{
    assert(x.bits % 0x8000_0000 % 0x80_0000 == x.bits % 0x80_0000);
    if x.sign_bit() {
        assert(x.abs_units() == 0);
    }
}

/// Numbers below one have no whole part.
proof fn lemma_small(x: Binary32)
    requires
        x.exponent() < 127,
    ensures
        x.abs_units() < pow2(149),
        0 <= x.units() ==> x.units() / pow2(149) as int == 0 && x.units() % pow2(149) as int == x.units(),
{
    let one = Binary32 { bits: ONE_BITS };
    assert(one.exponent() == 127 && one.fraction() == 0);
    lemma2_to64();
    lemma_pow2_adds(23, 126);
    assert(one.abs_units() == pow2(149));
    lemma_magnitude_order(x, one);
    if 0 <= x.units() {
        lemma_parts(x);
        lemma_fundamental_div_mod_converse(x.units(), pow2(149) as int, 0, x.units());
    }
}

/// A significand, split at the binary point.
proof fn lemma_split(sig: nat, exp: nat)
    requires
        1 <= exp <= 150,
    ensures
        ({
            let units = sig * pow2((exp - 1) as nat);
            let step = pow2((150 - exp) as nat);
            &&& units / pow2(149) == sig / step
            &&& units % pow2(149) == (sig % step) * pow2((exp - 1) as nat)
        }),
{
    let low = pow2((exp - 1) as nat);
    let step = pow2((150 - exp) as nat);
    let units = sig * low;
    lemma_pow2_pos((exp - 1) as nat);
    lemma_pow2_pos((150 - exp) as nat);
    lemma_pow2_adds((150 - exp) as nat, (exp - 1) as nat);
    lemma_fundamental_div_mod(sig as int, step as int);
    lemma_mod_pos_bound(sig as int, step as int);
    let q = sig / step;
    let r = sig % step;
    assert(units == q * (step * low) + r * low) by (nonlinear_arith) requires units == sig * low, sig == step * q + r;
    assert(0 <= r * low < step * low) by (nonlinear_arith) requires 0 <= r < step, low > 0;
    lemma_fundamental_div_mod_converse(units as int, (step * low) as int, q as int, (r * low) as int);
}

/// Whole numbers of up to 24 bits are binary32 numbers themselves.
pub proof fn law_whole_is_exact(n: u32)
    requires
        n < 0x100_0000,
    ensures
        whole_units(n) == n * pow2(149),
        whole(n).finite(),
        !whole(n).sign_bit(),
        whole(n).units() == n * pow2(149),
{
    lemma2_to64();
    assert(1 * pow2(0) == 1);
    lemma_round24(n as nat, 1, 0, n as nat, 0);
    lemma_whole_exists(n, 0);
}

/// There is a number for each whole number that fits in 24 bits.
proof fn lemma_whole_exists(n: u32, s: nat)
    requires
        n < 0x100_0000,
        s <= 23,
        n * pow2(s) < 0x100_0000,
    ensures
        ({
            let b = with_units((n * pow2(149)) as nat);
            b.finite() && !b.sign_bit() && b.abs_units() == n * pow2(149)
        }),
    decreases 24 - s,
{
    lemma2_to64();
    let one = pow2(149);
    if n == 0 {
        let zero = Binary32 { bits: 0 };
        assert(zero.abs_units() == 0);
        assert(0 * one == 0);
        lemma_with_units(zero);
    } else {
        let sig = (n * pow2(s)) as nat;
        lemma_pow2_unfold(s + 1);
        if sig >= 0x80_0000 {
            let exp = (150 - s) as nat;
            lemma_assemble(exp, sig);
            lemma_pow2_adds(s, (149 - s) as nat);
            lemma_mul_is_associative(n as int, pow2(s) as int, pow2((149 - s) as nat) as int);
        } else {
            assert(n * pow2(s + 1) == 2 * sig) by (nonlinear_arith)
                requires sig == n * pow2(s), pow2(s + 1) == 2 * pow2(s);
            if s == 23 {
                assert(n * pow2(s) >= 0x80_0000) by (nonlinear_arith)
                    requires n >= 1, pow2(s) == 0x80_0000;
            }
            lemma_whole_exists(n, s + 1);
        }
    }
}

/// Whole numbers as binary32 rounds them: finite, not negative, below 2^33, and
/// exact up to 2^24.
pub proof fn lemma_whole_range(n: u32)
    ensures
        whole(n).finite(),
        !whole(n).sign_bit(),
        whole(n).units() == whole_units(n),
        whole_units(n) < pow2(276),
        n <= 0x100_0000 ==> whole_units(n) == n * pow2(149),
        n >= 0x100_0000 ==> whole_units(n) >= 0x100_0000 * pow2(149),
{
    let one = pow2(149);
    lemma2_to64();
    lemma_pow2_pos(149);
    if n < 0x100_0000 {
        law_whole_is_exact(n);
        lemma_pow2_adds(24, 149);
        lemma_pow2_strictly_increases(173, 276);
        assert(n * one <= 0x100_0000 * one) by (nonlinear_arith)
            requires n <= 0x100_0000, one > 0;
    } else {
        let k = excess_bits(n as nat);
        let step = pow2(k);
        let q = n as nat / step;
        let r = n as nat % step;
        lemma_pow2_pos(k);
        lemma_excess_range(n as nat);
        assert(k > 0);
        assert(n as nat / 1 == n && 1 * step == step);
        lemma_fundamental_div_mod(n as int, step as int);
        lemma_mod_pos_bound(n as int, step as int);
        assert(0x80_0000 <= q < 0x100_0000) by (nonlinear_arith)
            requires n == step * q + r, 0 <= r < step, 0x80_0000 * step <= n, n < 0x100_0000 * step;
        if k >= 9 {
            if k > 9 {
                lemma_pow2_strictly_increases(9, k);
            }
            assert(0x80_0000 * step >= 0x1_0000_0000);
        }
        let sig: nat = if round24(n as nat, 1) == q * step {
            q
        } else {
            q + 1
        };
        assert(round24(n as nat, 1) == sig * step);
        lemma_pow2_adds(k, 149);
        lemma_mul_is_associative(sig as int, step as int, one as int);
        lemma_assemble(k + 150, sig);
        lemma_pow2_adds(24, k + 149);
        lemma_pow2_strictly_increases(k + 173, 276);
        let p = pow2(k + 149);
        assert(sig * p <= 0x100_0000 * p) by (nonlinear_arith)
            requires sig <= 0x100_0000, p >= 0;
        assert(step >= 2) by {
            lemma_pow2_unfold(k);
            lemma_pow2_pos((k - 1) as nat);
        }
        assert(sig * step >= 0x100_0000) by (nonlinear_arith)
            requires sig >= 0x80_0000, step >= 2;
        assert((sig * step) * one >= 0x100_0000 * one) by (nonlinear_arith)
            requires sig * step >= 0x100_0000, one > 0;
        if n == 0x100_0000 {
            assert(k == 1) by {
                lemma_excess_bits(n as nat, 1);
            }
        }
    }
}

} // verus!
