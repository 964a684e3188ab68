//! Binary32 arithmetic, computed on integers.
//!
//! Each operation returns the exact result rounded to nearest, ties to even,
//! as IEEE 754 prescribes. A result that is not a number is the quiet NaN
//! without sign and payload.

use vstd::prelude::*;
use vstd::arithmetic::power2::{pow2, lemma_pow2_adds, lemma_pow2_pos, lemma_pow2_strictly_increases, lemma_pow2_unfold, lemma2_to64};
use vstd::arithmetic::div_mod::{lemma_div_denominator, lemma_div_is_ordered_by_denominator, lemma_fundamental_div_mod, lemma_mod_pos_bound};
use vstd::arithmetic::mul::{lemma_mul_is_associative, lemma_mul_is_commutative};
use crate::binary32::{Binary32, INFINITY_BITS, NAN_BITS};
use crate::binary32::{excess_bits, lemma_excess_range, lemma_magnitude_order, lemma_round24, lemma_with_units, round24, with_units};

verus! {

impl Binary32 {
    /// The same number with the given sign in place of its own.
    pub open spec fn signed(self, negative: bool) -> Binary32 {
        if negative {
            Binary32 { bits: (self.magnitude() + 0x8000_0000) as u32 }
        } else {
            Binary32 { bits: self.magnitude() as u32 }
        }
    }

    pub open spec fn infinite(self) -> bool {
        self.magnitude() == INFINITY_BITS
    }

    pub open spec fn zero(self) -> bool {
        self.magnitude() == 0
    }

    fn with_sign(self, negative: bool) -> (r: Binary32)
        ensures
            r == self.signed(negative),
    {
        let m: u32 = self.bits % 0x8000_0000;
        if negative {
            Binary32 { bits: m + 0x8000_0000 }
        } else {
            Binary32 { bits: m }
        }
    }
}

/// The absolute value `n / d`, in units of 2^-149, as a binary32 number: what
/// rounds to 2^128 or more is infinite.
pub open spec fn rounded(n: nat, d: nat) -> Binary32 {
    let units = round24(n, d);
    if units < pow2(277) {
        with_units(units)
    } else {
        Binary32 { bits: INFINITY_BITS }
    }
}

/// A significand scaled by a power of two, as a bit pattern.
pub(crate) proof fn lemma_pattern(k: nat, sig: nat)
    requires
        sig <= 0x100_0000,
        k > 0 ==> 0x80_0000 <= sig,
        k <= 253,
    ensures
        k * 0x80_0000 + sig < 0x8000_0000,
        ({
            let r = Binary32 { bits: (k * 0x80_0000 + sig) as u32 };
            &&& !r.sign_bit()
            &&& r.abs_units() == sig * pow2(k)
            &&& r == with_units(sig * pow2(k))
        }),
        sig * pow2(k) < pow2(277) <==> k * 0x80_0000 + sig < INFINITY_BITS,
{
    let r = Binary32 { bits: (k * 0x80_0000 + sig) as u32 };
    lemma2_to64();
    assert(r.magnitude() == k * 0x80_0000 + sig);
    if sig < 0x80_0000 {
        assert(k == 0);
        assert(r.exponent() == 0);
        assert(r.fraction() == sig);
        assert(sig * pow2(k) == sig) by (nonlinear_arith)
            requires pow2(k) == 1;
        assert(r.abs_units() == sig * pow2(k));
    } else if sig < 0x100_0000 {
        assert(r.exponent() == k + 1);
        assert(r.fraction() == sig - 0x80_0000);
        assert(0x80_0000 + r.fraction() == sig);
        assert((r.exponent() - 1) as nat == k);
        assert(r.abs_units() == sig * pow2(k));
    } else {
        assert(r.exponent() == k + 2);
        assert(r.fraction() == 0);
        assert(0x80_0000 + r.fraction() == 0x80_0000);
        assert((r.exponent() - 1) as nat == k + 1);
        lemma_pow2_unfold(k + 1);
        assert(r.abs_units() == 0x80_0000 * pow2(k + 1));
        assert((k + 1 - 1) as nat == k);
        assert(pow2(k + 1) == 2 * pow2(k));
        let p = pow2(k);
        assert(sig * p == 0x80_0000 * (2 * p)) by (nonlinear_arith)
            requires sig == 0x100_0000;
        assert(r.abs_units() == sig * pow2(k));
    }
    lemma_with_units(r);
    let inf = Binary32 { bits: INFINITY_BITS };
    assert(inf.exponent() == 255 && inf.fraction() == 0);
    lemma_pow2_adds(23, 254);
    assert(inf.abs_units() == pow2(277));
    if r.magnitude() < inf.magnitude() {
        lemma_magnitude_order(r, inf);
    } else if inf.magnitude() < r.magnitude() {
        lemma_magnitude_order(inf, r);
    }
}

/// The power `2^k`.
fn wide_power(k: u32) -> (r: u128)
    requires
        k <= 120,
    ensures
        r == pow2(k as nat),
{
    let mut r: u128 = 1;
    let mut i: u32 = 0;
    proof {
        lemma2_to64();
    }
    while i < k
        invariant
            i <= k <= 120,
            r == pow2(i as nat),
        decreases k - i,
    {
        proof {
            lemma_pow2_unfold((i + 1) as nat);
            lemma_wide(i as nat);
        }
        r = r * 2;
        i = i + 1;
    }
    r
}

proof fn lemma_wide(k: nat)
    requires
        k <= 120,
    ensures
        pow2(k) <= pow2(120),
        pow2(120) == 0x1_00_0000_0000_0000_0000_0000_0000_0000,
{
    lemma2_to64();
    lemma_pow2_adds(32, 24);
    lemma_pow2_adds(64, 56);
    if k < 120 {
        lemma_pow2_strictly_increases(k, 120);
    }
}

/// What `m * 2^x / 2^y` rounds to, once `m` is split at bit `j`.
proof fn lemma_scaled(m: nat, x: nat, y: nat, j: nat, q: nat, r: nat, k: nat)
    requires
        m == q * pow2(j) + r,
        r < pow2(j),
        x + j == y + k,
        k > 0 ==> 0x80_0000 <= q,
        q < 0x100_0000,
    ensures
        round24(m * pow2(x), pow2(y)) == (if 2 * r > pow2(j) || (2 * r == pow2(j) && q % 2 == 1) {
            q + 1
        } else {
            q
        }) * pow2(k),
{
    let (px, pj, py, pk) = (pow2(x), pow2(j), pow2(y), pow2(k));
    lemma_pow2_adds(x, j);
    lemma_pow2_adds(y, k);
    lemma_pow2_pos(x);
    lemma_pow2_pos(y);
    let n = m * px;
    assert(px * pj == py * pk);
    assert(n == q * (py * pk) + r * px) by (nonlinear_arith)
        requires n == m * px, m == q * pj + r, px * pj == py * pk;
    assert(r * px < py * pk) by (nonlinear_arith) requires r < pj, px > 0, px * pj == py * pk;
    assert(2 * (r * px) > py * pk <==> 2 * r > pj) by (nonlinear_arith) requires px > 0, px * pj == py * pk;
    assert(2 * (r * px) == py * pk <==> 2 * r == pj) by (nonlinear_arith) requires px > 0, px * pj == py * pk;
    lemma_round24(n, py, k, q, r * px);
}

/// A significand times `2^k` units as a binary32 number, infinite from 2^128 on.
fn pack(sig: u32, k: u32) -> (r: Binary32)
    requires
        sig <= 0x100_0000,
        k > 0 ==> 0x80_0000 <= sig,
    ensures
        r == (if sig * pow2(k as nat) < pow2(277) {
            with_units((sig * pow2(k as nat)) as nat)
        } else {
            Binary32 { bits: INFINITY_BITS }
        }),
        !r.sign_bit(),
        !r.nan(),
{
    if k >= 254 {
        proof {
            lemma2_to64();
            lemma_pow2_adds(23, 254);
            if k > 254 {
                lemma_pow2_strictly_increases(254, k as nat);
            }
            assert(sig * pow2(k as nat) >= 0x80_0000 * pow2(254)) by (nonlinear_arith)
                requires sig >= 0x80_0000, pow2(k as nat) >= pow2(254);
        }
        return Binary32 { bits: INFINITY_BITS };
    }
    proof {
        lemma_pattern(k as nat, sig as nat);
    }
    Binary32 { bits: k * 0x80_0000 + sig }
}

/// The value `m * 2^x / 2^y`, in units of 2^-149, rounded to binary32.
fn round_scaled(m: u128, x: u32, y: u32) -> (r: Binary32)
    requires
        m < pow2(120),
        x <= 1000,
        y <= 1000,
    ensures
        r == rounded((m * pow2(x as nat)) as nat, pow2(y as nat)),
        !r.sign_bit(),
        !r.nan(),
{
    proof {
        lemma2_to64();
        lemma_pow2_pos(x as nat);
        lemma_pow2_pos(y as nat);
    }
    if m == 0 {
        proof {
            assert(0 * pow2(x as nat) == 0);
            lemma_scaled(0, x as nat, x as nat, 0, 0, 0, 0);
            lemma_round_zero(pow2(y as nat));
        }
        return pack(0, 0);
    }
    let mut j: u32 = 0;
    let mut step: u128 = 1;
    while m / step >= 0x100_0000
        invariant
            m < pow2(120),
            j <= 97,
            step == pow2(j as nat),
            step > 0,
            j > 0 ==> m / step >= 0x80_0000,
        decreases 100 - j,
    {
        proof {
            lemma2_to64();
            lemma_wide(j as nat);
            lemma_pow2_unfold((j + 1) as nat);
            lemma_pow2_adds(96, 24);
            if j >= 96 {
                if j > 96 {
                    lemma_pow2_strictly_increases(96, j as nat);
                }
                lemma_pow2_pos(96);
                assert((m as int / step as int) < 0x100_0000) by (nonlinear_arith)
                    requires m < pow2(96) * 0x100_0000, step >= pow2(96), pow2(96) > 0, m >= 0;
            }
            lemma_div_denominator(m as int, step as int, 2);
        }
        step = step * 2;
        j = j + 1;
    }
    if x + j < y {
        // The result is a small number of units: the significand ends at one unit.
        if y - x > 120 {
            proof {
                lemma_wide(0);
                lemma_pow2_strictly_increases(120, (y - x) as nat);
                lemma_pow2_unfold((y - x) as nat);
                if y - x > 121 {
                    lemma_pow2_strictly_increases(120, (y - x - 1) as nat);
                }
                assert(0 * pow2((y - x) as nat) == 0);
                lemma_scaled(m as nat, x as nat, y as nat, (y - x) as nat, 0, m as nat, 0);
            }
            return pack(0, 0);
        }
        let ghost before = step;
        proof {
            lemma_pow2_strictly_increases(j as nat, (y - x) as nat);
        }
        j = y - x;
        step = wide_power(j);
        proof {
            lemma_div_is_ordered_by_denominator(m as int, before as int, step as int);
        }
    }
    let mut k: u32 = x + j - y;
    let q: u128 = m / step;
    let rem: u128 = m % step;
    proof {
        lemma_wide(j as nat);
        lemma_fundamental_div_mod(m as int, step as int);
        lemma_mul_is_commutative(q as int, step as int);
    }
    if k > 0 && q < 0x80_0000 {
        // Nothing was cut off: move the significand up as far as it goes.
        let mut sig: u128 = q;
        assert(sig * pow2(k as nat) * pow2(y as nat) == m * pow2(x as nat)) by {
            assert(m / 1 == m);
            lemma_pow2_adds(k as nat, y as nat);
            lemma_mul_is_associative(sig as int, pow2(k as nat) as int, pow2(y as nat) as int);
        }
        while k > 0 && sig < 0x80_0000
            invariant
                sig < 0x100_0000,
                sig * pow2(k as nat) * pow2(y as nat) == m * pow2(x as nat),
            decreases k,
        {
            proof {
                lemma_pow2_unfold(k as nat);
                let p = pow2((k - 1) as nat);
                assert((2 * sig) * p == sig * (2 * p)) by (nonlinear_arith);
            }
            sig = sig * 2;
            k = k - 1;
        }
        proof {
            let n = (m * pow2(x as nat)) as nat;
            let d = pow2(y as nat);
            let p = pow2(k as nat);
            lemma_pow2_pos(y as nat);
            lemma_pow2_pos(k as nat);
            assert(n == sig * (d * p) + 0) by (nonlinear_arith) requires n == sig * p * d;
            assert(0 < d * p) by (nonlinear_arith) requires d > 0, p > 0;
            lemma_round24(n, d, k as nat, sig as nat, 0);
        }
        return pack(sig as u32, k);
    }
    proof {
        lemma_scaled(m as nat, x as nat, y as nat, j as nat, q as nat, rem as nat, k as nat);
    }
    let sig: u128 = if 2 * rem > step || (2 * rem == step && q % 2 == 1) {
        q + 1
    } else {
        q
    };
    pack(sig as u32, k)
}

pub(crate) proof fn lemma_round_zero(d: nat)
    requires
        d > 0,
    ensures
        round24(0, d) == 0,
{
    lemma2_to64();
    assert(0 * (d * pow2(0)) == 0) by (nonlinear_arith);
    assert(0 < d * pow2(0));
    lemma_round24(0, d, 0, 0, 0);
}

/// Two values that lie between the same multiples of a fine enough power of
/// two round alike; `c` is a factor that both sides of the quotients share.
proof fn lemma_same_cell(n1: nat, n2: nat, c: nat, y: nat, t: nat, s: nat)
    requires
        0 < c,
        0x400_0000 <= t,
        t * (c * pow2(s)) < n1 < (t + 1) * (c * pow2(s)),
        t * (c * pow2(s)) < n2 < (t + 1) * (c * pow2(s)),
    ensures
        round24(n1, c * pow2(y)) == round24(n2, c * pow2(y)),
{
    let d = c * pow2(y);
    let g = c * pow2(s);
    let m = n1 / d;
    let k = excess_bits(m);
    lemma2_to64();
    lemma_pow2_pos(y);
    lemma_pow2_pos(s);
    lemma_pow2_pos(k);
    assert(d > 0 && g > 0) by (nonlinear_arith)
        requires c > 0, pow2(y) > 0, pow2(s) > 0, d == c * pow2(y), g == c * pow2(s);
    lemma_excess_range(m);
    lemma_fundamental_div_mod(n1 as int, d as int);
    lemma_mod_pos_bound(n1 as int, d as int);
    lemma_pow2_adds(k, y);
    let step = c * pow2(k + y);
    assert(step == d * pow2(k)) by (nonlinear_arith)
        requires step == c * pow2(k + y), pow2(k + y) == pow2(k) * pow2(y), d == c * pow2(y);
    assert(n1 < 0x100_0000 * step) by (nonlinear_arith)
        requires n1 == d * m + n1 % d, n1 % d < d, m < 0x100_0000 * pow2(k), step == d * pow2(k), d > 0;
    assert(k > 0 ==> 0x80_0000 * step <= n1) by (nonlinear_arith)
        requires
            n1 == d * m + n1 % d,
            0 <= n1 % d,
            k > 0 ==> 0x80_0000 * pow2(k) <= m,
            step == d * pow2(k),
            d > 0;
    assert(s + 2 < k + y) by {
        if k + y <= s + 2 {
            lemma_pow2_adds(2, s);
            if k + y < s + 2 {
                lemma_pow2_strictly_increases(k + y, s + 2);
            }
            assert(step <= 4 * g) by (nonlinear_arith)
                requires step == c * pow2(k + y), pow2(k + y) <= 4 * pow2(s), g == c * pow2(s), c > 0;
            assert(0x400_0000 * g <= t * g) by (nonlinear_arith) requires 0x400_0000 <= t, g > 0;
        }
    }
    let e = (k + y - 1) as nat;
    let half = c * pow2(e);
    lemma_pow2_unfold(k + y);
    assert(step == 2 * half) by (nonlinear_arith)
        requires step == c * pow2(k + y), pow2(k + y) == 2 * pow2(e), half == c * pow2(e);
    let w = pow2((e - s) as nat);
    lemma_pow2_adds((e - s) as nat, s);
    lemma_pow2_pos((e - s) as nat);
    assert(half == w * g) by (nonlinear_arith)
        requires half == c * pow2(e), pow2(e) == w * pow2(s), g == c * pow2(s);
    assert(half > 0) by (nonlinear_arith) requires half == w * g, w > 0, g > 0;
    let h = t / w;
    lemma_fundamental_div_mod(t as int, w as int);
    lemma_mod_pos_bound(t as int, w as int);
    assert(h * half <= t * g && (t + 1) * g <= (h + 1) * half) by (nonlinear_arith)
        requires t == w * h + t % w, 0 <= t % w < w, half == w * g, g > 0;
    let q = h / 2;
    assert(n1 < (h + 1) * half && h * half < n1);
    assert(n2 < (h + 1) * half && h * half < n2);
    assert(h < 0x200_0000) by (nonlinear_arith)
        requires h * half < n1, n1 < 0x100_0000 * step, step == 2 * half, half > 0;
    assert(k > 0 ==> h >= 0x100_0000) by (nonlinear_arith)
        requires n1 < (h + 1) * half, k > 0 ==> 0x80_0000 * step <= n1, step == 2 * half, half > 0;
    assert(q * step + (h % 2) * half == h * half) by (nonlinear_arith) requires step == 2 * half, h == 2 * q + h % 2;
    assert((h + 1) * half == h * half + half) by (nonlinear_arith);
    assert((h % 2) * half == (if h % 2 == 1 {
        half
    } else {
        0
    }));
    lemma_round24(n1, d, k, q, (n1 - q * step) as nat);
    lemma_round24(n2, d, k, q, (n2 - q * step) as nat);
}

/// A factor that numerator and denominator share has no influence.
proof fn lemma_round_common(n: nat, d: nat, c: nat)
    requires
        0 < c,
        0 < d,
    ensures
        round24(n * c, d * c) == round24(n, d),
{
    let k = excess_bits(n / d);
    let p = pow2(k);
    lemma_pow2_pos(k);
    let step = d * p;
    assert(step > 0) by (nonlinear_arith) requires step == d * p, d > 0, p > 0;
    let (q, r) = (n / step, n % step);
    lemma_fundamental_div_mod(n as int, step as int);
    lemma_mod_pos_bound(n as int, step as int);
    lemma_div_denominator(n as int, d as int, p as int);
    lemma_excess_range(n / d);
    lemma_fundamental_div_mod((n / d) as int, p as int);
    lemma_mod_pos_bound((n / d) as int, p as int);
    let m = n / d;
    assert(q < 0x100_0000) by (nonlinear_arith) requires m == p * q + m % p, 0 <= m % p, m < 0x100_0000 * p, p > 0;
    assert(k > 0 ==> 0x80_0000 <= q) by (nonlinear_arith)
        requires m == p * q + m % p, m % p < p, k > 0 ==> 0x80_0000 * p <= m, p > 0;
    let step2 = (d * c) * p;
    assert(step2 == step * c) by (nonlinear_arith) requires step == d * p, step2 == (d * c) * p;
    assert(n * c == q * step2 + r * c) by (nonlinear_arith) requires n == step * q + r, step2 == step * c;
    assert(r * c < step2) by (nonlinear_arith) requires r < step, c > 0, step2 == step * c;
    assert(2 * (r * c) > step2 <==> 2 * r > step) by (nonlinear_arith) requires c > 0, step2 == step * c;
    assert(2 * (r * c) == step2 <==> 2 * r == step) by (nonlinear_arith) requires c > 0, step2 == step * c;
    assert(d * c > 0) by (nonlinear_arith) requires d > 0, c > 0;
    lemma_round24(n * c, d * c, k, q, r * c);
}

impl Binary32 {
    /// The significand and the power of two that make up a finite number.
    fn parts(self) -> (r: (u32, u32))
        requires
            self.finite(),
        ensures
            self.abs_units() == r.0 * pow2(r.1 as nat),
            r.0 < 0x100_0000,
            r.1 <= 253,
            r.0 == 0 <==> self.zero(),
            r.0 == 0 <==> self.abs_units() == 0,
    {
        let exp: u32 = self.bits % 0x8000_0000 / 0x80_0000;
        let frac: u32 = self.bits % 0x80_0000;
        proof {
            assert(self.bits % 0x8000_0000 % 0x80_0000 == self.bits % 0x80_0000);
            lemma2_to64();
        }
        if exp == 0 {
            assert(frac * pow2(0) == frac) by (nonlinear_arith)
                requires pow2(0) == 1;
            (frac, 0)
        } else {
            proof {
                lemma_pow2_pos((exp - 1) as nat);
                assert((frac + 0x80_0000) * pow2((exp - 1) as nat) > 0) by (nonlinear_arith)
                    requires pow2((exp - 1) as nat) > 0, frac >= 0;
            }
            (frac + 0x80_0000, exp - 1)
        }
    }

    /// The rounded product.
    #[verifier::opaque]
    pub open spec fn product(self, other: Binary32) -> Binary32 {
        let negative = self.sign_bit() != other.sign_bit();
        if self.nan() || other.nan() || (self.infinite() && other.zero()) || (self.zero() && other.infinite()) {
            Binary32 { bits: NAN_BITS }
        } else if self.infinite() || other.infinite() {
            (Binary32 { bits: INFINITY_BITS }).signed(negative)
        } else {
            rounded(self.abs_units() * other.abs_units(), pow2(149)).signed(negative)
        }
    }

    pub fn times(self, other: Binary32) -> (r: Binary32)
        ensures
            r == self.product(other),
            self.finite() && other.finite() ==> !r.nan(),
    {
        proof {
            reveal(Binary32::product);
        }
        let negative: bool = (self.bits >= 0x8000_0000) != (other.bits >= 0x8000_0000);
        let a: u32 = self.bits % 0x8000_0000;
        let b: u32 = other.bits % 0x8000_0000;
        if a > INFINITY_BITS || b > INFINITY_BITS || (a == INFINITY_BITS && b == 0) || (a == 0 && b == INFINITY_BITS) {
            return Binary32 { bits: NAN_BITS };
        }
        if a == INFINITY_BITS || b == INFINITY_BITS {
            return Binary32 { bits: INFINITY_BITS }.with_sign(negative);
        }
        let (sa, ka) = self.parts();
        let (sb, kb) = other.parts();
        proof {
            lemma_wide(0);
            lemma_parts_product(sa as nat, ka as nat, sb as nat, kb as nat);
        }
        let m: u128 = sa as u128 * sb as u128;
        round_scaled(m, ka + kb, 149).with_sign(negative)
    }
}

/// The product of two scaled significands.
proof fn lemma_parts_product(sa: nat, ka: nat, sb: nat, kb: nat)
    requires
        sa < 0x100_0000,
        sb < 0x100_0000,
    ensures
        (sa * pow2(ka)) * (sb * pow2(kb)) == (sa * sb) * pow2(ka + kb),
        sa * sb < 0x1_0000_0000_0000,
{
    lemma_pow2_adds(ka, kb);
    let (pa, pb) = (pow2(ka), pow2(kb));
    assert((sa * pa) * (sb * pb) == (sa * sb) * (pa * pb)) by (nonlinear_arith);
    assert(sa * sb < 0x1_0000_0000_0000) by (nonlinear_arith) requires 0 <= sa < 0x100_0000, 0 <= sb < 0x100_0000;
}

/// Two values of the same sign, or the larger and the smaller of two, put together.
pub open spec fn combined(a: nat, b: nat, apart: bool) -> nat {
    if apart {
        (if a >= b {
            a - b
        } else {
            b - a
        }) as nat
    } else {
        a + b
    }
}

/// The sum or difference of `m1 * 2^x1` and `m2 * 2^x2`, over `2^y`, where the
/// second is far below the last bit that matters of the first.
fn round_dominated(m1: u64, x1: u32, m2: u64, x2: u32, apart: bool, y: u32) -> (r: Binary32)
    requires
        0 < m1 < 0x1_0000_0000_0000,
        0 < m2,
        x1 <= 1000,
        y <= 1000,
        40 < x1,
        m2 * pow2(x2 as nat) < pow2((x1 - 40) as nat),
    ensures
        r == rounded(combined((m1 * pow2(x1 as nat)) as nat, (m2 * pow2(x2 as nat)) as nat, apart), pow2(y as nat)),
        combined((m1 * pow2(x1 as nat)) as nat, (m2 * pow2(x2 as nat)) as nat, apart) > 0,
        m1 * pow2(x1 as nat) > m2 * pow2(x2 as nat),
        !r.sign_bit(),
        !r.nan(),
{
    let top: u128 = m1 as u128 * 0x100_0000_0000;
    let m: u128 = if apart {
        2 * top - 1
    } else {
        2 * top + 1
    };
    proof {
        lemma2_to64();
        lemma_wide(0);
        let s = (x1 - 40) as nat;
        let g = pow2(s);
        let small = (m2 * pow2(x2 as nat)) as nat;
        let big = (m1 * pow2(x1 as nat)) as nat;
        lemma_pow2_pos(x2 as nat);
        lemma_pow2_pos(s);
        assert(pow2(40) == 0x100_0000_0000) by {
            lemma_pow2_adds(32, 8);
        }
        lemma_pow2_adds(40, s);
        lemma_pow2_unfold(s);
        assert(small > 0) by (nonlinear_arith) requires small == m2 * pow2(x2 as nat), m2 > 0, pow2(x2 as nat) > 0;
        assert(big == top * g) by (nonlinear_arith)
            requires big == m1 * pow2(x1 as nat), pow2(x1 as nat) == 0x100_0000_0000 * g, top == m1 * 0x100_0000_0000;
        assert(top * g >= g) by (nonlinear_arith) requires top >= 1, g > 0;
        let h = pow2((s - 1) as nat);
        let t = (if apart {
            top - 1
        } else {
            top as int
        }) as nat;
        assert(t * g < combined(big, small, apart) < (t + 1) * g) by (nonlinear_arith)
            requires
                big == top * g,
                0 < small < g,
                apart ==> t == top - 1 && combined(big, small, apart) == big - small,
                !apart ==> t == top && combined(big, small, apart) == big + small;
        assert(t * g < m * h < (t + 1) * g) by (nonlinear_arith)
            requires m == 2 * t + 1, g == 2 * h, h > 0;
        assert(1 * g == g && 1 * pow2(y as nat) == pow2(y as nat));
        lemma_same_cell(combined(big, small, apart), (m * h) as nat, 1, y as nat, t, s);
    }
    round_scaled(m, x1 - 41, y)
}

/// The exact value `s / d`, in units of 2^-149, rounded to binary32; zero gets
/// the given sign.
pub open spec fn signed_rounded(s: int, d: nat, negative_zero: bool) -> Binary32 {
    if s == 0 {
        (Binary32 { bits: 0 }).signed(negative_zero)
    } else if s < 0 {
        rounded((-s) as nat, d).signed(true)
    } else {
        rounded(s as nat, d).signed(false)
    }
}

pub open spec fn signed_value(negative: bool, v: nat) -> int {
    if negative {
        -(v as int)
    } else {
        v as int
    }
}

/// The sum of two signed values `m * 2^x`, over `2^y`, rounded to binary32.
fn round_sum(neg1: bool, m1: u64, x1: u32, neg2: bool, m2: u64, x2: u32, y: u32) -> (r: Binary32)
    requires
        m1 < 0x1_0000_0000_0000,
        m2 < 0x100_0000,
        x1 <= 600,
        x2 <= 600,
        y <= 1000,
    ensures
        r == signed_rounded(
            signed_value(neg1, (m1 * pow2(x1 as nat)) as nat) + signed_value(neg2, (m2 * pow2(x2 as nat)) as nat),
            pow2(y as nat),
            neg1 && neg2,
        ),
{
    let ghost v1 = (m1 * pow2(x1 as nat)) as nat;
    let ghost v2 = (m2 * pow2(x2 as nat)) as nat;
    proof {
        lemma2_to64();
        lemma_wide(112);
        lemma_pow2_unfold(113);
        lemma_pow2_strictly_increases(113, 120);
        lemma_pow2_adds(32, 16);
        lemma_pow2_adds(48, 64);
        lemma_pow2_adds(24, 88);
        lemma_pow2_pos(x1 as nat);
        lemma_pow2_pos(x2 as nat);
        assert(m1 == 0 <==> v1 == 0) by (nonlinear_arith) requires v1 == m1 * pow2(x1 as nat), pow2(x1 as nat) > 0;
        assert(m2 == 0 <==> v2 == 0) by (nonlinear_arith) requires v2 == m2 * pow2(x2 as nat), pow2(x2 as nat) > 0;
    }
    let apart: bool = neg1 != neg2;
    if m1 == 0 && m2 == 0 {
        return Binary32 { bits: 0 }.with_sign(neg1 && neg2);
    }
    if m2 == 0 {
        return round_scaled(m1 as u128, x1, y).with_sign(neg1);
    }
    if m1 == 0 {
        return round_scaled(m2 as u128, x2, y).with_sign(neg2);
    }
    let a: u128;
    let b: u128;
    let x: u32;
    if x1 >= x2 {
        let gap: u32 = x1 - x2;
        if gap > 64 {
            proof {
                let s = (x1 - 41) as nat;
                lemma_pow2_adds(24, x2 as nat);
                if x2 + 24 < s {
                    lemma_pow2_strictly_increases((x2 + 24) as nat, s);
                }
                lemma_pow2_strictly_increases(s, (x1 - 40) as nat);
                assert(m2 * pow2(x2 as nat) < 0x100_0000 * pow2(x2 as nat)) by (nonlinear_arith)
                    requires m2 < 0x100_0000, pow2(x2 as nat) > 0;
            }
            return round_dominated(m1, x1, m2, x2, apart, y).with_sign(neg1);
        }
        let step: u128 = wide_power(gap);
        proof {
            lemma_aligned(m1 as nat, x1 as nat, x2 as nat, 0x1_0000_0000_0000, 64);
        }
        a = m1 as u128 * step;
        b = m2 as u128;
        x = x2;
    } else {
        let gap: u32 = x2 - x1;
        if gap > 88 {
            proof {
                let s = (x2 - 41) as nat;
                lemma_pow2_adds(48, x1 as nat);
                if x1 + 48 < s {
                    lemma_pow2_strictly_increases((x1 + 48) as nat, s);
                }
                lemma_pow2_strictly_increases(s, (x2 - 40) as nat);
                assert(m1 * pow2(x1 as nat) < 0x1_0000_0000_0000 * pow2(x1 as nat)) by (nonlinear_arith)
                    requires m1 < 0x1_0000_0000_0000, pow2(x1 as nat) > 0;
            }
            return round_dominated(m2, x2, m1, x1, apart, y).with_sign(neg2);
        }
        let step: u128 = wide_power(gap);
        proof {
            lemma_aligned(m2 as nat, x2 as nat, x1 as nat, 0x100_0000, 88);
        }
        a = m1 as u128;
        b = m2 as u128 * step;
        x = x1;
    }
    let ghost p = pow2(x as nat);
    proof {
        lemma_pow2_pos(x as nat);
        assert(v1 == a * p && v2 == b * p);
    }
    if !apart {
        assert((a + b) * p == a * p + b * p) by (nonlinear_arith);
        assert((a + b) * p > 0) by (nonlinear_arith) requires a > 0, p > 0, b >= 0;
        round_scaled(a + b, x, y).with_sign(neg1)
    } else if a == b {
        Binary32 { bits: 0 }
    } else if a > b {
        assert((a - b) * p == a * p - b * p) by (nonlinear_arith);
        assert((a - b) * p > 0) by (nonlinear_arith) requires a > b, p > 0;
        round_scaled(a - b, x, y).with_sign(neg1)
    } else {
        assert((b - a) * p == b * p - a * p) by (nonlinear_arith);
        assert((b - a) * p > 0) by (nonlinear_arith) requires b > a, p > 0;
        round_scaled(b - a, x, y).with_sign(neg2)
    }
}

/// A significand moved to a lower power of two.
proof fn lemma_aligned(m: nat, x: nat, low: nat, bound: nat, most: nat)
    requires
        low <= x <= low + most,
        0 < m < bound,
        most <= 120,
        bound * pow2(most) <= pow2(112),
    ensures
        m * pow2(x) == (m * pow2((x - low) as nat)) * pow2(low),
        0 < m * pow2((x - low) as nat) < pow2(112),
{
    let gap = (x - low) as nat;
    lemma_pow2_adds(gap, low);
    lemma_mul_is_associative(m as int, pow2(gap) as int, pow2(low) as int);
    lemma_pow2_pos(gap);
    if gap < most {
        lemma_pow2_strictly_increases(gap, most);
    }
    assert(0 < m * pow2(gap) < bound * pow2(most)) by (nonlinear_arith)
        requires 0 < m < bound, 0 < pow2(gap) <= pow2(most);
}

impl Binary32 {
    /// The rounded sum.
    #[verifier::opaque]
    pub open spec fn sum(self, other: Binary32) -> Binary32 {
        if self.nan() || other.nan() || (self.infinite() && other.infinite() && self.sign_bit() != other.sign_bit()) {
            Binary32 { bits: NAN_BITS }
        } else if self.infinite() {
            self
        } else if other.infinite() {
            other
        } else {
            signed_rounded(self.units() + other.units(), 1, self.sign_bit() && other.sign_bit())
        }
    }

    pub fn plus(self, other: Binary32) -> (r: Binary32)
        ensures
            r == self.sum(other),
    {
        proof {
            reveal(Binary32::sum);
        }
        let neg1: bool = self.bits >= 0x8000_0000;
        let neg2: bool = other.bits >= 0x8000_0000;
        let a: u32 = self.bits % 0x8000_0000;
        let b: u32 = other.bits % 0x8000_0000;
        if a > INFINITY_BITS || b > INFINITY_BITS || (a == INFINITY_BITS && b == INFINITY_BITS && neg1 != neg2) {
            return Binary32 { bits: NAN_BITS };
        }
        if a == INFINITY_BITS {
            return self;
        }
        if b == INFINITY_BITS {
            return other;
        }
        let (sa, ka) = self.parts();
        let (sb, kb) = other.parts();
        proof {
            lemma2_to64();
        }
        round_sum(neg1, sa as u64, ka, neg2, sb as u64, kb, 0)
    }

    /// The rounded difference.
    pub open spec fn difference(self, other: Binary32) -> Binary32 {
        self.sum(other.signed(!other.sign_bit()))
    }

    pub fn minus(self, other: Binary32) -> (r: Binary32)
        ensures
            r == self.difference(other),
    {
        self.plus(other.with_sign(other.bits < 0x8000_0000))
    }

    /// The product with `factor` plus `term`, rounded once.
    #[verifier::opaque]
    pub open spec fn fused(self, factor: Binary32, term: Binary32) -> Binary32 {
        let negative = self.sign_bit() != factor.sign_bit();
        if self.nan() || factor.nan() || term.nan() || (self.infinite() && factor.zero()) || (self.zero()
            && factor.infinite()) {
            Binary32 { bits: NAN_BITS }
        } else if self.infinite() || factor.infinite() {
            if term.infinite() && term.sign_bit() != negative {
                Binary32 { bits: NAN_BITS }
            } else {
                (Binary32 { bits: INFINITY_BITS }).signed(negative)
            }
        } else if term.infinite() {
            term
        } else {
            signed_rounded(
                self.units() * factor.units() + term.units() * pow2(149),
                pow2(149),
                negative && term.sign_bit(),
            )
        }
    }

    pub fn times_plus(self, factor: Binary32, term: Binary32) -> (r: Binary32)
        ensures
            r == self.fused(factor, term),
    {
        proof {
            reveal(Binary32::fused);
        }
        let negative: bool = (self.bits >= 0x8000_0000) != (factor.bits >= 0x8000_0000);
        let neg2: bool = term.bits >= 0x8000_0000;
        let a: u32 = self.bits % 0x8000_0000;
        let b: u32 = factor.bits % 0x8000_0000;
        let c: u32 = term.bits % 0x8000_0000;
        if a > INFINITY_BITS || b > INFINITY_BITS || c > INFINITY_BITS || (a == INFINITY_BITS && b == 0) || (a == 0 && b
            == INFINITY_BITS) {
            return Binary32 { bits: NAN_BITS };
        }
        if a == INFINITY_BITS || b == INFINITY_BITS {
            if c == INFINITY_BITS && neg2 != negative {
                return Binary32 { bits: NAN_BITS };
            }
            return Binary32 { bits: INFINITY_BITS }.with_sign(negative);
        }
        if c == INFINITY_BITS {
            return term;
        }
        let (sa, ka) = self.parts();
        let (sb, kb) = factor.parts();
        let (sc, kc) = term.parts();
        proof {
            lemma_parts_product(sa as nat, ka as nat, sb as nat, kb as nat);
            lemma_pow2_adds(kc as nat, 149);
            lemma_mul_is_associative(sc as int, pow2(kc as nat) as int, pow2(149) as int);
            lemma_signed_product(self, factor);
            let (u, p) = (term.abs_units() as int, pow2(149) as int);
            assert((-u) * p == -(u * p)) by (nonlinear_arith);
        }
        round_sum(negative, sa as u64 * sb as u64, ka + kb, neg2, sc as u64, kc + 149, 149)
    }
}

/// The product of two values and of their absolute values.
pub(crate) proof fn lemma_signed_product(a: Binary32, b: Binary32)
    ensures
        a.units() * b.units() == signed_value(a.sign_bit() != b.sign_bit(), a.abs_units() * b.abs_units()),
{
    let (x, y) = (a.abs_units() as int, b.abs_units() as int);
    assert((-x) * y == -(x * y) && x * (-y) == -(x * y) && (-x) * (-y) == x * y) by (nonlinear_arith);
}

/// The largest whole number whose square is not above `n`.
pub open spec fn floor_sqrt(n: nat) -> nat {
    choose|s: nat| is_floor_sqrt(s, n)
}

pub open spec fn is_floor_sqrt(s: nat, n: nat) -> bool {
    s * s <= n < (s + 1) * (s + 1)
}

pub(crate) proof fn lemma_floor_sqrt(n: nat)
    ensures
        is_floor_sqrt(floor_sqrt(n), n),
    decreases n,
{
    if n == 0 {
        assert((0nat + 1) * (0nat + 1) == 1 && 0nat * 0nat == 0) by (nonlinear_arith);
        assert(is_floor_sqrt(0, n));
    } else {
        lemma_floor_sqrt((n - 1) as nat);
        let s = floor_sqrt((n - 1) as nat);
        if n < (s + 1) * (s + 1) {
            assert(is_floor_sqrt(s, n));
        } else {
            let t = s + 1;
            assert(t * t < (t + 1) * (t + 1)) by (nonlinear_arith) requires t >= 0;
            assert(is_floor_sqrt(t, n));
        }
    }
}

/// The rounded square root of a number of units, in units: the root lies at the
/// whole number `s` or strictly between it and the next one.
pub open spec fn root_units(units: nat) -> nat {
    let n = units * pow2(149);
    let s = floor_sqrt(n);
    round24(2 * s + (if s * s < n {
        1nat
    } else {
        0nat
    }), 2)
}

fn integer_sqrt(n: u128) -> (r: u64)
    requires
        n < 0x40_0000_0000_0000_0000_0000,
    ensures
        r * r <= n < (r + 1) * (r + 1),
        r < 0x800_0000_0000,
{
    let mut low: u64 = 0;
    let mut high: u64 = 0x800_0000_0000;
    assert(0x800_0000_0000 * 0x800_0000_0000 == 0x40_0000_0000_0000_0000_0000) by (nonlinear_arith);
    while high - low > 1
        invariant
            low < high <= 0x800_0000_0000,
            low * low <= n < high * high,
        decreases high - low,
    {
        let mid: u64 = low + (high - low) / 2;
        proof {
            assert(mid * mid <= 0x800_0000_0000 * 0x800_0000_0000) by (nonlinear_arith)
                requires 0 <= mid <= 0x800_0000_0000;
        }
        if mid as u128 * mid as u128 <= n {
            low = mid;
        } else {
            high = mid;
        }
    }
    low
}

impl Binary32 {
    /// The rounded quotient.
    #[verifier::opaque]
    pub open spec fn quotient(self, other: Binary32) -> Binary32 {
        let negative = self.sign_bit() != other.sign_bit();
        if self.nan() || other.nan() || (self.infinite() && other.infinite()) || (self.zero() && other.zero()) {
            Binary32 { bits: NAN_BITS }
        } else if self.infinite() || other.zero() {
            (Binary32 { bits: INFINITY_BITS }).signed(negative)
        } else if other.infinite() {
            (Binary32 { bits: 0 }).signed(negative)
        } else {
            rounded(self.abs_units() * pow2(149), other.abs_units()).signed(negative)
        }
    }

    pub fn over(self, other: Binary32) -> (r: Binary32)
        ensures
            r == self.quotient(other),
    {
        proof {
            reveal(Binary32::quotient);
        }
        let negative: bool = (self.bits >= 0x8000_0000) != (other.bits >= 0x8000_0000);
        let a: u32 = self.bits % 0x8000_0000;
        let b: u32 = other.bits % 0x8000_0000;
        if a > INFINITY_BITS || b > INFINITY_BITS || (a == INFINITY_BITS && b == INFINITY_BITS) || (a == 0 && b == 0) {
            return Binary32 { bits: NAN_BITS };
        }
        if a == INFINITY_BITS || b == 0 {
            return Binary32 { bits: INFINITY_BITS }.with_sign(negative);
        }
        if b == INFINITY_BITS {
            return Binary32 { bits: 0 }.with_sign(negative);
        }
        let (sa, ka) = self.parts();
        let (sb, kb) = other.parts();
        let num: u128 = sa as u128 * 0x1000_0000_0000_0000;
        let m: u128 = num / sb as u128;
        let rem: u128 = num % sb as u128;
        proof {
            lemma2_to64();
            lemma_wide(0);
            lemma_division(sa as nat, ka as nat, sb as nat, kb as nat, m as nat, rem as nat);
        }
        if rem == 0 {
            round_scaled(m, ka + 89, kb).with_sign(negative)
        } else {
            round_scaled(2 * m + 1, ka + 88, kb).with_sign(negative)
        }
    }

    /// The rounded square root.
    #[verifier::opaque]
    pub open spec fn root(self) -> Binary32 {
        if self.nan() || (self.sign_bit() && !self.zero()) {
            Binary32 { bits: NAN_BITS }
        } else if self.zero() || self.infinite() {
            self
        } else {
            with_units(root_units(self.abs_units()))
        }
    }

    pub fn square_root(self) -> (r: Binary32)
        ensures
            r == self.root(),
    {
        proof {
            reveal(Binary32::root);
        }
        let a: u32 = self.bits % 0x8000_0000;
        if a > INFINITY_BITS || (self.bits >= 0x8000_0000 && a != 0) {
            return Binary32 { bits: NAN_BITS };
        }
        if a == 0 || a == INFINITY_BITS {
            return self;
        }
        let (sig, k) = self.parts();
        let wide: u128 = if k % 2 == 1 {
            sig as u128 * 0x1000_0000_0000_0000
        } else {
            sig as u128 * 0x2000_0000_0000_0000
        };
        let f: u32 = if k % 2 == 1 {
            (k + 89) / 2
        } else {
            (k + 88) / 2
        };
        let m: u64 = integer_sqrt(wide);
        proof {
            lemma2_to64();
            lemma_wide(0);
            lemma_root(sig as nat, k as nat, wide as nat, f as nat, m as nat);
        }
        if m as u128 * m as u128 == wide {
            round_scaled(m as u128, f, 0)
        } else {
            round_scaled(2 * m as u128 + 1, f, 1)
        }
    }
}

/// The root of a scaled significand, cut after thirty more bits.
proof fn lemma_root(sig: nat, k: nat, wide: nat, f: nat, m: nat)
    requires
        0 < sig < 0x100_0000,
        k <= 253,
        k % 2 == 1 ==> wide == sig * 0x1000_0000_0000_0000 && 2 * f == k + 89,
        k % 2 == 0 ==> wide == sig * 0x2000_0000_0000_0000 && 2 * f == k + 88,
        m * m <= wide < (m + 1) * (m + 1),
        m < 0x800_0000_0000,
    ensures
        ({
            let units = root_units(sig * pow2(k));
            &&& units < pow2(277)
            &&& m * m == wide ==> units == round24(m * pow2(f), pow2(0))
            &&& m * m != wide ==> units == round24((2 * m + 1) * pow2(f), pow2(1))
        }),
{
    let n = (sig * pow2(k)) * pow2(149);
    let s = floor_sqrt(n);
    let p = pow2(f);
    lemma_floor_sqrt(n);
    lemma2_to64();
    lemma_pow2_pos(f);
    assert(n == wide * (p * p)) by {
        lemma_pow2_adds(f, f);
        lemma_pow2_adds(k, 149);
        lemma_mul_is_associative(sig as int, pow2(k) as int, pow2(149) as int);
        lemma_pow2_adds(32, 28);
        lemma_pow2_adds(32, 29);
        if k % 2 == 1 {
            lemma_pow2_adds(60, f + f);
            lemma_mul_is_associative(sig as int, pow2(60) as int, pow2(f + f) as int);
        } else {
            lemma_pow2_adds(61, f + f);
            lemma_mul_is_associative(sig as int, pow2(61) as int, pow2(f + f) as int);
        }
    }
    let low = m * p;
    let high = (m + 1) * p;
    assert(low * low == (m * m) * (p * p)) by (nonlinear_arith) requires low == m * p;
    assert(high * high == ((m + 1) * (m + 1)) * (p * p)) by (nonlinear_arith) requires high == (m + 1) * p;
    assert(p * p > 0) by (nonlinear_arith) requires p > 0;
    assert(low * low <= n < high * high) by (nonlinear_arith)
        requires
            n == wide * (p * p),
            low * low == (m * m) * (p * p),
            high * high == ((m + 1) * (m + 1)) * (p * p),
            m * m <= wide < (m + 1) * (m + 1),
            p * p > 0;
    assert(low <= s) by (nonlinear_arith) requires low * low <= n, n < (s + 1) * (s + 1), s >= 0, low >= 0;
    assert(s < high) by (nonlinear_arith) requires s * s <= n, n < high * high, s >= 0, high >= 0;
    let jam: nat = if s * s < n {
        1
    } else {
        0
    };
    let shown = 2 * s + jam;
    if m * m == wide {
        assert(low * low == n);
        assert(s == low) by (nonlinear_arith) requires low * low == n, s * s <= n, low <= s, low >= 0;
        assert(shown == low * 2);
        lemma_round_common(low, 1, 2);
    } else {
        assert(low * low < n) by (nonlinear_arith)
            requires n == wide * (p * p), low * low == (m * m) * (p * p), m * m < wide, p * p > 0;
        assert(2 * low < shown < 2 * high);
        lemma_pow2_unfold(f + 1);
        let g = pow2(f + 1);
        assert(m * (1 * g) == 2 * low && (m + 1) * (1 * g) == 2 * high) by (nonlinear_arith)
            requires g == 2 * p, low == m * p, high == (m + 1) * p;
        let other = (2 * m + 1) * p;
        assert(2 * low < other < 2 * high) by (nonlinear_arith)
            requires other == (2 * m + 1) * p, low == m * p, high == (m + 1) * p, p > 0;
        assert(0x400_0000 <= m) by (nonlinear_arith) requires wide >= 0x1000_0000_0000_0000, wide < (m + 1) * (m + 1), m >= 0;
        assert(1 * pow2(1) == 2);
        lemma_same_cell(shown, other, 1, 1, m, f + 1);
    }
    assert(shown / 2 < pow2(276)) by {
        lemma_pow2_adds(32, 11);
        lemma_pow2_adds(43, f);
        lemma_pow2_strictly_increases(43 + f, 276);
        assert(high <= 0x800_0000_0000 * p) by (nonlinear_arith)
            requires high == (m + 1) * p, m + 1 <= 0x800_0000_0000, p > 0;
    }
    lemma_round_bound(shown, 2, 277);
}

/// Rounding stays below a power of two that is far enough above.
pub(crate) proof fn lemma_round_bound(n: nat, d: nat, e: nat)
    requires
        0 < d,
        n / d < pow2((e - 1) as nat),
        25 <= e,
    ensures
        round24(n, d) < pow2(e),
{
    let k = excess_bits(n / d);
    let p = pow2(k);
    lemma_pow2_pos(k);
    lemma_pow2_unfold(e);
    lemma2_to64();
    lemma_div_denominator(n as int, d as int, p as int);
    lemma_excess_range(n / d);
    let m = n / d;
    let q = m / p;
    lemma_fundamental_div_mod(m as int, p as int);
    lemma_mod_pos_bound(m as int, p as int);
    assert(round24(n, d) <= (q + 1) * p) by (nonlinear_arith)
        requires
            round24(n, d) == q * p || round24(n, d) == (q + 1) * p,
            p > 0;
    if k == 0 {
        if e > 25 {
            lemma_pow2_strictly_increases(25, e);
        }
        lemma_pow2_unfold(25);
        assert((q + 1) * p <= 0x100_0000) by (nonlinear_arith) requires p == 1, m == p * q + m % p, m < 0x100_0000 * p, 0 <= m % p;
    } else {
        assert((q + 1) * p <= m + p) by (nonlinear_arith) requires m == p * q + m % p, 0 <= m % p;
        assert(p <= m) by (nonlinear_arith) requires 0x80_0000 * p <= m, p >= 0;
    }
}

/// The quotient of two scaled significands, cut after sixty more bits.
proof fn lemma_division(sa: nat, ka: nat, sb: nat, kb: nat, m: nat, rem: nat)
    requires
        sa < 0x100_0000,
        0 < sb < 0x100_0000,
        m == (sa * 0x1000_0000_0000_0000) / sb,
        rem == (sa * 0x1000_0000_0000_0000) % sb,
    ensures
        m < 0x10_0000_0000_0000_0000_0000,
        ({
            let n = (sa * pow2(ka)) * pow2(149);
            let d = sb * pow2(kb);
            if rem == 0 {
                round24(n, d) == round24(m * pow2(ka + 89), pow2(kb))
            } else {
                sa > 0 ==> round24(n, d) == round24((2 * m + 1) * pow2(ka + 88), pow2(kb))
            }
        }),
{
    let num = sa * 0x1000_0000_0000_0000;
    let n = (sa * pow2(ka)) * pow2(149);
    let d = sb * pow2(kb);
    lemma_fundamental_div_mod(num as int, sb as int);
    lemma_mod_pos_bound(num as int, sb as int);
    assert(m <= num) by (nonlinear_arith) requires num == sb * m + rem, 0 <= rem, sb >= 1, m >= 0;
    lemma2_to64();
    lemma_pow2_adds(32, 28);
    lemma_pow2_adds(60, 89);
    lemma_pow2_adds(ka, 89);
    lemma_pow2_unfold(ka + 89);
    lemma_pow2_pos(kb);
    lemma_pow2_pos(ka + 88);
    let h = pow2(ka + 88);
    let p = pow2(ka + 89);
    assert(n == num * p) by (nonlinear_arith)
        requires
            n == (sa * pow2(ka)) * pow2(149),
            pow2(149) == 0x1000_0000_0000_0000 * pow2(89),
            p == pow2(ka) * pow2(89),
            num == sa * 0x1000_0000_0000_0000;
    lemma_mul_is_commutative(pow2(kb) as int, sb as int);
    if rem == 0 {
        assert(n == (m * p) * sb) by (nonlinear_arith) requires n == num * p, num == sb * m;
        lemma_round_common(m * p, pow2(kb), sb);
    } else if sa > 0 {
        let other = (2 * m + 1) * h;
        lemma_round_common(other, pow2(kb), sb);
        assert(0x400_0000 <= m) by (nonlinear_arith)
            requires num == sb * m + rem, rem < sb, sb < 0x100_0000, num >= 0x1000_0000_0000_0000, m >= 0;
        assert(m * (sb * p) < n < (m + 1) * (sb * p)) by (nonlinear_arith)
            requires n == num * p, num == sb * m + rem, 0 < rem < sb, p > 0;
        assert(m * (sb * p) < other * sb < (m + 1) * (sb * p)) by (nonlinear_arith)
            requires other == (2 * m + 1) * h, p == 2 * h, h > 0, sb > 0;
        lemma_same_cell(n, other * sb, sb, kb, m, ka + 89);
    }
}

/// A number that is already one of binary32 is not changed by rounding.
pub proof fn law_rounding_keeps_exact_values(b: Binary32, d: nat)
    requires
        b.finite(),
        0 < d,
    ensures
        round24(b.abs_units() * d, d) == b.abs_units(),
        rounded(b.abs_units() * d, d) == b.signed(false),
{
    let k: nat = if b.exponent() == 0 {
        0
    } else {
        (b.exponent() - 1) as nat
    };
    let sig: nat = if b.exponent() == 0 {
        b.fraction()
    } else {
        0x80_0000 + b.fraction()
    };
    let p = pow2(k);
    lemma2_to64();
    lemma_pow2_pos(k);
    assert(b.abs_units() == sig * p) by {
        if b.exponent() == 0 {
            assert(sig * p == sig) by (nonlinear_arith)
                requires p == 1;
        }
    }
    let n = b.abs_units() * d;
    assert(n == sig * (d * p) + 0) by (nonlinear_arith)
        requires n == (sig * p) * d;
    assert(0 < d * p) by (nonlinear_arith)
        requires d > 0, p > 0;
    lemma_round24(n, d, k, sig, 0);
    let plain = b.signed(false);
    assert(plain.abs_units() == b.abs_units());
    lemma_with_units(plain);
    let inf = Binary32 { bits: INFINITY_BITS };
    assert(inf.exponent() == 255 && inf.fraction() == 0);
    lemma_pow2_adds(23, 254);
    assert(inf.abs_units() == pow2(277));
    lemma_magnitude_order(b, inf);
}

/// Multiplying by zero and adding `c` gives `c`.
pub proof fn law_fused_with_zero_product(a: Binary32, b: Binary32, c: Binary32)
    requires
        a.finite(),
        b.finite(),
        c.finite(),
        !c.sign_bit(),
        a.units() == 0 || b.units() == 0,
    ensures
        a.fused(b, c) == c,
{
    reveal(Binary32::fused);
    let one = pow2(149);
    lemma_pow2_pos(149);
    assert(a.units() * b.units() == 0) by (nonlinear_arith)
        requires a.units() == 0 || b.units() == 0;
    law_rounding_keeps_exact_values(c, one);
    let v = c.units() * one;
    assert(v == 0 <==> c.units() == 0) by (nonlinear_arith)
        requires v == c.units() * one, one > 0;
    assert(v >= 0) by (nonlinear_arith)
        requires v == c.units() * one, one > 0, c.units() >= 0;
    if v == 0 {
        lemma_with_units(c);
        lemma_with_units(Binary32 { bits: 0 });
    }
}

/// Subtracting a finite number from itself leaves zero.
pub proof fn law_difference_with_itself(a: Binary32)
    requires
        a.finite(),
    ensures
        a.difference(a).finite(),
        a.difference(a).units() == 0,
        a.difference(a) == (Binary32 { bits: 0 }),
{
    reveal(Binary32::sum);
    let b = a.signed(!a.sign_bit());
    assert(b.magnitude() == a.magnitude());
    assert(b.units() == -a.units());
    lemma2_to64();
}

/// Addition is commutative.
pub proof fn law_sum_commutes(a: Binary32, b: Binary32)
    ensures
        a.sum(b) == b.sum(a),
{
    reveal(Binary32::sum);
}

/// Multiplication is commutative.
pub proof fn law_product_commutes(a: Binary32, b: Binary32)
    ensures
        a.product(b) == b.product(a),
{
    reveal(Binary32::product);
    lemma_mul_is_commutative(a.abs_units() as int, b.abs_units() as int);
}

/// What a quotient rounds to is a number.
pub(crate) proof fn lemma_rounded(n: nat, d: nat)
    requires
        0 < d,
    ensures
        !rounded(n, d).nan(),
        !rounded(n, d).sign_bit(),
        round24(n, d) < pow2(277) ==> rounded(n, d).finite() && rounded(n, d).abs_units() == round24(n, d),
{
    let m = n / d;
    let k = excess_bits(m);
    let p = pow2(k);
    let step = d * p;
    lemma_pow2_pos(k);
    lemma2_to64();
    lemma_excess_range(m);
    lemma_div_denominator(n as int, d as int, p as int);
    lemma_fundamental_div_mod(m as int, p as int);
    lemma_mod_pos_bound(m as int, p as int);
    let q = m / p;
    assert(n / step == q);
    assert(q < 0x100_0000) by (nonlinear_arith)
        requires m == p * q + m % p, 0 <= m % p, m < 0x100_0000 * p, p > 0;
    assert(k > 0 ==> 0x80_0000 <= q) by (nonlinear_arith)
        requires m == p * q + m % p, m % p < p, k > 0 ==> 0x80_0000 * p <= m, p > 0;
    let sig: nat = if round24(n, d) == q * p {
        q
    } else {
        q + 1
    };
    assert(round24(n, d) == sig * p);
    lemma_pow2_adds(23, 254);
    if k >= 254 {
        if k > 254 {
            lemma_pow2_strictly_increases(254, k);
        }
        assert(sig * p >= 0x80_0000 * pow2(254)) by (nonlinear_arith)
            requires sig >= 0x80_0000, p >= pow2(254);
    } else {
        lemma_pattern(k, sig);
    }
}

/// The difference of two numbers that are not negative is finite.
pub proof fn law_difference_stays_finite(a: Binary32, b: Binary32)
    requires
        a.finite(),
        b.finite(),
        0 <= a.units() < pow2(276),
        0 <= b.units() < pow2(276),
    ensures
        a.difference(b).finite(),
{
    reveal(Binary32::sum);
    let c = b.signed(!b.sign_bit());
    assert(c.magnitude() == b.magnitude());
    assert(c.units() == -b.units());
    let s = a.units() - b.units();
    let n: nat = if s < 0 {
        (-s) as nat
    } else {
        s as nat
    };
    lemma2_to64();
    if s != 0 {
        assert(n / 1 == n);
        lemma_round_bound(n, 1, 277);
        lemma_rounded(n, 1);
        let r = rounded(n, 1);
        assert(r.signed(s < 0).magnitude() == r.magnitude());
    }
}

} // verus!
