//! Non-negative binary64 ("double") arithmetic, worked out in integers.
//!
//! Every finite non-negative double is a whole number of units of 2^-1074, so
//! the model of a value is that natural number. Each operation of the model
//! computes the exact result and rounds it once, to the nearest double, ties to
//! the even significand. Values stay far below the largest finite double here,
//! so the model has no infinity.
use vstd::arithmetic::div_mod::lemma_fundamental_div_mod;
use vstd::arithmetic::div_mod::lemma_fundamental_div_mod_converse;
use vstd::arithmetic::div_mod::{lemma_div_multiples_vanish, lemma_mod_multiples_basic};
use vstd::arithmetic::mul::lemma_mul_is_associative;
use vstd::arithmetic::mul::lemma_mul_is_commutative;
use vstd::arithmetic::power2::lemma_pow2_adds;
use vstd::arithmetic::power2::lemma_pow2_pos;
use vstd::arithmetic::power2::lemma_pow2_unfold;
use vstd::arithmetic::power2::pow2;
use vstd::prelude::*;

verus! {

/// 2^52, the least significand of a normal double.
pub const LEAST: u64 = 0x10_0000_0000_0000;

/// 2^53, one past the largest significand.
pub const PAST: u64 = 0x20_0000_0000_0000;

/// One, counted in units of 2^-1074.
pub open spec fn one() -> nat {
    pow2(1074)
}

/// The integer nearest to `num / den`, the even one of two equally near.
pub open spec fn round_half_even(num: nat, den: nat) -> nat {
    let q = num / den;
    let r = num % den;
    if 2 * r > den || (2 * r == den && q % 2 == 1) {
        q + 1
    } else {
        q
    }
}

/// The distance between neighbouring doubles at `units`.
pub open spec fn spacing(units: nat) -> nat
    decreases units,
{
    if units < PAST {
        1
    } else {
        2 * spacing(units / 2)
    }
}

/// The double nearest to the exact value `num / den`.
pub open spec fn nearest(num: nat, den: nat) -> nat {
    let g = spacing(num / den);
    g * round_half_even(num, den * g)
}

/// The double that an integer converts to.
pub open spec fn of_int(n: nat) -> nat {
    nearest(n * one(), 1)
}

/// The sum of two doubles.
pub open spec fn sum(a: nat, b: nat) -> nat {
    nearest(a + b, 1)
}

/// The product of two doubles.
pub open spec fn product(a: nat, b: nat) -> nat {
    nearest(a * b, one())
}

/// The quotient of two doubles.
pub open spec fn quotient(a: nat, b: nat) -> nat {
    nearest(a * one(), b)
}

/// A double times `scale`, rounded to an integer: the digits that a fixed
/// number of decimals shows.
pub open spec fn fixed(a: nat, scale: nat) -> nat {
    round_half_even(a * scale, one())
}

/// The integer part of a double, cut off at the largest `u64`.
pub open spec fn truncated(a: nat) -> u64 {
    if a / one() > u64::MAX {
        u64::MAX
    } else {
        (a / one()) as u64
    }
}

/// A double: zero, or a significand of 53 bits times a power of two.
#[derive(Clone, Copy)]
pub struct Double {
    mant: u64,
    exp: u32,
}

impl Double {
    /// The value in units of 2^-1074.
    pub closed spec fn units(self) -> nat {
        self.mant as nat * pow2(self.exp as nat)
    }

    /// Zero, or a normal significand.
    pub closed spec fn wf(self) -> bool {
        (self.mant == 0 && self.exp == 1074) || LEAST <= self.mant < PAST
    }

    /// The power of two that the significand is multiplied by.
    pub closed spec fn scale(self) -> int {
        self.exp as int
    }
}

/// Rounding to an integer ignores a common factor.
proof fn lemma_common_factor(a: nat, b: nat, c: nat)
    requires
        b > 0,
        c > 0,
    ensures
        c * b > 0,
        round_half_even(c * a, c * b) == round_half_even(a, b),
{
    let q = (a / b) as int;
    let r = (a % b) as int;
    lemma_fundamental_div_mod(a as int, b as int);
    assert(c * a == q * (c * b) + c * r && 0 <= c * r < c * b && c * b > 0) by (nonlinear_arith)
        requires
            a == b * q + r,
            0 <= r < b,
            c > 0,
            b > 0,
    ;
    lemma_fundamental_div_mod_converse((c * a) as int, (c * b) as int, q, c * r);
    assert((2 * (c * r) > c * b) == (2 * r > b)) by (nonlinear_arith)
        requires
            c > 0,
    ;
    assert((2 * (c * r) == c * b) == (2 * r == b)) by (nonlinear_arith)
        requires
            c > 0,
    ;
}

/// Between 2^52 and 2^53 spacings, the spacing is that power of two.
proof fn lemma_spacing(units: nat, k: nat)
    requires
        LEAST * pow2(k) <= units < PAST * pow2(k),
    ensures
        spacing(units) == pow2(k),
    decreases k,
{
    if k == 0 {
        assert(pow2(0) == 1) by {
            vstd::arithmetic::power2::lemma2_to64();
        }
    } else {
        lemma_pow2_unfold(k);
        let h = pow2((k - 1) as nat);
        lemma_pow2_pos((k - 1) as nat);
        assert(pow2(k) == 2 * h);
        assert(LEAST * h <= units / 2 < PAST * h && units >= PAST) by (nonlinear_arith)
            requires
                LEAST * (2 * h) <= units < PAST * (2 * h),
                h >= 1,
                PAST == 2 * LEAST,
                LEAST == 0x10_0000_0000_0000,
        ;
        lemma_spacing(units / 2, (k - 1) as nat);
    }
}

/// A quotient with a significand between 2^52 and 2^53 rounds at that scale.
proof fn lemma_nearest(num: nat, den: nat, k: nat, a: nat, b: nat, c: nat)
    requires
        den > 0,
        b > 0,
        c > 0,
        num == c * a,
        den * pow2(k) == c * b,
        LEAST * b <= a < PAST * b,
    ensures
        nearest(num, den) == pow2(k) * round_half_even(a, b),
        LEAST <= round_half_even(a, b) <= PAST,
{
    let g = pow2(k);
    lemma_pow2_pos(k);
    let x = (num / den) as int;
    let r = (num % den) as int;
    lemma_fundamental_div_mod(num as int, den as int);
    assert(LEAST * (den * g) <= num < PAST * (den * g)) by (nonlinear_arith)
        requires
            LEAST * b <= a < PAST * b,
            num == c * a,
            den * g == c * b,
            c > 0,
    ;
    assert(LEAST * g <= x < PAST * g) by (nonlinear_arith)
        requires
            LEAST * (den * g) <= num < PAST * (den * g),
            num == den * x + r,
            0 <= r < den,
    ;
    lemma_spacing(x as nat, k);
    lemma_common_factor(a, b, c);
    lemma_fundamental_div_mod(a as int, b as int);
    let q = (a / b) as int;
    let s = (a % b) as int;
    assert(LEAST <= q < PAST) by (nonlinear_arith)
        requires
            LEAST * b <= a < PAST * b,
            a == b * q + s,
            0 <= s < b,
    ;
}

/// Rounding nothing gives nothing.
proof fn lemma_nearest_zero(den: nat)
    requires
        den > 0,
    ensures
        nearest(0, den) == 0,
{
    lemma_fundamental_div_mod_converse(0, den as int, 0, 0);
    assert(spacing(0) == 1);
    assert(den * 1 == den);
}

/// The integer nearest to `num / den`, computed.
fn nearest_integer(num: u128, den: u128) -> (n: u128)
    requires
        0 < den <= 0x4000_0000_0000_0000_0000_0000_0000_0000,
        num < 0xffff_ffff_ffff_ffff_ffff_ffff_ffff_ffff,
    ensures
        n == round_half_even(num as nat, den as nat),
{
    let q: u128 = num / den;
    let r: u128 = num % den;
    proof {
        lemma_fundamental_div_mod(num as int, den as int);
        assert(q <= num) by (nonlinear_arith)
            requires
                num == den * q + r,
                den >= 1,
                q >= 0,
                r >= 0,
        ;
    }
    if 2 * r > den || (2 * r == den && q % 2 == 1) {
        q + 1
    } else {
        q
    }
}

/// A small power of two.
fn power_of_two(k: u32) -> (p: u128)
    requires
        k <= 126,
    ensures
        p == pow2(k as nat),
        p <= 0x4000_0000_0000_0000_0000_0000_0000_0000,
{
    let mut p: u128 = 1;
    let mut i: u32 = 0;
    proof {
        vstd::arithmetic::power2::lemma2_to64();
        vstd::arithmetic::power2::lemma2_to64_rest();
        lemma_pow2_adds(63, 63);
    }
    let ghost limit: int = 0x4000_0000_0000_0000_0000_0000_0000_0000;
    while i < k
        invariant
            i <= k <= 126,
            p == pow2(i as nat),
            p * pow2((126 - i) as nat) == limit,
            limit == 0x4000_0000_0000_0000_0000_0000_0000_0000,
        decreases k - i,
    {
        proof {
            lemma_pow2_unfold((126 - i) as nat);
            lemma_pow2_unfold((i + 1) as nat);
            lemma_pow2_pos((125 - i) as nat);
            assert(2 * p <= limit && (2 * p) * pow2((125 - i) as nat) == limit)
                by (nonlinear_arith)
                requires
                    p * (2 * pow2((125 - i) as nat)) == limit,
                    pow2((125 - i) as nat) >= 1,
                    p >= 0,
            ;
        }
        p = 2 * p;
        i = i + 1;
    }
    proof {
        lemma_pow2_pos((126 - i) as nat);
        assert(p <= limit) by (nonlinear_arith)
            requires
                p * pow2((126 - i) as nat) == limit,
                pow2((126 - i) as nat) >= 1,
                p >= 0,
        ;
    }
    p
}

/// The double `m * 2^k`, with its significand brought below 2^53.
fn settle(m: u128, k: u32) -> (d: Double)
    requires
        LEAST <= m <= PAST,
        k < u32::MAX,
    ensures
        d.wf(),
        d.units() == m as nat * pow2(k as nat),
        d.units() > 0,
        k <= d.scale() <= k + 1,
        m < PAST ==> d.scale() == k,
{
    proof {
        lemma_pow2_pos(k as nat);
        lemma_pow2_pos((k + 1) as nat);
        lemma_pow2_unfold((k + 1) as nat);
        assert(m as nat * pow2(k as nat) > 0) by (nonlinear_arith)
            requires
                m >= 1,
                pow2(k as nat) >= 1,
        ;
        assert(LEAST as nat * (2 * pow2(k as nat)) == PAST as nat * pow2(k as nat))
            by (nonlinear_arith)
            requires
                PAST as nat == 2 * LEAST as nat,
        ;
    }
    if m == PAST as u128 {
        Double { mant: LEAST, exp: k + 1 }
    } else {
        Double { mant: m as u64, exp: k }
    }
}

/// Multiplying powers of two, three at a time.
proof fn lemma_powers(m: nat, i: nat, j: nat)
    ensures
        (m * pow2(i)) * pow2(j) == m * pow2(i + j),
        pow2(i) * pow2(j) == pow2(i + j),
{
    lemma_pow2_adds(i, j);
    lemma_mul_is_associative(m as int, pow2(i) as int, pow2(j) as int);
}

impl Double {
    /// The double that an integer converts to.
    pub fn from_u64(n: u64) -> (d: Self)
        ensures
            d.wf(),
            d.units() == of_int(n as nat),
            d.units() > 0 <==> n > 0,
            1022 <= d.scale() <= 1086,
            n < PAST ==> d.scale() <= 1074,
    {
        if n == 0 {
            proof {
                lemma_nearest_zero(1);
                assert(0nat * one() == 0);
                assert(0nat * pow2(1074) == 0);
            }
            return Double { mant: 0, exp: 1074 };
        }
        if n < PAST {
            let mut m: u64 = n;
            let mut t: u32 = 0;
            proof {
                vstd::arithmetic::power2::lemma2_to64();
            }
            while m < LEAST
                invariant
                    0 < n < PAST,
                    0 < m < PAST,
                    t <= 52,
                    m as nat == n as nat * pow2(t as nat),
                decreases PAST - m,
            {
                proof {
                    lemma_pow2_unfold((t + 1) as nat);
                    assert(2 * (n as nat * pow2(t as nat)) == n as nat * (2 * pow2(t as nat)))
                        by (nonlinear_arith);
                    if t == 52 {
                        vstd::arithmetic::power2::lemma2_to64_rest();
                        assert(n as nat * pow2(52) >= pow2(52)) by (nonlinear_arith)
                            requires
                                n >= 1,
                        ;
                        assert(false);
                    }
                }
                m = 2 * m;
                t = t + 1;
            }
            let k: u32 = 1074 - t;
            proof {
                lemma_powers(n as nat, t as nat, k as nat);
                lemma_mul_is_commutative(m as int, pow2(k as nat) as int);
                lemma_pow2_pos(k as nat);
                assert(1 * pow2(k as nat) == pow2(k as nat) * 1);
                lemma_nearest((n * one()) as nat, 1, k as nat, m as nat, 1, pow2(k as nat));
                lemma_fundamental_div_mod_converse(m as int, 1, m as int, 0);
            }
            return settle(m as u128, k);
        }
        let mut b: u128 = 1;
        let mut t: u32 = 0;
        proof {
            vstd::arithmetic::power2::lemma2_to64();
        }
        while (n as u128) / b >= PAST as u128
            invariant
                LEAST as u128 <= (n as u128) / b,
                t <= 12,
                1 <= b <= 4096,
                t == 12 ==> b == 4096,
                b == pow2(t as nat),
            decreases 12 - t,
        {
            proof {
                lemma_pow2_unfold((t + 1) as nat);
                vstd::arithmetic::power2::lemma2_to64();
                assert(b < 4096 && (n as u128) / ((2 * b) as u128) >= LEAST) by (nonlinear_arith)
                    requires
                        (n as u128) / b >= 0x20_0000_0000_0000,
                        LEAST == 0x10_0000_0000_0000,
                        1 <= b <= 4096,
                        n <= 0xffff_ffff_ffff_ffff,
                ;
                if t < 12 {
                    vstd::arithmetic::power2::lemma_pow2_strictly_increases((t + 1) as nat, 13);
                }
            }
            b = 2 * b;
            t = t + 1;
        }
        proof {
            lemma_powers(1, 1074, t as nat);
            lemma_pow2_pos(1074);
            lemma_mul_is_commutative(n as int, one() as int);
            assert(1 * pow2((1074 + t) as nat) == one() * pow2(t as nat));
            assert(LEAST * b <= n < PAST * b && b < 4096) by (nonlinear_arith)
                requires
                    LEAST <= (n as u128) / b < PAST,
                    LEAST == 0x10_0000_0000_0000,
                    PAST == 0x20_0000_0000_0000,
                    1 <= b,
                    n <= 0xffff_ffff_ffff_ffff,
            ;
            lemma_nearest((n * one()) as nat, 1, (1074 + t) as nat, n as nat, b as nat, one());
        }
        let m: u128 = nearest_integer(n as u128, b);
        proof {
            lemma_mul_is_commutative(m as int, pow2((1074 + t) as nat) as int);
            if t == 12 {
                assert(false);
            }
        }
        settle(m, 1074 + t)
    }

    /// The quotient of two doubles.
    pub fn over(self, d: Double) -> (q: Self)
        requires
            self.wf(),
            d.wf(),
            d.units() > 0,
            d.scale() <= self.scale() + 1021,
            self.scale() <= 0x1000_0000,
        ensures
            q.wf(),
            q.units() == quotient(self.units(), d.units()),
            q.units() > 0 <==> self.units() > 0,
            q.scale() == 1074 || self.scale() - d.scale() + 1021 <= q.scale() <= self.scale()
                - d.scale() + 1023,
    {
        if self.mant == 0 {
            proof {
                assert(0nat * pow2(self.exp as nat) == 0);
                assert(0nat * one() == 0);
                lemma_nearest_zero(d.units());
            }
            return self;
        }
        let ghost e: nat = self.exp as nat;
        let ghost num: nat = self.units() * one();
        proof {
            lemma_pow2_pos(e);
            assert(self.units() > 0) by (nonlinear_arith)
                requires
                    self.units() == self.mant as nat * pow2(e),
                    self.mant >= 1,
                    pow2(e) >= 1,
            ;
            if d.mant == 0 {
                assert(0nat * pow2(d.exp as nat) == 0);
                assert(false);
            }
            lemma_powers(self.mant as nat, e, 1074);
        }
        if self.mant >= d.mant {
            let k: u32 = self.exp + 1022 - d.exp;
            let a: u128 = self.mant as u128 * LEAST as u128;
            proof {
                let c = pow2(e + 1022);
                lemma_pow2_pos(e + 1022);
                lemma_powers(LEAST as nat, 0, 0);
                assert(pow2(52) == LEAST) by {
                    vstd::arithmetic::power2::lemma2_to64_rest();
                }
                lemma_powers(1, 52, e + 1022);
                assert(num == c * a) by (nonlinear_arith)
                    requires
                        num == self.mant as nat * pow2(e + 1074),
                        pow2(e + 1074) == LEAST as nat * c,
                        a == self.mant as nat * LEAST as nat,
                ;
                lemma_powers(d.mant as nat, d.exp as nat, k as nat);
                lemma_mul_is_commutative(d.mant as int, c as int);
                lemma_nearest(num, d.units(), k as nat, a as nat, d.mant as nat, c);
            }
            let m: u128 = nearest_integer(a, d.mant as u128);
            proof {
                lemma_mul_is_commutative(m as int, pow2(k as nat) as int);
            }
            settle(m, k)
        } else {
            let k: u32 = self.exp + 1021 - d.exp;
            let a: u128 = self.mant as u128 * PAST as u128;
            proof {
                let c = pow2(e + 1021);
                lemma_pow2_pos(e + 1021);
                assert(pow2(53) == PAST) by {
                    vstd::arithmetic::power2::lemma2_to64_rest();
                }
                lemma_powers(1, 53, e + 1021);
                assert(num == c * a) by (nonlinear_arith)
                    requires
                        num == self.mant as nat * pow2(e + 1074),
                        pow2(e + 1074) == PAST as nat * c,
                        a == self.mant as nat * PAST as nat,
                ;
                lemma_powers(d.mant as nat, d.exp as nat, k as nat);
                lemma_mul_is_commutative(d.mant as int, c as int);
                lemma_nearest(num, d.units(), k as nat, a as nat, d.mant as nat, c);
            }
            let m: u128 = nearest_integer(a, d.mant as u128);
            proof {
                lemma_mul_is_commutative(m as int, pow2(k as nat) as int);
            }
            settle(m, k)
        }
    }

    /// The product of two doubles.
    pub fn times(self, d: Double) -> (p: Self)
        requires
            self.wf(),
            d.wf(),
            1022 <= self.scale() + d.scale(),
            self.scale() <= 0x1000_0000,
            d.scale() <= 0x1000_0000,
        ensures
            p.wf(),
            p.units() == product(self.units(), d.units()),
            p.scale() == 1074 || self.scale() + d.scale() - 1022 <= p.scale() <= self.scale()
                + d.scale() - 1020,
    {
        let ghost e: nat = self.exp as nat;
        let ghost f: nat = d.exp as nat;
        proof {
            lemma_pow2_pos(1074);
        }
        if self.mant == 0 || d.mant == 0 {
            proof {
                assert(self.units() * d.units() == 0) by (nonlinear_arith)
                    requires
                        self.units() == self.mant as nat * pow2(e),
                        d.units() == d.mant as nat * pow2(f),
                        self.mant == 0 || d.mant == 0,
                ;
                lemma_nearest_zero(one());
                assert(0nat * pow2(1074) == 0);
            }
            return Double { mant: 0, exp: 1074 };
        }
        let ghost num: nat = self.units() * d.units();
        let ghost c: nat = pow2(e + f);
        assert(0x100_0000_0000_0000_0000_0000_0000 <= self.mant * d.mant
            && self.mant * d.mant < 0x400_0000_0000_0000_0000_0000_0000) by (nonlinear_arith)
            requires
                0x10_0000_0000_0000 <= self.mant < 0x20_0000_0000_0000,
                0x10_0000_0000_0000 <= d.mant < 0x20_0000_0000_0000,
        ;
        let a: u128 = self.mant as u128 * d.mant as u128;
        proof {
            lemma_pow2_pos(e + f);
            lemma_pow2_adds(e, f);
            assert(num == c * a) by (nonlinear_arith)
                requires
                    num == (self.mant as nat * pow2(e)) * (d.mant as nat * pow2(f)),
                    c == pow2(e) * pow2(f),
                    a == self.mant as nat * d.mant as nat,
            ;
            vstd::arithmetic::power2::lemma2_to64_rest();
        }
        if a < 0x200_0000_0000_0000_0000_0000_0000 {
            let k: u32 = self.exp + d.exp - 1022;
            proof {
                lemma_powers(1, 1074, k as nat);
                lemma_powers(1, e + f, 52);
                lemma_nearest(num, one(), k as nat, a as nat, LEAST as nat, c);
            }
            let m: u128 = nearest_integer(a, LEAST as u128);
            proof {
                lemma_mul_is_commutative(m as int, pow2(k as nat) as int);
            }
            settle(m, k)
        } else {
            let k: u32 = self.exp + d.exp - 1021;
            proof {
                lemma_powers(1, 1074, k as nat);
                lemma_powers(1, e + f, 53);
                lemma_nearest(num, one(), k as nat, a as nat, PAST as nat, c);
            }
            let m: u128 = nearest_integer(a, PAST as u128);
            proof {
                lemma_mul_is_commutative(m as int, pow2(k as nat) as int);
            }
            settle(m, k)
        }
    }

    /// The sum of two doubles, the first of the larger scale.
    fn plus_finer(self, d: Double) -> (s: Self)
        requires
            self.wf(),
            d.wf(),
            self.mant != 0,
            d.mant != 0,
            d.scale() <= self.scale() <= 0x1000_0000,
        ensures
            s.wf(),
            s.units() == sum(self.units(), d.units()),
            s.units() > 0,
            self.scale() <= s.scale() <= self.scale() + 2,
    {
        let ghost e: nat = self.exp as nat;
        let ghost f: nat = d.exp as nat;
        let ghost num: nat = self.units() + d.units();
        let gap: u32 = self.exp - d.exp;
        proof {
            lemma_pow2_pos(e);
            lemma_pow2_pos(f);
            lemma_pow2_pos(gap as nat);
            lemma_powers(1, f, gap as nat);
        }
        if gap > 70 {
            proof {
                vstd::arithmetic::power2::lemma2_to64_rest();
                lemma_pow2_adds(60, 11);
                vstd::arithmetic::power2::lemma2_to64();
                if gap > 71 {
                    vstd::arithmetic::power2::lemma_pow2_strictly_increases(71, gap as nat);
                }
                assert(pow2(60) == 0x1000_0000_0000_0000);
                assert(2 * d.units() < pow2(e)) by (nonlinear_arith)
                    requires
                        d.units() == d.mant as nat * pow2(f),
                        d.mant < 0x20_0000_0000_0000,
                        pow2(e) == pow2(f) * pow2(gap as nat),
                        pow2(gap as nat) >= 0x80_0000_0000_0000,
                        pow2(f) >= 1,
                ;
                assert(LEAST * pow2(e) <= num < PAST * pow2(e)) by (nonlinear_arith)
                    requires
                        num == self.mant as nat * pow2(e) + d.units(),
                        2 * d.units() < pow2(e),
                        LEAST <= self.mant <= PAST - 1,
                ;
                lemma_nearest(num, 1, e, num, pow2(e), 1);
                lemma_fundamental_div_mod_converse(
                    num as int,
                    pow2(e) as int,
                    self.mant as int,
                    d.units() as int,
                );
                lemma_mul_is_commutative(self.mant as int, pow2(e) as int);
                assert(self.units() > 0) by (nonlinear_arith)
                    requires
                        self.units() == self.mant as nat * pow2(e),
                        self.mant >= 1,
                        pow2(e) >= 1,
                ;
            }
            return self;
        }
        let p: u128 = power_of_two(gap);
        proof {
            vstd::arithmetic::power2::lemma2_to64_rest();
            vstd::arithmetic::power2::lemma2_to64();
            lemma_pow2_adds(60, 10);
            if gap < 70 {
                vstd::arithmetic::power2::lemma_pow2_strictly_increases(gap as nat, 70);
            }
            assert(p <= 0x40_0000_0000_0000_0000);
            assert(self.mant as nat * p as nat + d.mant as nat
                <= 0x1000_0000_0000_0000_0000_0000_0000_0000 && PAST as nat * p as nat
                <= 0x1000_0000_0000_0000_0000_0000_0000_0000) by (nonlinear_arith)
                requires
                    self.mant < 0x20_0000_0000_0000,
                    PAST == 0x20_0000_0000_0000,
                    d.mant < 0x20_0000_0000_0000,
                    p <= 0x40_0000_0000_0000_0000,
            ;
        }
        let a: u128 = self.mant as u128 * p + d.mant as u128;
        proof {
            assert(num == pow2(f) * a) by (nonlinear_arith)
                requires
                    num == self.mant as nat * pow2(e) + d.mant as nat * pow2(f),
                    pow2(e) == pow2(f) * p,
                    a == self.mant as nat * p as nat + d.mant as nat,
            ;
        }
        if a < PAST as u128 * p {
            proof {
                assert(LEAST * p <= a) by (nonlinear_arith)
                    requires
                        a == self.mant as nat * p as nat + d.mant as nat,
                        LEAST <= self.mant,
                ;
                lemma_nearest(num, 1, e, a as nat, p as nat, pow2(f));
            }
            let m: u128 = nearest_integer(a, p);
            proof {
                lemma_mul_is_commutative(m as int, pow2(e) as int);
            }
            settle(m, self.exp)
        } else {
            proof {
                lemma_pow2_unfold(e + 1);
                assert(LEAST * (2 * p) <= a < PAST * (2 * p)) by (nonlinear_arith)
                    requires
                        a == self.mant as nat * p as nat + d.mant as nat,
                        a >= PAST * p,
                        PAST == 2 * LEAST,
                        self.mant < PAST,
                        d.mant < PAST,
                        p >= 1,
                ;
                assert(1 * pow2(e + 1) == pow2(f) * (2 * p)) by (nonlinear_arith)
                    requires
                        pow2(e + 1) == 2 * pow2(e),
                        pow2(e) == pow2(f) * p,
                ;
                lemma_nearest(num, 1, e + 1, a as nat, (2 * p) as nat, pow2(f));
            }
            let m: u128 = nearest_integer(a, 2 * p);
            proof {
                lemma_mul_is_commutative(m as int, pow2(e + 1) as int);
            }
            settle(m, self.exp + 1)
        }
    }

    /// The sum of two doubles.
    pub fn plus(self, d: Double) -> (s: Self)
        requires
            self.wf(),
            d.wf(),
            self.scale() <= 0x1000_0000,
            d.scale() <= 0x1000_0000,
        ensures
            s.wf(),
            s.units() == sum(self.units(), d.units()),
            s.units() > 0 <==> self.units() > 0 || d.units() > 0,
            s.scale() <= self.scale() + 2 || s.scale() <= d.scale() + 2,
            s.scale() >= self.scale() || s.scale() >= d.scale(),
    {
        proof {
            self.lemma_is_double();
            d.lemma_is_double();
        }
        if self.mant == 0 {
            return d;
        }
        if d.mant == 0 {
            return self;
        }
        if self.exp >= d.exp {
            self.plus_finer(d)
        } else {
            d.plus_finer(self)
        }
    }

    /// A double is its own nearest double, and zero exactly when its
    /// significand is.
    proof fn lemma_is_double(self)
        requires
            self.wf(),
        ensures
            nearest(self.units(), 1) == self.units(),
            self.units() == 0 <==> self.mant == 0,
    {
        let g = pow2(self.exp as nat);
        lemma_pow2_pos(self.exp as nat);
        if self.mant == 0 {
            assert(0nat * g == 0);
            lemma_nearest_zero(1);
        } else {
            assert(self.units() > 0) by (nonlinear_arith)
                requires
                    self.units() == self.mant as nat * g,
                    self.mant >= 1,
                    g >= 1,
            ;
            lemma_mul_is_commutative(self.mant as int, g as int);
            lemma_nearest(self.units(), 1, self.exp as nat, self.mant as nat, 1, g);
            lemma_fundamental_div_mod_converse(self.mant as int, 1, self.mant as int, 0);
        }
    }

    /// Whether one double is less than another.
    pub fn less_than(self, d: Double) -> (b: bool)
        requires
            self.wf(),
            d.wf(),
        ensures
            b == (self.units() < d.units()),
            b ==> self.scale() <= d.scale() || self.scale() == 1074,
    {
        proof {
            self.lemma_is_double();
            d.lemma_is_double();
            self.lemma_order(d);
            d.lemma_order(self);
        }
        if self.mant == 0 {
            d.mant != 0
        } else if d.mant == 0 {
            false
        } else if self.exp != d.exp {
            self.exp < d.exp
        } else {
            self.mant < d.mant
        }
    }

    /// A normal double of a smaller exponent is smaller, and of an equal
    /// exponent the significands decide.
    proof fn lemma_order(self, d: Double)
        requires
            self.wf(),
            d.wf(),
        ensures
            self.mant != 0 && d.mant != 0 && self.exp < d.exp ==> self.units() < d.units(),
            self.exp == d.exp && self.mant < d.mant ==> self.units() < d.units(),
    {
        let e = self.exp as nat;
        lemma_pow2_pos(e);
        if self.exp == d.exp && self.mant < d.mant {
            assert(self.mant as nat * pow2(e) < d.mant as nat * pow2(e)) by (nonlinear_arith)
                requires
                    self.mant < d.mant,
                    pow2(e) >= 1,
            ;
        }
        if self.mant != 0 && d.mant != 0 && self.exp < d.exp {
            let gap = (d.exp - self.exp) as nat;
            lemma_powers(1, e, gap);
            lemma_pow2_pos((gap - 1) as nat);
            lemma_pow2_unfold(gap);
            assert(self.mant as nat * pow2(e) < d.mant as nat * pow2(d.exp as nat))
                by (nonlinear_arith)
                requires
                    self.mant < 2 * d.mant,
                    pow2(d.exp as nat) == pow2(e) * pow2(gap),
                    pow2(gap) >= 2,
                    pow2(e) >= 1,
            ;
        }
    }

    /// A double times `scale`, rounded to an integer.
    pub fn fixed_digits(self, scale: u64) -> (n: u128)
        requires
            self.wf(),
            self.scale() <= 1134,
            scale <= 1000,
        ensures
            n == fixed(self.units(), scale as nat),
    {
        let ghost e: nat = self.exp as nat;
        assert(self.mant as nat * scale as nat <= 0x7d00_0000_0000_0000) by (nonlinear_arith)
            requires
                self.mant <= 0x20_0000_0000_0000,
                scale <= 1000,
        ;
        let a: u128 = self.mant as u128 * scale as u128;
        proof {
            lemma_pow2_pos(1074);
            lemma_pow2_pos(e);
            assert(self.units() * scale == pow2(e) * a) by (nonlinear_arith)
                requires
                    self.units() == self.mant as nat * pow2(e),
                    a == self.mant as nat * scale as nat,
            ;
        }
        if self.exp >= 1074 {
            let p: u128 = power_of_two(self.exp - 1074);
            proof {
                vstd::arithmetic::power2::lemma2_to64_rest();
                if self.exp - 1074 < 60 {
                    vstd::arithmetic::power2::lemma_pow2_strictly_increases(
                        (self.exp - 1074) as nat,
                        60,
                    );
                }
                lemma_powers(1, 1074, (e - 1074) as nat);
                assert(p as nat * a as nat <= 0x7d00_0000_0000_0000 * 0x1000_0000_0000_0000)
                    by (nonlinear_arith)
                    requires
                        p <= 0x1000_0000_0000_0000,
                        a <= 0x7d00_0000_0000_0000,
                ;
                assert(pow2(e) * a == (p * a) * one()) by (nonlinear_arith)
                    requires
                        pow2(e) == one() * p,
                ;
                lemma_fundamental_div_mod_converse(
                    (pow2(e) * a) as int,
                    one() as int,
                    (p * a) as int,
                    0,
                );
            }
            p * a
        } else {
            let gap: u32 = 1074 - self.exp;
            proof {
                lemma_powers(1, e, gap as nat);
                lemma_pow2_pos(gap as nat);
                lemma_common_factor(a as nat, pow2(gap as nat), pow2(e));
            }
            if gap > 126 {
                proof {
                    vstd::arithmetic::power2::lemma_pow2_strictly_increases(126, gap as nat);
                    vstd::arithmetic::power2::lemma2_to64_rest();
                    lemma_pow2_adds(63, 63);
                    assert(2 * a < pow2(gap as nat));
                    lemma_fundamental_div_mod_converse(
                        a as int,
                        pow2(gap as nat) as int,
                        0,
                        a as int,
                    );
                }
                0
            } else {
                let p: u128 = power_of_two(gap);
                nearest_integer(a, p)
            }
        }
    }

    /// The integer part, cut off at the largest `u64`.
    pub fn truncate(self) -> (n: u64)
        requires
            self.wf(),
        ensures
            n == truncated(self.units()),
    {
        let ghost e: nat = self.exp as nat;
        proof {
            lemma_pow2_pos(1074);
            lemma_pow2_pos(e);
            self.lemma_is_double();
        }
        if self.mant == 0 {
            proof {
                lemma_fundamental_div_mod_converse(0, one() as int, 0, 0);
            }
            return 0;
        }
        if self.exp >= 1074 {
            proof {
                lemma_powers(1, 1074, (e - 1074) as nat);
                let p = pow2((e - 1074) as nat);
                assert(self.units() == (self.mant * p) * one()) by (nonlinear_arith)
                    requires
                        self.units() == self.mant as nat * pow2(e),
                        pow2(e) == one() * p,
                ;
                lemma_fundamental_div_mod_converse(
                    self.units() as int,
                    one() as int,
                    self.mant * p,
                    0,
                );
            }
            if self.exp - 1074 >= 12 {
                proof {
                    vstd::arithmetic::power2::lemma2_to64();
                    if self.exp - 1074 > 12 {
                        vstd::arithmetic::power2::lemma_pow2_strictly_increases(
                            12,
                            (self.exp - 1074) as nat,
                        );
                    }
                    let p = pow2((e - 1074) as nat);
                    assert(self.mant * p > u64::MAX) by (nonlinear_arith)
                        requires
                            self.mant >= 0x10_0000_0000_0000,
                            p >= 4096,
                    ;
                }
                return u64::MAX;
            }
            let p: u128 = power_of_two(self.exp - 1074);
            proof {
                vstd::arithmetic::power2::lemma2_to64();
                if self.exp - 1074 < 11 {
                    vstd::arithmetic::power2::lemma_pow2_strictly_increases(
                        (self.exp - 1074) as nat,
                        11,
                    );
                }
                assert(self.mant as nat * p as nat <= u64::MAX) by (nonlinear_arith)
                    requires
                        self.mant < 0x20_0000_0000_0000,
                        p <= 2048,
                ;
            }
            self.mant * (p as u64)
        } else {
            let gap: u32 = 1074 - self.exp;
            proof {
                lemma_powers(1, e, gap as nat);
                lemma_pow2_pos(gap as nat);
                let p = pow2(gap as nat);
                vstd::arithmetic::div_mod::lemma_div_denominator(
                    self.units() as int,
                    pow2(e) as int,
                    p as int,
                );
                lemma_fundamental_div_mod_converse(
                    self.units() as int,
                    pow2(e) as int,
                    self.mant as int,
                    0,
                );
                assert(self.units() / one() == self.mant as nat / p);
            }
            if gap > 126 {
                proof {
                    vstd::arithmetic::power2::lemma_pow2_strictly_increases(126, gap as nat);
                    vstd::arithmetic::power2::lemma2_to64_rest();
                    lemma_pow2_adds(63, 63);
                    lemma_fundamental_div_mod_converse(
                        self.mant as int,
                        pow2(gap as nat) as int,
                        0,
                        self.mant as int,
                    );
                }
                0
            } else {
                let p: u128 = power_of_two(gap);
                let q: u128 = self.mant as u128 / p;
                proof {
                    assert(q <= self.mant) by (nonlinear_arith)
                        requires
                            q == self.mant as nat / p as nat,
                            p >= 1,
                    ;
                }
                q as u64
            }
        }
    }
}

// ── Laws ─────────────────────────────────────────────────────────────

/// Rounding to an integer is off by at most a half, and where it is just that,
/// gives the even one.
pub proof fn law_rounding_is_to_the_nearest(num: nat, den: nat)
    requires
        den > 0,
    ensures
        ({
            let off = round_half_even(num, den) * den - num;
            &&& -den <= 2 * off <= den
            &&& 2 * off == den || 2 * off == -den ==> round_half_even(num, den) % 2 == 0
        }),
{
    let q = (num / den) as int;
    let r = (num % den) as int;
    let d = den as int;
    lemma_fundamental_div_mod(num as int, d);
    assert(q * d - (d * q + r) == -r && (q + 1) * d - (d * q + r) == d - r) by (nonlinear_arith);
}

/// Neighbouring doubles lie one unit apart below 2^53 units, and from there on as
/// far that 53 bits tell them apart.
pub proof fn law_spacing_keeps_53_bits(units: nat)
    ensures
        units < 0x20_0000_0000_0000 ==> spacing(units) == 1,
        units >= 0x20_0000_0000_0000 ==> spacing(units) * 0x10_0000_0000_0000 <= units < spacing(
            units,
        ) * 0x20_0000_0000_0000,
        spacing(units) > 0,
    decreases units,
{
    if units >= PAST {
        law_spacing_keeps_53_bits(units / 2);
        if units / 2 < PAST {
            assert(spacing(units / 2) == 1);
        }
    }
}

/// A result is the double nearest to the exact one: a multiple of the distance
/// between doubles there, off by at most half of it, and of two equally near the
/// one with the even significand.
pub proof fn law_result_is_nearest(num: nat, den: nat)
    requires
        den > 0,
    ensures
        ({
            let g = spacing(num / den) as int;
            let off = nearest(num, den) * den - num;
            &&& nearest(num, den) % g as nat == 0
            &&& -(g * den) <= 2 * off <= g * den
            &&& 2 * off == g * den || 2 * off == -(g * den) ==> (nearest(num, den) / g as nat) % 2
                == 0
        }),
{
    let g = spacing(num / den);
    law_spacing_keeps_53_bits(num / den);
    assert(den * g > 0) by (nonlinear_arith)
        requires
            den > 0,
            g > 0,
    ;
    law_rounding_is_to_the_nearest(num, den * g);
    let m = round_half_even(num, den * g);
    assert((g * m) * den == m * (den * g)) by (nonlinear_arith);
    assert(g * den == den * g) by (nonlinear_arith);
    lemma_mod_multiples_basic(m as int, g as int);
    lemma_div_multiples_vanish(m as int, g as int);
    assert(g * m == m * g) by (nonlinear_arith);
}

/// Integers of 53 bits are doubles, and sums, products and quotients of doubles
/// are the nearest to what they are exactly.
pub proof fn law_arithmetic_rounds_once(a: nat, b: nat, n: nat)
    ensures
        n < 0x20_0000_0000_0000 ==> of_int(n) == n * one(),
        of_int(n) == nearest(n * pow2(1074), 1),
        sum(a, b) == nearest(a + b, 1),
        product(a, b) == nearest(a * b, pow2(1074)),
        quotient(a, b) == nearest(a * pow2(1074), b),
{
    if n < 0x20_0000_0000_0000 {
        lemma_small_int(n);
    }
}

/// An integer of 53 bits is a double.
proof fn lemma_small_int(n: nat)
    requires
        n < 0x20_0000_0000_0000,
    ensures
        of_int(n) == n * one(),
{
    let u = n * one();
    let g = spacing(u);
    law_spacing_keeps_53_bits(u);
    assert(u / 1 == u);
    lemma_spacing_divides(n, 1074);
    assert(u % g == 0);
    lemma_fundamental_div_mod(u as int, g as int);
    assert(1 * g == g);
    assert(g * (u / g) == u);
    assert(round_half_even(u, g) == u / g);
}

/// The distance between doubles at an integer of 53 bits times a power of two
/// divides it.
proof fn lemma_spacing_divides(n: nat, k: nat)
    requires
        n < 0x20_0000_0000_0000,
    ensures
        spacing(n * pow2(k)) > 0,
        (n * pow2(k)) % spacing(n * pow2(k)) == 0,
    decreases k,
{
    let u = n * pow2(k);
    law_spacing_keeps_53_bits(u);
    if k == 0 {
        vstd::arithmetic::power2::lemma2_to64();
        assert(u == n);
        assert(u % 1 == 0);
    } else {
        let v = n * pow2((k - 1) as nat);
        lemma_pow2_unfold(k);
        assert(u == 2 * v) by (nonlinear_arith)
            requires
                u == n * pow2(k),
                v == n * pow2((k - 1) as nat),
                pow2(k) == 2 * pow2((k - 1) as nat),
        ;
        lemma_spacing_divides(n, (k - 1) as nat);
        if u >= PAST {
            let g = spacing(v);
            assert(u / 2 == v);
            assert(spacing(u) == 2 * g);
            lemma_fundamental_div_mod(v as int, g as int);
            let q = (v / g) as int;
            assert(u == q * (2 * g)) by (nonlinear_arith)
                requires
                    u == 2 * v,
                    v == g * q,
            ;
            lemma_mod_multiples_basic(q, (2 * g) as int);
        } else {
            assert(u % 1 == 0);
        }
    }
}

/// A number of decimals shows the nearest such number, and cutting a double down
/// to an integer gives the largest that is not above it and that fits.
pub proof fn law_digits_are_nearest(a: nat, scale: nat)
    ensures
        ({
            let off = fixed(a, scale) * pow2(1074) - a * scale;
            -pow2(1074) <= 2 * off <= pow2(1074)
        }),
        truncated(a) < u64::MAX ==> truncated(a) * pow2(1074) <= a < (truncated(a) + 1) * pow2(
            1074,
        ),
        truncated(a) == u64::MAX ==> a >= u64::MAX * pow2(1074),
{
    lemma_pow2_pos(1074);
    law_rounding_is_to_the_nearest(a * scale, one());
    let o = one() as int;
    let q = (a / one()) as int;
    lemma_fundamental_div_mod(a as int, o);
    let r = (a % one()) as int;
    assert(q * o <= a < (q + 1) * o) by (nonlinear_arith)
        requires
            a == o * q + r,
            0 <= r < o,
    ;
    if q >= u64::MAX {
        assert(u64::MAX * o <= q * o) by (nonlinear_arith)
            requires
                q >= u64::MAX,
                o > 0,
        ;
    }
}

} // verus!
