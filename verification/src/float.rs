//! Single-precision arithmetic (IEEE 754 `binary32`) on bit patterns.
//!
//! Positions, hit points and timers are single-precision numbers. The
//! simulation keeps them as their bit patterns and computes on those with
//! integers, so that every step is reproducible bit for bit and can be stated
//! exactly: a finite pattern stands for `mantissa * 2^(scale - 150)`, and each
//! operation returns the exact result rounded to the nearest pattern, ties to
//! the one with an even mantissa.

use vstd::prelude::*;
use vstd::arithmetic::power2::*;

verus! {

/// A single-precision number, held as its bit pattern. `==` compares patterns;
/// see [`F32::eq_value`] for equality of the numbers.
#[derive(Clone, Copy, PartialEq, Eq, Structural, Debug)]
pub struct F32 {
    pub bits: u32,
}

/// 2^23: weight of the lowest exponent bit in a pattern.
pub const UNIT: u32 = 0x0080_0000;

/// 2^31: weight of the sign bit.
pub const SIGN: u32 = 0x8000_0000;

/// Pattern of positive infinity.
pub const INF_BITS: u32 = 0x7f80_0000;

/// Pattern returned where a result is not a number.
pub const NAN_BITS: u32 = 0x7fc0_0000;

/// Number of binary digits of `m` (zero has none).
pub open spec fn bit_len(m: nat) -> nat
    decreases m,
{
    if m == 0 {
        0
    } else {
        1 + bit_len(m / 2)
    }
}

/// `m / d` rounded to the nearest integer, ties to the even one.
pub open spec fn div_nearest_even(m: nat, d: nat) -> nat {
    let q = m / d;
    let r = m % d;
    if 2 * r > d || (2 * r == d && q % 2 == 1) {
        q + 1
    } else {
        q
    }
}

pub open spec fn zero_spec(neg: bool) -> F32 {
    F32 { bits: if neg { SIGN } else { 0 } }
}

pub open spec fn inf_spec(neg: bool) -> F32 {
    F32 { bits: if neg { 0xff80_0000 } else { INF_BITS } }
}

pub open spec fn nan_spec() -> F32 {
    F32 { bits: NAN_BITS }
}

/// Scale of the pattern nearest to `m * 2^(k - 150)`: its mantissa keeps 24
/// digits, or fewer at the smallest scale.
pub open spec fn round_scale(m: nat, k: int) -> int {
    if k + bit_len(m) - 24 > 1 {
        k + bit_len(m) - 24
    } else {
        1
    }
}

/// Mantissa of `m * 2^(k - 150)` at scale `s`, rounded to nearest even.
pub open spec fn round_mantissa(m: nat, k: int, s: int) -> nat {
    if k >= s {
        m * pow2((k - s) as nat)
    } else {
        div_nearest_even(m, pow2((s - k) as nat))
    }
}

/// The pattern nearest to `(-1)^neg * m * 2^(k - 150)`.
pub open spec fn round_spec(neg: bool, m: nat, k: int) -> F32 {
    if m == 0 {
        zero_spec(neg)
    } else {
        let s = round_scale(m, k);
        let magnitude = (s - 1) * UNIT + round_mantissa(m, k, s);
        if magnitude >= INF_BITS {
            inf_spec(neg)
        } else {
            F32 { bits: (magnitude + if neg { SIGN as int } else { 0 }) as u32 }
        }
    }
}

impl F32 {
    /// Is the sign bit set?
    pub open spec fn neg(self) -> bool {
        self.bits >= SIGN
    }

    /// The pattern without its sign bit.
    pub open spec fn magnitude(self) -> int {
        (self.bits % SIGN) as int
    }

    pub open spec fn nan(self) -> bool {
        self.magnitude() > INF_BITS
    }

    pub open spec fn infinite(self) -> bool {
        self.magnitude() == INF_BITS
    }

    pub open spec fn finite(self) -> bool {
        self.magnitude() < INF_BITS
    }

    /// A finite pattern stands for `mantissa * 2^(scale - 150)`.
    pub open spec fn scale(self) -> int {
        let e = self.magnitude() / UNIT as int;
        if e == 0 {
            1
        } else {
            e
        }
    }

    pub open spec fn mantissa(self) -> nat {
        (self.magnitude() - (self.scale() - 1) * UNIT) as nat
    }

    /// Zero, with either sign?
    pub open spec fn zero(self) -> bool {
        self.magnitude() == 0
    }

    /// Numbers compare as these integers do; both zeros have key 0.
    pub open spec fn key(self) -> int {
        if self.neg() {
            -self.magnitude()
        } else {
            self.magnitude()
        }
    }

    #[verifier::opaque]
    pub open spec fn lt_spec(self, other: F32) -> bool {
        !self.nan() && !other.nan() && self.key() < other.key()
    }

    #[verifier::opaque]
    pub open spec fn le_spec(self, other: F32) -> bool {
        !self.nan() && !other.nan() && self.key() <= other.key()
    }

    #[verifier::opaque]
    pub open spec fn eq_spec(self, other: F32) -> bool {
        !self.nan() && !other.nan() && self.key() == other.key()
    }

    pub open spec fn neg_spec(self) -> F32 {
        F32 { bits: if self.neg() { (self.bits - SIGN) as u32 } else { (self.bits + SIGN) as u32 } }
    }

    pub open spec fn abs_spec(self) -> F32 {
        F32 { bits: self.magnitude() as u32 }
    }

    /// The signed integer that a finite pattern stands for, counted in units of
    /// `2^(k - 150)`, where `k` is at most its scale.
    pub open spec fn units(self, k: int) -> int {
        let v = self.mantissa() * pow2((self.scale() - k) as nat);
        if self.neg() {
            -v
        } else {
            v as int
        }
    }

    #[verifier::opaque]
    pub open spec fn add_spec(self, other: F32) -> F32 {
        if self.nan() || other.nan() {
            nan_spec()
        } else if self.infinite() && other.infinite() {
            if self.neg() == other.neg() {
                self
            } else {
                nan_spec()
            }
        } else if self.infinite() {
            self
        } else if other.infinite() {
            other
        } else {
            let k = if self.scale() <= other.scale() {
                self.scale()
            } else {
                other.scale()
            };
            let sum = self.units(k) + other.units(k);
            if sum == 0 {
                zero_spec(self.neg() && other.neg())
            } else if sum < 0 {
                round_spec(true, (-sum) as nat, k)
            } else {
                round_spec(false, sum as nat, k)
            }
        }
    }

    #[verifier::opaque]
    pub open spec fn sub_spec(self, other: F32) -> F32 {
        self.add_spec(other.neg_spec())
    }

    #[verifier::opaque]
    pub open spec fn mul_spec(self, other: F32) -> F32 {
        let neg = self.neg() != other.neg();
        if self.nan() || other.nan() {
            nan_spec()
        } else if self.infinite() || other.infinite() {
            if self.zero() || other.zero() {
                nan_spec()
            } else {
                inf_spec(neg)
            }
        } else {
            round_spec(
                neg,
                self.mantissa() * other.mantissa(),
                self.scale() + other.scale() - 150,
            )
        }
    }

    /// Quotient of the mantissas to 51 binary places, the last one set when
    /// anything is left over: enough places to round it as the exact quotient.
    pub open spec fn quotient(self, other: F32) -> nat {
        let n = self.mantissa() * pow2(50);
        let d = other.mantissa();
        2 * (n / d) + if n % d != 0 {
            1nat
        } else {
            0
        }
    }

    #[verifier::opaque]
    pub open spec fn div_spec(self, other: F32) -> F32 {
        let neg = self.neg() != other.neg();
        if self.nan() || other.nan() {
            nan_spec()
        } else if self.infinite() {
            if other.infinite() {
                nan_spec()
            } else {
                inf_spec(neg)
            }
        } else if other.infinite() {
            zero_spec(neg)
        } else if other.zero() {
            if self.zero() {
                nan_spec()
            } else {
                inf_spec(neg)
            }
        } else {
            round_spec(neg, self.quotient(other), self.scale() - other.scale() + 150 - 51)
        }
    }
}

/// `n` is the integer square root of `m`.
pub open spec fn is_int_sqrt(n: nat, m: nat) -> bool {
    n * n <= m < (n + 1) * (n + 1)
}

pub open spec fn int_sqrt(m: nat) -> nat {
    choose|n: nat| is_int_sqrt(n, m)
}

pub open spec fn clamp_i32(v: int) -> i32 {
    if v < i32::MIN {
        i32::MIN
    } else if v > i32::MAX {
        i32::MAX
    } else {
        v as i32
    }
}

impl F32 {
    /// The mantissa made even-scaled and extended by 50 or 51 binary places.
    pub open spec fn radicand(self) -> nat {
        self.mantissa() * pow2(if self.scale() % 2 == 0 { 50 } else { 51 })
    }

    /// Root of the radicand to one more place, the last one set when anything
    /// is left over: enough places to round it as the exact root.
    pub open spec fn root(self) -> nat {
        let n = int_sqrt(self.radicand());
        2 * n + if n * n != self.radicand() {
            1nat
        } else {
            0
        }
    }

    #[verifier::opaque]
    pub open spec fn sqrt_spec(self) -> F32 {
        if self.nan() {
            nan_spec()
        } else if self.zero() {
            self
        } else if self.neg() {
            nan_spec()
        } else if self.infinite() {
            self
        } else {
            let places: int = if self.scale() % 2 == 0 { 50 } else { 51 };
            round_spec(false, self.root(), (self.scale() - 150 - places) / 2 + 149)
        }
    }

    /// The mantissa with its sign.
    pub open spec fn signed(self) -> int {
        if self.neg() {
            -(self.mantissa() as int)
        } else {
            self.mantissa() as int
        }
    }

    /// Largest integer not above a finite number.
    pub open spec fn floor_int(self) -> int {
        if self.scale() >= 150 {
            self.signed() * pow2((self.scale() - 150) as nat)
        } else {
            self.signed() / pow2((150 - self.scale()) as nat) as int
        }
    }

    /// Rounded down to an `i32`, the nearest one where it does not fit, 0 where
    /// there is no number.
    #[verifier::opaque]
    pub open spec fn floor_spec(self) -> i32 {
        if self.nan() {
            0
        } else if self.infinite() {
            if self.neg() {
                i32::MIN
            } else {
                i32::MAX
            }
        } else {
            clamp_i32(self.floor_int())
        }
    }

    /// Smallest integer not below a finite number, as an `i32`; otherwise as
    /// [`F32::floor_spec`].
    #[verifier::opaque]
    pub open spec fn ceil_spec(self) -> i32 {
        if self.finite() {
            clamp_i32(-self.neg_spec().floor_int())
        } else {
            self.floor_spec()
        }
    }

    /// Rounded toward zero to a `u32`: 0 below zero, the largest one where it
    /// does not fit.
    #[verifier::opaque]
    pub open spec fn trunc_spec(self) -> u32 {
        if self.nan() || self.neg() {
            0
        } else if self.infinite() || self.floor_int() > u32::MAX {
            u32::MAX
        } else {
            self.floor_int() as u32
        }
    }

    pub open spec fn min_spec(self, other: F32) -> F32 {
        if self.nan() || other.lt_spec(self) {
            other
        } else {
            self
        }
    }

    pub open spec fn max_spec(self, other: F32) -> F32 {
        if self.nan() || self.lt_spec(other) {
            other
        } else {
            self
        }
    }

    pub open spec fn clamp_spec(self, lo: F32, hi: F32) -> F32 {
        if self.lt_spec(lo) {
            lo
        } else if hi.lt_spec(self) {
            hi
        } else {
            self
        }
    }
}

/// The number nearest to an integer.
#[verifier::opaque]
pub open spec fn from_int_spec(v: int) -> F32 {
    if v < 0 {
        round_spec(true, (-v) as nat, 150)
    } else {
        round_spec(false, v as nat, 150)
    }
}

/// Comparisons chain.
pub proof fn lemma_le_transitive(a: F32, b: F32, c: F32)
    requires
        a.le_spec(b),
        b.le_spec(c),
    ensures
        a.le_spec(c),
{
    reveal(F32::le_spec);
}

/// Rounding gives a number.
proof fn lemma_rounded_is_number(neg: bool, m: nat, k: int)
    ensures
        !round_spec(neg, m, k).nan(),
{
}

/// The number nearest to an integer is a number, and so is half more.
pub proof fn lemma_half_past_is_number(v: int)
    ensures
        !from_int_spec(v).nan(),
        !from_int_spec(v).add_spec(F32 { bits: 0x3f00_0000 }).nan(),
{
    reveal(from_int_spec);
    reveal(F32::add_spec);
    lemma_rounded_is_number(v < 0, (if v < 0 {
        -v
    } else {
        v
    }) as nat, 150);
    let a = from_int_spec(v);
    let b = F32 { bits: 0x3f00_0000 };
    let k = if a.scale() <= b.scale() {
        a.scale()
    } else {
        b.scale()
    };
    let sum = a.units(k) + b.units(k);
    lemma_rounded_is_number(true, (-sum) as nat, k);
    lemma_rounded_is_number(false, sum as nat, k);
}

// --- facts about binary digits -------------------------------------------

pub proof fn lemma_bit_len(m: nat)
    requires
        m > 0,
    ensures
        bit_len(m) >= 1,
        pow2((bit_len(m) - 1) as nat) <= m < pow2(bit_len(m)),
    decreases m,
{
    lemma_pow2_unfold(bit_len(m));
    if m / 2 == 0 {
        assert(m == 1);
        assert(bit_len(0) == 0);
        lemma2_to64();
    } else {
        lemma_bit_len(m / 2);
        lemma_pow2_unfold(bit_len(m / 2));
    }
}

pub proof fn lemma_bit_len_unique(m: nat, b: nat)
    requires
        b >= 1,
        pow2((b - 1) as nat) <= m < pow2(b),
    ensures
        bit_len(m) == b,
{
    lemma_pow2_pos((b - 1) as nat);
    lemma_bit_len(m);
    let c = bit_len(m);
    if c < b {
        if c < b - 1 {
            lemma_pow2_strictly_increases(c, (b - 1) as nat);
        }
    } else if c > b {
        if b < c - 1 {
            lemma_pow2_strictly_increases(b, (c - 1) as nat);
        }
    }
}

pub proof fn lemma_pow2_mono(a: nat, b: nat)
    requires
        a <= b,
    ensures
        pow2(a) <= pow2(b),
{
    if a < b {
        lemma_pow2_strictly_increases(a, b);
    }
}

/// Number of binary digits, by repeated halving.
fn bit_length(m: u128) -> (b: u32)
    ensures
        b == bit_len(m as nat),
        b <= 128,
{
    let mut x: u128 = m;
    let mut b: u32 = 0;
    proof {
        if m > 0 {
            lemma_bit_len(m as nat);
            if bit_len(m as nat) > 128 {
                lemma_pow2_mono(128, (bit_len(m as nat) - 1) as nat);
            }
        }
        lemma_pow2_adds(64, 64);
        lemma2_to64();
    }
    while x > 0
        invariant
            b + bit_len(x as nat) == bit_len(m as nat),
            bit_len(m as nat) <= 128,
        decreases x,
    {
        x = x / 2;
        b = b + 1;
    }
    b
}

/// `2^n`.
fn exp2(n: u32) -> (r: u128)
    requires
        n <= 120,
    ensures
        r == pow2(n as nat),
{
    let h: u32 = n / 2;
    let g: u32 = n - h;
    proof {
        lemma_pow2_adds(h as nat, g as nat);
        lemma_pow2_mono(h as nat, 60);
        lemma_pow2_mono(g as nat, 60);
        lemma2_to64_rest();
        vstd::bits::lemma_u64_shl_is_mul(1, h as u64);
        vstd::bits::lemma_u64_shl_is_mul(1, g as u64);
        assert((1u64 << h as u64) * (1u64 << g as u64) < 0x1000000000000000 * 0x1000000000000001)
            by (nonlinear_arith)
            requires
                (1u64 << h as u64) <= 0x1000000000000000,
                (1u64 << g as u64) <= 0x1000000000000000,
        ;
    }
    (1u64 << h as u64) as u128 * ((1u64 << g as u64) as u128)
}

/// Rounding `m` to 24 digits, or to fewer at a coarser step, leaves at most `2^24`.
proof fn lemma_rounded_mantissa(m: nat, k: int)
    requires
        m > 0,
    ensures
        round_mantissa(m, k, round_scale(m, k)) <= 0x0100_0000,
{
    let s = round_scale(m, k);
    let b = bit_len(m);
    lemma_bit_len(m);
    lemma2_to64();
    if k >= s {
        let t = (k - s) as nat;
        assert(t + b <= 24);
        lemma_pow2_adds(b, t);
        lemma_pow2_mono(b + t, 24);
        lemma_pow2_pos(t);
        assert(m * pow2(t) <= pow2(b) * pow2(t)) by (nonlinear_arith)
            requires
                m < pow2(b),
        ;
    } else {
        let d = pow2((s - k) as nat);
        lemma_pow2_pos((s - k) as nat);
        lemma_pow2_adds(24, (s - k) as nat);
        lemma_pow2_mono(b, (24 + (s - k)) as nat);
        assert(m < 0x0100_0000 * d);
        assert(m / d < 0x0100_0000) by (nonlinear_arith)
            requires
                m < 0x0100_0000 * d,
                d > 0,
        ;
    }
}

/// The pattern nearest to `(-1)^neg * m * 2^(k - 150)`.
fn round(neg: bool, m: u128, k: i32) -> (r: F32)
    requires
        m < pow2(100),
        -1000 <= k <= 1000,
    ensures
        r == round_spec(neg, m as nat, k as int),
{
    if m == 0 {
        return F32 { bits: if neg { SIGN } else { 0 } };
    }
    let b: u32 = bit_length(m);
    let t: i32 = k + b as i32 - 24;
    let s: i32 = if t > 1 { t } else { 1 };
    proof {
        lemma_rounded_mantissa(m as nat, k as int);
        lemma_bit_len(m as nat);
        lemma2_to64();
        lemma2_to64_rest();
    }
    let q: u128 = if k >= s {
        let p: u128 = exp2((k - s) as u32);
        m * p
    } else {
        let sh: i32 = s - k;
        if sh > 110 {
            proof {
                lemma_pow2_mono(101, sh as nat);
                lemma_pow2_adds(1, 100);
                let d = pow2(sh as nat);
                assert(m as nat / d == 0 && m as nat % d == m as nat) by (nonlinear_arith)
                    requires
                        0 <= m as nat,
                        (m as nat) < d,
                ;
            }
            0
        } else {
            let d: u128 = exp2(sh as u32);
            proof {
                lemma_pow2_pos(sh as nat);
            }
            let q0: u128 = m / d;
            let r: u128 = m % d;
            if r > d - r || (r == d - r && q0 % 2 == 1) {
                q0 + 1
            } else {
                q0
            }
        }
    };
    let magnitude: i64 = (s as i64 - 1) * 0x0080_0000 + q as i64;
    if magnitude >= 0x7f80_0000 {
        F32 { bits: if neg { 0xff80_0000 } else { INF_BITS } }
    } else {
        F32 { bits: magnitude as u32 + if neg { SIGN } else { 0 } }
    }
}

/// What the parts of a finite pattern can be.
pub proof fn lemma_parts(x: F32)
    requires
        x.finite(),
    ensures
        1 <= x.scale() <= 254,
        x.mantissa() < 0x0100_0000,
        x.scale() > 1 ==> x.mantissa() >= UNIT,
        x.mantissa() == 0 <==> x.zero(),
        x.magnitude() == (x.scale() - 1) * UNIT + x.mantissa(),
{
}

/// A number far below another's last digit is lost when the two are combined:
/// `big` has scale `k + d`, and `m` is counted in units of scale `k`.
proof fn lemma_absorbed(big: F32, d: nat, m: nat, k: int, plus: bool)
    requires
        big.finite(),
        big.scale() == k + d,
        k >= 1,
        d >= 27,
        m < 0x0100_0000,
    ensures
        big.mantissa() * pow2(d) > m,
        plus ==> round_spec(big.neg(), big.mantissa() * pow2(d) + m, k) == big,
        !plus ==> round_spec(big.neg(), (big.mantissa() * pow2(d) - m) as nat, k) == big,
{
    lemma_parts(big);
    let mm = big.mantissa();
    let p = pow2(d);
    let h = pow2((d - 1) as nat);
    lemma2_to64();
    lemma_pow2_unfold(d);
    lemma_pow2_mono(26, (d - 1) as nat);
    lemma_pow2_adds(24, d);
    lemma_pow2_adds(23, d);
    lemma_pow2_adds(22, d);
    assert(mm * p >= UNIT * p) by (nonlinear_arith)
        requires
            mm >= UNIT,
            p > 0,
    ;
    if plus || m == 0 {
        let n = mm * p + m;
        assert(n < pow2(24 + d)) by (nonlinear_arith)
            requires
                n == mm * p + m,
                m < p,
                mm + 1 <= 0x0100_0000,
                pow2(24 + d) == 0x0100_0000 * p,
        ;
        lemma_bit_len_unique(n, 24 + d);
        vstd::arithmetic::div_mod::lemma_fundamental_div_mod_converse(
            n as int,
            p as int,
            mm as int,
            m as int,
        );
    } else {
        let n = (mm * p - m) as nat;
        if mm > UNIT {
            assert(n == (mm - 1) * p + (p - m)) by (nonlinear_arith)
                requires
                    n == mm * p - m,
            ;
            assert(pow2(23 + d) <= n < pow2(24 + d)) by (nonlinear_arith)
                requires
                    n == (mm - 1) * p + (p - m),
                    0 < m < p,
                    UNIT <= mm - 1,
                    mm <= 0x0100_0000,
                    pow2(24 + d) == 0x0100_0000 * p,
                    pow2(23 + d) == UNIT * p,
            ;
            lemma_bit_len_unique(n, 24 + d);
            vstd::arithmetic::div_mod::lemma_fundamental_div_mod_converse(
                n as int,
                p as int,
                mm - 1,
                p - m,
            );
        } else {
            assert(n == 0x00ff_ffff * h + (h - m)) by (nonlinear_arith)
                requires
                    n == mm * p - m,
                    mm == UNIT,
                    p == 2 * h,
            ;
            lemma_bit_len_unique(n, 23 + d);
            vstd::arithmetic::div_mod::lemma_fundamental_div_mod_converse(
                n as int,
                h as int,
                0x00ff_ffff,
                h - m,
            );
        }
    }
}

impl F32 {
    pub fn is_nan(self) -> (r: bool)
        ensures
            r == self.nan(),
    {
        self.bits % SIGN > INF_BITS
    }

    /// `<`.
    pub fn lt(self, other: F32) -> (r: bool)
        ensures
            r == self.lt_spec(other),
    {
        proof {
            reveal(F32::lt_spec);
        }
        !self.is_nan() && !other.is_nan() && self.order() < other.order()
    }

    /// `<=`.
    pub fn le(self, other: F32) -> (r: bool)
        ensures
            r == self.le_spec(other),
    {
        proof {
            reveal(F32::le_spec);
        }
        !self.is_nan() && !other.is_nan() && self.order() <= other.order()
    }

    /// `==` of the numbers: both zeros are equal, what is no number equals nothing.
    pub fn eq_value(self, other: F32) -> (r: bool)
        ensures
            r == self.eq_spec(other),
    {
        proof {
            reveal(F32::eq_spec);
        }
        !self.is_nan() && !other.is_nan() && self.order() == other.order()
    }

    fn order(self) -> (r: i64)
        ensures
            r == self.key(),
    {
        let m: i64 = (self.bits % SIGN) as i64;
        if self.bits >= SIGN {
            -m
        } else {
            m
        }
    }

    pub fn negate(self) -> (r: F32)
        ensures
            r == self.neg_spec(),
    {
        F32 { bits: if self.bits >= SIGN { self.bits - SIGN } else { self.bits + SIGN } }
    }

    pub fn abs(self) -> (r: F32)
        ensures
            r == self.abs_spec(),
    {
        F32 { bits: self.bits % SIGN }
    }

    fn scale_of(self) -> (r: i32)
        requires
            self.finite(),
        ensures
            r == self.scale(),
    {
        let e: u32 = (self.bits % SIGN) / UNIT;
        if e == 0 {
            1
        } else {
            e as i32
        }
    }

    fn mantissa_of(self) -> (r: u32)
        requires
            self.finite(),
        ensures
            r == self.mantissa(),
    {
        let m: u32 = self.bits % SIGN;
        let e: u32 = m / UNIT;
        if e == 0 {
            m
        } else {
            m - (e - 1) * UNIT
        }
    }

    /// `+`.
    pub fn add(self, other: F32) -> (r: F32)
        ensures
            r == self.add_spec(other),
    {
        proof {
            reveal(F32::add_spec);
        }
        if self.is_nan() || other.is_nan() {
            return F32 { bits: NAN_BITS };
        }
        let self_neg: bool = self.bits >= SIGN;
        let other_neg: bool = other.bits >= SIGN;
        let self_inf: bool = self.bits % SIGN == INF_BITS;
        let other_inf: bool = other.bits % SIGN == INF_BITS;
        if self_inf {
            return if other_inf && self_neg != other_neg {
                F32 { bits: NAN_BITS }
            } else {
                self
            };
        }
        if other_inf {
            return other;
        }
        if self.scale_of() >= other.scale_of() {
            self.add_scaled(other)
        } else {
            other.add_scaled(self)
        }
    }

    /// Sum of two finite numbers, the first at least as coarse as the second.
    fn add_scaled(self, other: F32) -> (r: F32)
        requires
            self.finite(),
            other.finite(),
            self.scale() >= other.scale(),
        ensures
            r == self.add_spec(other),
            r == other.add_spec(self),
    {
        proof {
            reveal(F32::add_spec);
        }
        let k: i32 = other.scale_of();
        let d: i32 = self.scale_of() - k;
        let a: u32 = self.mantissa_of();
        let b: u32 = other.mantissa_of();
        let self_neg: bool = self.bits >= SIGN;
        let other_neg: bool = other.bits >= SIGN;
        proof {
            lemma_parts(self);
            lemma_parts(other);
            lemma2_to64();
            assert(b * 1 == b);
        }
        if d > 60 {
            proof {
                lemma_absorbed(self, d as nat, b as nat, k as int, self_neg == other_neg);
            }
            return self;
        }
        let p: u128 = exp2(d as u32);
        proof {
            lemma_pow2_mono(d as nat, 60);
            lemma2_to64_rest();
            assert(0 <= a * p < 0x0100_0000 * 0x1000_0000_0000_0001) by (nonlinear_arith)
                requires
                    0 <= a < 0x0100_0000,
                    0 <= p <= 0x1000_0000_0000_0000,
            ;
            lemma_pow2_adds(50, 50);
        }
        let wide: i128 = (a as u128 * p) as i128;
        let sum: i128 = (if self_neg { -wide } else { wide }) + (if other_neg {
            -(b as i128)
        } else {
            b as i128
        });
        if sum == 0 {
            F32 { bits: if self_neg && other_neg { SIGN } else { 0 } }
        } else if sum < 0 {
            round(true, (-sum) as u128, k)
        } else {
            round(false, sum as u128, k)
        }
    }

    /// `-`.
    pub fn sub(self, other: F32) -> (r: F32)
        ensures
            r == self.sub_spec(other),
    {
        proof {
            reveal(F32::sub_spec);
        }
        self.add(other.negate())
    }
}

pub proof fn lemma_int_sqrt_unique(n: nat, m: nat)
    requires
        is_int_sqrt(n, m),
    ensures
        int_sqrt(m) == n,
{
    let c = int_sqrt(m);
    assert(is_int_sqrt(c, m));
    assert(c == n) by (nonlinear_arith)
        requires
            n * n <= m < (n + 1) * (n + 1),
            c * c <= m < (c + 1) * (c + 1),
    ;
}

/// Integer square root, one binary digit at a time.
fn isqrt(m: u128) -> (n: u128)
    requires
        m < pow2(76),
    ensures
        n == int_sqrt(m as nat),
        is_int_sqrt(n as nat, m as nat),
        n < pow2(38),
{
    let mut n: u128 = 0;
    let mut i: u32 = 38;
    let mut step: u128 = exp2(38);
    proof {
        lemma_pow2_adds(38, 38);
        assert(0 + step == step);
        lemma2_to64_rest();
    }
    while i > 0
        invariant
            i <= 38,
            step == pow2(i as nat),
            step > 0,
            n * n <= m,
            m < (n + step) * (n + step),
            n + step <= pow2(38),
            pow2(38) == 0x40_0000_0000,
        decreases i,
    {
        proof {
            lemma_pow2_unfold(i as nat);
            lemma_pow2_pos((i - 1) as nat);
        }
        i = i - 1;
        let half: u128 = exp2(i);
        assert(step == 2 * half);
        assert((n + half) * (n + half) <= 0x40_0000_0000 * 0x40_0000_0000) by (nonlinear_arith)
            requires
                0 <= n + half <= 0x40_0000_0000,
        ;
        if (n + half) * (n + half) <= m {
            n = n + half;
        }
        step = half;
    }
    proof {
        lemma2_to64();
        lemma_int_sqrt_unique(n as nat, m as nat);
    }
    n
}

impl F32 {
    /// `*`.
    pub fn mul(self, other: F32) -> (r: F32)
        ensures
            r == self.mul_spec(other),
    {
        proof {
            reveal(F32::mul_spec);
        }
        if self.is_nan() || other.is_nan() {
            return F32 { bits: NAN_BITS };
        }
        let neg: bool = (self.bits >= SIGN) != (other.bits >= SIGN);
        if self.bits % SIGN == INF_BITS || other.bits % SIGN == INF_BITS {
            return if self.bits % SIGN == 0 || other.bits % SIGN == 0 {
                F32 { bits: NAN_BITS }
            } else {
                F32 { bits: if neg { 0xff80_0000 } else { INF_BITS } }
            };
        }
        let a: u32 = self.mantissa_of();
        let b: u32 = other.mantissa_of();
        proof {
            lemma_parts(self);
            lemma_parts(other);
            assert(0 <= a * b <= 0x0100_0000 * 0x0100_0000) by (nonlinear_arith)
                requires
                    0 <= a < 0x0100_0000,
                    0 <= b < 0x0100_0000,
            ;
            lemma2_to64_rest();
            lemma_pow2_mono(60, 100);
        }
        round(neg, a as u128 * (b as u128), self.scale_of() + other.scale_of() - 150)
    }

    /// `/`.
    pub fn div(self, other: F32) -> (r: F32)
        ensures
            r == self.div_spec(other),
    {
        proof {
            reveal(F32::div_spec);
        }
        if self.is_nan() || other.is_nan() {
            return F32 { bits: NAN_BITS };
        }
        let neg: bool = (self.bits >= SIGN) != (other.bits >= SIGN);
        if self.bits % SIGN == INF_BITS {
            return if other.bits % SIGN == INF_BITS {
                F32 { bits: NAN_BITS }
            } else {
                F32 { bits: if neg { 0xff80_0000 } else { INF_BITS } }
            };
        }
        if other.bits % SIGN == INF_BITS {
            return F32 { bits: if neg { SIGN } else { 0 } };
        }
        if other.bits % SIGN == 0 {
            return if self.bits % SIGN == 0 {
                F32 { bits: NAN_BITS }
            } else {
                F32 { bits: if neg { 0xff80_0000 } else { INF_BITS } }
            };
        }
        proof {
            lemma_parts(self);
            lemma_parts(other);
            lemma2_to64();
            lemma2_to64_rest();
            lemma_pow2_adds(24, 50);
            lemma_pow2_adds(74, 1);
            lemma_pow2_mono(76, 100);
            lemma_pow2_adds(75, 1);
            assert(self.mantissa() * pow2(50) < 0x0100_0000 * pow2(50)) by (nonlinear_arith)
                requires
                    self.mantissa() < 0x0100_0000,
                    pow2(50) > 0,
            ;
        }
        let n: u128 = self.mantissa_of() as u128 * exp2(50);
        let d: u128 = other.mantissa_of() as u128;
        proof {
            assert(n / d <= n) by (nonlinear_arith)
                requires
                    n >= 0,
                    d >= 1,
            ;
        }
        let q: u128 = 2 * (n / d) + if n % d != 0 {
            1
        } else {
            0
        };
        round(neg, q, self.scale_of() - other.scale_of() + 99)
    }

    /// Square root.
    pub fn sqrt(self) -> (r: F32)
        ensures
            r == self.sqrt_spec(),
    {
        proof {
            reveal(F32::sqrt_spec);
        }
        if self.is_nan() {
            return F32 { bits: NAN_BITS };
        }
        if self.bits % SIGN == 0 {
            return self;
        }
        if self.bits >= SIGN {
            return F32 { bits: NAN_BITS };
        }
        if self.bits == INF_BITS {
            return self;
        }
        let k: i32 = self.scale_of();
        let places: i32 = if k % 2 == 0 { 50 } else { 51 };
        proof {
            lemma_parts(self);
            lemma2_to64();
            lemma2_to64_rest();
            lemma_pow2_adds(24, places as nat);
            lemma_pow2_mono((24 + places) as nat, 76);
            lemma_pow2_mono(60, 100);
            lemma_pow2_mono(places as nat, 51);
            assert(self.mantissa() * pow2(places as nat) < 0x0100_0000 * pow2(places as nat))
                by (nonlinear_arith)
                requires
                    self.mantissa() < 0x0100_0000,
                    pow2(places as nat) > 0,
            ;
            lemma_pow2_adds(60, 16);
        }
        let m: u128 = self.mantissa_of() as u128 * exp2(places as u32);
        let n: u128 = isqrt(m);
        assert(n * n <= m);
        let root: u128 = 2 * n + if n * n != m {
            1
        } else {
            0
        };
        assert((k - 150 - places) % 2 == 0);
        let e: i32 = (k + 250 - places) / 2 - 200 + 149;
        round(false, root, e)
    }

    /// Largest integer not above a finite number; `2^33` or more in size where
    /// that is not so small.
    fn floor_wide(self) -> (r: i64)
        requires
            self.finite(),
        ensures
            r == self.floor_int() || (r == 0x2_0000_0000 && self.floor_int() >= r) || (r
                == -0x2_0000_0000 && self.floor_int() <= r),
            -0x4_0000_0000 <= r <= 0x4_0000_0000,
    {
        let neg: bool = self.bits >= SIGN;
        let k: i32 = self.scale_of();
        let m: i64 = self.mantissa_of() as i64;
        let v: i64 = if neg { -m } else { m };
        proof {
            lemma_parts(self);
            lemma2_to64();
        }
        if k >= 160 {
            proof {
                lemma_pow2_mono(10, (k - 150) as nat);
                assert(m * pow2((k - 150) as nat) >= 0x0080_0000 * 1024) by (nonlinear_arith)
                    requires
                        m >= 0x0080_0000,
                        pow2((k - 150) as nat) >= 1024,
                ;
                assert((-m) * pow2((k - 150) as nat) == -(m * pow2((k - 150) as nat)))
                    by (nonlinear_arith);
            }
            return if neg { -0x2_0000_0000 } else { 0x2_0000_0000 };
        }
        if k >= 150 {
            let p: i64 = exp2((k - 150) as u32) as i64;
            proof {
                lemma_pow2_mono((k - 150) as nat, 10);
                assert(-0x0100_0000 * 1024 <= v * p <= 0x0100_0000 * 1024) by (nonlinear_arith)
                    requires
                        -0x0100_0000 <= v <= 0x0100_0000,
                        0 <= p <= 1024,
                ;
            }
            v * p
        } else if k < 120 {
            proof {
                let p = pow2((150 - k) as nat);
                lemma_pow2_mono(30, (150 - k) as nat);
                if v < 0 {
                    vstd::arithmetic::div_mod::lemma_fundamental_div_mod_converse(
                        v as int,
                        p as int,
                        -1,
                        p + v,
                    );
                } else {
                    vstd::arithmetic::div_mod::lemma_fundamental_div_mod_converse(
                        v as int,
                        p as int,
                        0,
                        v as int,
                    );
                }
            }
            if v < 0 {
                -1
            } else {
                0
            }
        } else {
            let p: i64 = exp2((150 - k) as u32) as i64;
            proof {
                lemma_pow2_mono((150 - k) as nat, 30);
                lemma_pow2_pos((150 - k) as nat);
            }
            floor_div(v, p)
        }
    }

    /// Rounded down to an `i32`.
    pub fn floor(self) -> (r: i32)
        ensures
            r == self.floor_spec(),
    {
        proof {
            reveal(F32::floor_spec);
        }
        if self.is_nan() {
            return 0;
        }
        if self.bits % SIGN == INF_BITS {
            return if self.bits >= SIGN { i32::MIN } else { i32::MAX };
        }
        saturate(self.floor_wide())
    }

    /// Rounded up to an `i32`.
    pub fn ceil(self) -> (r: i32)
        ensures
            r == self.ceil_spec(),
    {
        proof {
            reveal(F32::ceil_spec);
            reveal(F32::floor_spec);
        }
        if self.bits % SIGN >= INF_BITS {
            return self.floor();
        }
        saturate(-self.negate().floor_wide())
    }

    /// Rounded toward zero to a `u32`; 0 below zero.
    pub fn trunc(self) -> (r: u32)
        ensures
            r == self.trunc_spec(),
    {
        proof {
            reveal(F32::trunc_spec);
        }
        if self.is_nan() || self.bits >= SIGN {
            return 0;
        }
        if self.bits == INF_BITS {
            return u32::MAX;
        }
        let w: i64 = self.floor_wide();
        proof {
            lemma_parts(self);
            lemma_pow2_pos((150 - self.scale()) as nat);
            if self.scale() < 150 {
                vstd::arithmetic::div_mod::lemma_div_pos_is_pos(
                    self.signed(),
                    pow2((150 - self.scale()) as nat) as int,
                );
            } else {
                assert(self.signed() * pow2((self.scale() - 150) as nat) >= 0)
                    by (nonlinear_arith)
                    requires
                        self.signed() >= 0,
                ;
            }
        }
        if w > u32::MAX as i64 {
            u32::MAX
        } else {
            w as u32
        }
    }

    /// The smaller; where one is no number, the other.
    pub fn min(self, other: F32) -> (r: F32)
        ensures
            r == self.min_spec(other),
    {
        if self.is_nan() || other.lt(self) {
            other
        } else {
            self
        }
    }

    /// The larger; where one is no number, the other.
    pub fn max(self, other: F32) -> (r: F32)
        ensures
            r == self.max_spec(other),
    {
        if self.is_nan() || self.lt(other) {
            other
        } else {
            self
        }
    }

    /// The nearest number from `lo` to `hi`.
    pub fn clamp(self, lo: F32, hi: F32) -> (r: F32)
        ensures
            r == self.clamp_spec(lo, hi),
    {
        if self.lt(lo) {
            lo
        } else if hi.lt(self) {
            hi
        } else {
            self
        }
    }

    /// The number nearest to an integer.
    pub fn from_int(v: i64) -> (r: F32)
        ensures
            r == from_int_spec(v as int),
    {
        proof {
            reveal(from_int_spec);
        }
        proof {
            lemma2_to64();
            lemma_pow2_mono(64, 100);
        }
        if v < 0 {
            round(true, (-(v as i128)) as u128, 150)
        } else {
            round(false, v as u128, 150)
        }
    }

    /// The number nearest to a count.
    pub fn from_count(n: usize) -> (r: F32)
        ensures
            r == from_int_spec(n as int),
    {
        proof {
            reveal(from_int_spec);
            lemma2_to64();
            lemma_pow2_mono(64, 100);
        }
        round(false, n as u128, 150)
    }
}

fn saturate(w: i64) -> (r: i32)
    ensures
        r == clamp_i32(w as int),
{
    if w < i32::MIN as i64 {
        i32::MIN
    } else if w > i32::MAX as i64 {
        i32::MAX
    } else {
        w as i32
    }
}

/// `v / p`, rounded down.
fn floor_div(v: i64, p: i64) -> (r: i64)
    requires
        -0x0100_0000 <= v <= 0x0100_0000,
        0 < p <= 0x4000_0000,
    ensures
        r == v as int / p as int,
        -0x0100_0000 <= r <= 0x0100_0000,
{
    if v >= 0 {
        proof {
            assert(0 <= v as int / p as int <= v) by (nonlinear_arith)
                requires
                    v >= 0,
                    p > 0,
            ;
        }
        v / p
    } else {
        let u: i64 = -v;
        let q: i64 = (u - 1) / p;
        proof {
            let r = (u - 1) % p as int;
            vstd::arithmetic::div_mod::lemma_fundamental_div_mod(u - 1, p as int);
            assert(v == (-1 - q) * p + (p - 1 - r)) by (nonlinear_arith)
                requires
                    u - 1 == p * q + r,
                    u == -v,
            ;
            vstd::arithmetic::div_mod::lemma_fundamental_div_mod_converse(
                v as int,
                p as int,
                -1 - q,
                p - 1 - r,
            );
            assert(0 <= q <= u - 1) by (nonlinear_arith)
                requires
                    u - 1 >= 0,
                    p > 0,
                    q == (u - 1) / p as int,
            ;
        }
        -1 - q
    }
}

} // verus!
