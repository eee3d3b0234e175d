//! Quotients and roots are rounded as the exact ones would be, although they are
//! computed to so many places only.

use vstd::prelude::*;
use vstd::arithmetic::div_mod::{lemma_fundamental_div_mod, lemma_fundamental_div_mod_converse};
use vstd::arithmetic::power2::*;
use crate::float::{
    bit_len, div_nearest_even, int_sqrt, is_int_sqrt, lemma_bit_len, lemma_int_sqrt_unique,
    lemma_parts, lemma_pow2_mono, round_mantissa, round_scale, F32,
};

verus! {

/// A number with that many digits is at least so large.
proof fn lemma_long(m: nat, b: nat)
    requires
        b >= 1,
        m >= pow2((b - 1) as nat),
    ensures
        bit_len(m) >= b,
{
    lemma_pow2_pos((b - 1) as nat);
    lemma_bit_len(m);
    if bit_len(m) < b {
        lemma_pow2_mono(bit_len(m), (b - 1) as nat);
    }
}

/// Powers of two from 4 on are multiples of 4.
proof fn lemma_fours(t: nat)
    requires
        t >= 2,
    ensures
        pow2(t) % 4 == 0,
        pow2(t) > 0,
{
    lemma_pow2_adds(2, (t - 2) as nat);
    lemma_pow2_pos(t);
    lemma2_to64();
    let p = pow2((t - 2) as nat);
    assert(pow2(t) == 4 * p) by (nonlinear_arith)
        requires
            pow2(t) == 4 * p,
    ;
}

/// Rounding a quotient to one binary place, with a last digit that tells whether
/// anything is left over, and then to a multiple of 4, is rounding it at once.
proof fn lemma_sticky(n: nat, d: nat, p: nat)
    requires
        d > 0,
        p > 0,
        p % 4 == 0,
    ensures
        div_nearest_even(
            2 * (n / d) + if n % d != 0 {
                1nat
            } else {
                0nat
            },
            p,
        ) == div_nearest_even(2 * n, d * p),
{
    let q = (n / d) as int;
    let r = (n % d) as int;
    let e: int = if r != 0 {
        1
    } else {
        0
    };
    let s = 2 * q + e;
    let a = s / p as int;
    let h = (p / 2) as int;
    lemma_fundamental_div_mod(n as int, d as int);
    lemma_fundamental_div_mod(s, p as int);
    assert(n == d * q + r && 0 <= r < d);
    assert(s == p * a + s % p as int);
    assert(p == 2 * h && h % 2 == 0);
    assert(a >= 0) by (nonlinear_arith)
        requires
            s == p * a + s % p as int,
            s >= 0,
            0 <= s % p as int,
            s % (p as int) < p,
            p > 0,
    ;
    // Multiples of `h` are even.
    let mid = (2 * a + 1) * h;
    assert(p * a == 2 * (a * h)) by (nonlinear_arith)
        requires
            p == 2 * h,
    ;
    assert(mid == p * a + h) by (nonlinear_arith)
        requires
            p == 2 * h,
            mid == (2 * a + 1) * h,
    ;
    assert((p * a) % 2 == 0);
    assert(mid % 2 == 0);
    // Bounds on both, with an even number in between.
    let lo = p * a;
    let hi = p * a + p;
    assert(lo <= 2 * q && 2 * q + 2 <= hi);
    let dp = d * p;
    assert(dp * a <= 2 * n && 2 * n < dp * (a + 1)) by (nonlinear_arith)
        requires
            n == d * q + r,
            0 <= r < d,
            lo == p * a,
            hi == p * a + p,
            lo <= 2 * q,
            2 * q + 2 <= hi,
            dp == d * p,
    ;
    let r2 = 2 * n - dp * a;
    assert(dp > 0) by (nonlinear_arith)
        requires
            dp == d * p,
            d > 0,
            p > 0,
    ;
    assert(0 <= r2 < dp) by (nonlinear_arith)
        requires
            r2 == 2 * n - dp * a,
            dp * a <= 2 * n,
            2 * n < dp * (a + 1),
    ;
    assert(2 * n == a * dp + r2) by (nonlinear_arith)
        requires
            r2 == 2 * n - dp * a,
    ;
    lemma_fundamental_div_mod_converse(2 * n as int, dp as int, a, r2);
    assert((2 * n) / dp == a && (2 * n) % dp == r2);
    // The halfway mark is on the same side of both.
    let dm = d * mid;
    assert(2 * r2 - dp == 2 * (2 * n - dm)) by (nonlinear_arith)
        requires
            r2 == 2 * n - dp * a,
            dp == d * p,
            dm == d * mid,
            mid == p * a + h,
            p == 2 * h,
    ;
    assert(2 * (s % p as int) - p == 2 * (s - mid));
    if s > mid {
        assert(2 * q >= mid);
        assert(2 * n >= dm && (e == 1 ==> 2 * n > dm)) by (nonlinear_arith)
            requires
                n == d * q + r,
                0 <= r < d,
                e == 1 ==> r > 0,
                2 * q >= mid,
                dm == d * mid,
        ;
        if e == 0 {
            assert(2 * n > dm) by (nonlinear_arith)
                requires
                    n == d * q + r,
                    r == 0,
                    d > 0,
                    2 * q > mid,
                    dm == d * mid,
            ;
        }
    } else if s == mid {
        assert(e == 0);
        assert(2 * n == dm) by (nonlinear_arith)
            requires
                n == d * q + r,
                r == 0,
                2 * q == mid,
                dm == d * mid,
        ;
    } else {
        assert(2 * q + 2 <= mid || (e == 0 && 2 * q < mid));
        assert(2 * n < dm) by (nonlinear_arith)
            requires
                n == d * q + r,
                0 <= r < d,
                2 * q + 2 <= mid || (r == 0 && 2 * q < mid),
                dm == d * mid,
        ;
    }
}

/// The mantissa of a quotient is that of the exact quotient, rounded to the nearest
/// integer, ties to the even one.
pub proof fn law_quotient_is_nearest(a: F32, b: F32)
    requires
        a.finite(),
        b.finite(),
        !a.zero(),
        !b.zero(),
    ensures
        ({
            let q = a.quotient(b);
            let k = a.scale() - b.scale() + 150 - 51;
            let s = round_scale(q, k);
            &&& s > k
            &&& round_mantissa(q, k, s) == div_nearest_even(
                2 * (a.mantissa() * pow2(50)),
                b.mantissa() * pow2((s - k) as nat),
            )
        }),
{
    lemma_parts(a);
    lemma_parts(b);
    let n = a.mantissa() * pow2(50);
    let d = b.mantissa();
    let q = a.quotient(b);
    let k = a.scale() - b.scale() + 150 - 51;
    let s = round_scale(q, k);
    lemma2_to64();
    lemma2_to64_rest();
    assert(n >= pow2(50)) by (nonlinear_arith)
        requires
            n == a.mantissa() * pow2(50),
            a.mantissa() >= 1,
    ;
    assert(n / d >= 0x400_0000) by (nonlinear_arith)
        requires
            n >= 0x4_0000_0000_0000,
            0 < d < 0x100_0000,
    ;
    lemma_long(q, 27);
    lemma_fours((s - k) as nat);
    lemma_sticky(n, d, pow2((s - k) as nat));
}

proof fn lemma_int_sqrt_exists(m: nat) -> (n: nat)
    ensures
        is_int_sqrt(n, m),
    decreases m,
{
    if m == 0 {
        assert(is_int_sqrt(0, 0)) by (nonlinear_arith);
        0
    } else {
        let n = lemma_int_sqrt_exists((m - 1) as nat);
        if (n + 1) * (n + 1) <= m {
            assert(m < (n + 1 + 1) * (n + 1 + 1)) by (nonlinear_arith)
                requires
                    m - 1 < (n + 1) * (n + 1),
            ;
            assert(is_int_sqrt(n + 1, m));
            n + 1
        } else {
            n
        }
    }
}

/// The mantissa of a root is one nearest to the exact root: the root lies no more
/// than half a unit above it or below. (Both sides squared, to speak of integers.)
pub proof fn law_root_is_nearest(a: F32)
    requires
        a.finite(),
        !a.neg(),
        !a.zero(),
    ensures
        ({
            let q = a.root();
            let places: int = if a.scale() % 2 == 0 { 50 } else { 51 };
            let k = (a.scale() - 150 - places) / 2 + 149;
            let s = round_scale(q, k);
            let p = pow2((s - k) as nat);
            let m = round_mantissa(q, k, s);
            &&& s > k
            &&& m >= 1
            &&& ((2 * m - 1) * p) * ((2 * m - 1) * p) <= 16 * a.radicand()
            &&& 16 * a.radicand() <= ((2 * m + 1) * p) * ((2 * m + 1) * p)
        }),
{
    lemma_parts(a);
    let x = a.radicand();
    let n = int_sqrt(x);
    let found = lemma_int_sqrt_exists(x);
    lemma_int_sqrt_unique(found, x);
    let q = a.root();
    let places: int = if a.scale() % 2 == 0 { 50 } else { 51 };
    let k = (a.scale() - 150 - places) / 2 + 149;
    let s = round_scale(q, k);
    lemma2_to64();
    lemma2_to64_rest();
    assert(x >= 0x4_0000_0000_0000) by (nonlinear_arith)
        requires
            x == a.mantissa() * pow2(places as nat),
            a.mantissa() >= 1,
            pow2(places as nat) >= 0x4_0000_0000_0000,
    ;
    assert(n >= 0x1ff_ffff) by (nonlinear_arith)
        requires
            x < (n + 1) * (n + 1),
            x >= 0x4_0000_0000_0000,
    ;
    lemma_long(q, 26);
    let t = (s - k) as nat;
    lemma_fours(t);
    let p = pow2(t);
    let h = (p / 2) as int;
    let m = round_mantissa(q, k, s);
    lemma_fundamental_div_mod(q as int, p as int);
    let f = (q / p) as int;
    let r = (q % p) as int;
    assert(p == 2 * h && h % 2 == 0 && h > 0);
    assert(q == p * f + r && 0 <= r < p);
    let lo = (2 * m - 1) * h;
    let hi = (2 * m + 1) * h;
    assert(f >= 0) by (nonlinear_arith)
        requires
            q == p * f + r,
            q >= 0,
            0 <= r < p,
    ;
    assert(lo <= q <= hi) by (nonlinear_arith)
        requires
            q == p * f + r,
            0 <= r < p,
            p == 2 * h,
            lo == (2 * m - 1) * h,
            hi == (2 * m + 1) * h,
            (m == f + 1 && 2 * r >= p) || (m == f && 2 * r <= p),
    ;
    let g = h / 2;
    let (below, above) = ((2 * m - 1) * g, (2 * m + 1) * g);
    assert(lo == 2 * below && hi == 2 * above) by (nonlinear_arith)
        requires
            lo == (2 * m - 1) * h,
            hi == (2 * m + 1) * h,
            below == (2 * m - 1) * g,
            above == (2 * m + 1) * g,
            h == 2 * g,
    ;
    lemma_round_up(q, k, s);
    assert(lo <= 2 * n);
    assert(lo >= 0) by (nonlinear_arith)
        requires
            lo == (2 * m - 1) * h,
            m >= 1,
            h > 0,
    ;
    assert(lo * lo <= 4 * x) by (nonlinear_arith)
        requires
            0 <= lo <= 2 * n,
            n * n <= x,
    ;
    assert(hi >= 0);
    if n * n == x {
        assert(4 * x <= hi * hi) by (nonlinear_arith)
            requires
                2 * n <= hi,
                n * n == x,
        ;
    } else {
        assert(2 * n + 2 <= hi);
        assert(4 * x <= hi * hi) by (nonlinear_arith)
            requires
                2 * n + 2 <= hi,
                x < (n + 1) * (n + 1),
        ;
    }
    assert((2 * m - 1) * p == 2 * lo) by (nonlinear_arith)
        requires
            lo == (2 * m - 1) * h,
            p == 2 * h,
    ;
    assert((2 * m + 1) * p == 2 * hi) by (nonlinear_arith)
        requires
            hi == (2 * m + 1) * h,
            p == 2 * h,
    ;
    let (u, v) = ((2 * m - 1) * p, (2 * m + 1) * p);
    assert(u * u == 4 * (lo * lo)) by (nonlinear_arith)
        requires
            u == 2 * lo,
    ;
    assert(v * v == 4 * (hi * hi)) by (nonlinear_arith)
        requires
            v == 2 * hi,
    ;
}

/// A number of enough digits does not round to nothing.
proof fn lemma_round_up(q: nat, k: int, s: int)
    requires
        s == round_scale(q, k),
        s > k,
        bit_len(q) >= 26,
        k + bit_len(q) - 24 >= 1,
    ensures
        round_mantissa(q, k, s) >= 1,
{
    lemma_bit_len(q);
    let t = (s - k) as nat;
    assert(t == bit_len(q) - 24);
    lemma_pow2_mono(t, (bit_len(q) - 1) as nat);
    lemma_pow2_pos(t);
    assert(q / pow2(t) >= 1) by (nonlinear_arith)
        requires
            q >= pow2(t),
            pow2(t) > 0,
    ;
}

} // verus!
