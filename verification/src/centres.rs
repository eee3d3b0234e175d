//! Tiles and their middles: whoever is put on a tile stands on it.

use vstd::prelude::*;
use vstd::arithmetic::power2::{lemma2_to64, lemma_pow2_adds, lemma_pow2_pos, pow2};
use crate::float::{
    bit_len, div_nearest_even, from_int_spec, lemma_bit_len, lemma_bit_len_unique, lemma_pow2_mono,
    round_spec, F32,
};
use crate::unit::{EntityView, Faction, Job};
use crate::vec2::{tile_center_spec, Coord};
use crate::village::{sum_x, sum_y, village_center_spec};

verus! {

/// A number of at most 24 digits is kept as it is, at any scale that is not too small.
proof fn lemma_exact(neg: bool, o: nat, c: nat, k: int)
    requires
        0 < o < 0x0100_0000,
        k + c >= 24,
        k + c <= 200,
        k >= 1,
    ensures
        ({
            let r = round_spec(neg, o * pow2(c), k);
            let b = bit_len(o);
            &&& 1 <= b <= 24
            &&& r.finite()
            &&& r.neg() == neg
            &&& r.scale() == k + c + b - 24
            &&& r.mantissa() == o * pow2((24 - b) as nat)
            &&& 0x0080_0000 <= r.mantissa() < 0x0100_0000
        }),
{
    lemma2_to64();
    lemma_bit_len(o);
    let b = bit_len(o);
    if b > 24 {
        lemma_pow2_mono(24, (b - 1) as nat);
    }
    let m = o * pow2(c);
    lemma_pow2_pos(c);
    lemma_pow2_adds((b - 1) as nat, c);
    lemma_pow2_adds(b, c);
    let p = pow2(c) as int;
    let lo = pow2((b - 1) as nat) as int;
    let hi = pow2(b) as int;
    assert(lo * p <= o * p < hi * p) by (nonlinear_arith)
        requires
            lo <= o < hi,
            p > 0,
    ;
    lemma_bit_len_unique(m, b + c);
    let s = k + c + b - 24;
    let e = (24 - b) as nat;
    let q = o * pow2(e);
    assert(crate::float::round_scale(m, k) == s);
    lemma_pow2_pos(e);
    if k >= s {
        let d = (k - s) as nat;
        lemma_pow2_adds(c, d);
        let pd = pow2(d) as int;
        let pe = pow2(e) as int;
        assert(o * p * pd == o * pe) by (nonlinear_arith)
            requires
                p * pd == pe,
        ;
    } else {
        let d = (s - k) as nat;
        lemma_pow2_adds(e, d);
        lemma_pow2_pos(d);
        let pd = pow2(d) as int;
        let pe = pow2(e) as int;
        assert(o * p == (o * pe) * pd) by (nonlinear_arith)
            requires
                pe * pd == p,
        ;
        assert(((o * pe) * pd) / pd == o * pe && ((o * pe) * pd) % pd == 0) by {
            vstd::arithmetic::div_mod::lemma_div_multiples_vanish(o * pe, pd);
            vstd::arithmetic::div_mod::lemma_mod_multiples_basic(o * pe, pd);
            assert((o * pe) * pd == pd * (o * pe)) by (nonlinear_arith);
        }
        assert(div_nearest_even(m, pow2(d)) == q);
    }
    assert(crate::float::round_mantissa(m, k, s) == q);
    lemma_pow2_adds((b - 1) as nat, e);
    lemma_pow2_adds(b, e);
    let pe = pow2(e) as int;
    assert(lo * pe <= o * pe < hi * pe) by (nonlinear_arith)
        requires
            lo <= o < hi,
            pe > 0,
    ;
    assert(0x0080_0000 <= q < 0x0100_0000);
}

/// Half past a whole number, rounded down, is that number.
proof fn lemma_half_past(v: int)
    requires
        -0x40_0000 < v < 0x40_0000,
    ensures
        from_int_spec(v).add_spec(F32 { bits: 0x3f00_0000 }).floor_spec() == v,
{
    reveal(from_int_spec);
    reveal(F32::add_spec);
    reveal(F32::floor_spec);
    lemma2_to64();
    let a = from_int_spec(v);
    let half = F32 { bits: 0x3f00_0000 };
    assert(half.scale() == 126 && half.mantissa() == 0x0080_0000 && !half.neg());
    let neg = v < 0;
    let size = (if neg {
        -v
    } else {
        v
    }) as nat;
    let sum = a.add_spec(half);
    if v == 0 {
        assert(a.scale() == 1 && a.mantissa() == 0 && !a.neg());
        lemma_pow2_adds(23, 125);
        assert(0x0080_0000 * pow2(125) == pow2(148));
        assert(a.units(1) == 0) by {
            assert(0 * pow2(0) == 0);
        }
        assert(half.units(1) == pow2(148));
        lemma_pow2_pos(148);
        assert(1 * pow2(148) == pow2(148));
        lemma_exact(false, 1, 148, 1);
        lemma_bit_len_unique(1, 1);
        assert(sum == round_spec(false, pow2(148), 1));
        assert(sum.scale() == 126 && sum.mantissa() == 0x0080_0000);
        assert(sum.signed() / pow2(24) as int == 0);
    } else {
        lemma_exact(neg, size, 0, 150);
        assert(size * pow2(0) == size) by (nonlinear_arith)
            requires
                pow2(0) == 1,
        ;
        let b = bit_len(size);
        let pa = pow2((24 - b) as nat) as int;
        let pb = pow2(b) as int;
        lemma_pow2_adds((24 - b) as nat, b);
        assert((size * pa) * pb == size * 0x0100_0000) by (nonlinear_arith)
            requires
                pa * pb == 0x0100_0000,
        ;
        assert(a.units(126) == v * 0x0100_0000);
        assert(half.units(126) == 0x0080_0000);
        let odd = 2 * v + 1;
        let o = (if neg {
            -odd
        } else {
            odd
        }) as nat;
        lemma_exact(neg, o, 23, 126);
        assert(sum == round_spec(neg, o * pow2(23), 126));
        let d = bit_len(o);
        let p = pow2((24 - d) as nat) as int;
        lemma_pow2_pos((24 - d) as nat);
        lemma_pow2_adds(1, (24 - d) as nat);
        assert(sum.scale() == 125 + d);
        assert(sum.signed() == odd * p) by {
            assert(-(o * p) == (-o) * p) by (nonlinear_arith);
        }
        assert(pow2((150 - sum.scale()) as nat) == 2 * p);
        assert(odd * p == v * (2 * p) + p) by (nonlinear_arith)
            requires
                odd == 2 * v + 1,
        ;
        vstd::arithmetic::div_mod::lemma_fundamental_div_mod_converse(odd * p, 2 * p, v, p);
    }
}

/// The middle of a tile lies on that tile, and no two tiles share a middle. (Tiles four million
/// steps out and beyond are too far for a middle of their own.)
pub proof fn law_tiles_have_middles(t: Coord, u: Coord)
    requires
        -0x40_0000 < t.0 < 0x40_0000,
        -0x40_0000 < t.1 < 0x40_0000,
        -0x40_0000 < u.0 < 0x40_0000,
        -0x40_0000 < u.1 < 0x40_0000,
    ensures
        tile_center_spec(t).tile_spec() == t,
        tile_center_spec(t) == tile_center_spec(u) ==> t == u,
{
    lemma_half_past(t.0 as int);
    lemma_half_past(t.1 as int);
    lemma_half_past(u.0 as int);
    lemma_half_past(u.1 as int);
}

/// A whole number divided by one stays as it is.
proof fn lemma_by_one(v: int)
    requires
        -0x40_0000 < v < 0x40_0000,
    ensures
        from_int_spec(v).div_spec(from_int_spec(1)) == from_int_spec(v),
{
    reveal(from_int_spec);
    reveal(F32::div_spec);
    lemma2_to64();
    let a = from_int_spec(v);
    let one = from_int_spec(1);
    assert(1 * pow2(0) == 1);
    lemma_exact(false, 1, 0, 150);
    lemma_bit_len_unique(1, 1);
    assert(one.scale() == 127 && one.mantissa() == 0x0080_0000 && !one.neg());
    if v == 0 {
        assert(a.mantissa() == 0);
        assert(0 * pow2(50) == 0);
        assert(a.quotient(one) == 0);
    } else {
        let neg = v < 0;
        let size = (if neg {
            -v
        } else {
            v
        }) as nat;
        lemma_exact(neg, size, 0, 150);
        assert(size * pow2(0) == size) by (nonlinear_arith)
            requires
                pow2(0) == 1,
        ;
        let m = a.mantissa();
        lemma_pow2_adds(27, 23);
        lemma_pow2_adds(1, 27);
        let q = m * pow2(27) as int;
        assert(m * pow2(50) == q * 0x0080_0000) by (nonlinear_arith)
            requires
                q == m * pow2(27) as int,
                pow2(50) == pow2(27) * 0x0080_0000,
        ;
        assert((m * pow2(50)) / 0x0080_0000 == q && (m * pow2(50)) % 0x0080_0000 == 0) by {
            assert(q * 0x0080_0000 == q * 0x0080_0000 + 0);
            vstd::arithmetic::div_mod::lemma_fundamental_div_mod_converse(
                q * 0x0080_0000,
                0x0080_0000,
                q,
                0,
            );
        }
        assert(2 * q == m * pow2(28)) by (nonlinear_arith)
            requires
                q == m * pow2(27) as int,
                pow2(28) == 2 * pow2(27),
        ;
        assert(a.quotient(one) == m * pow2(28));
        lemma_exact(neg, m, 28, a.scale() - 28);
        lemma_bit_len_unique(m, 24);
        let r = a.div_spec(one);
        assert(m * pow2(0) == m) by (nonlinear_arith)
            requires
                pow2(0) == 1,
        ;
        assert(r.scale() == a.scale() && r.mantissa() == m && r.neg() == neg);
        assert(r.magnitude() == a.magnitude());
        assert(r.bits == a.bits);
    }
}

/// The middle of a village of one house is the middle of the house.
pub proof fn law_lone_houses_are_their_own_middle(t: Coord)
    requires
        -0x40_0000 < t.0 < 0x40_0000,
        -0x40_0000 < t.1 < 0x40_0000,
    ensures
        village_center_spec(seq![t]) == tile_center_spec(t),
        village_center_spec(seq![t]).tile_spec() == t,
{
    let v = seq![t];
    assert(v.drop_last() =~= Seq::empty());
    reveal_with_fuel(sum_x, 2);
    reveal_with_fuel(sum_y, 2);
    lemma_by_one(t.0 as int);
    lemma_by_one(t.1 as int);
    law_tiles_have_middles(t, t);
}

/// Whoever comes into the world on a tile stands on it, as fit as any, with nothing to do yet.
pub proof fn law_newcomers_stand_on_their_tile(faction: Faction, job: Job, t: Coord)
    requires
        -0x40_0000 < t.0 < 0x40_0000,
        -0x40_0000 < t.1 < 0x40_0000,
    ensures
        ({
            let e = EntityView::fresh(faction, job, t);
            &&& e.tile() == t
            &&& e.faction == faction && e.job == job
            &&& e.hp == e.max_hp
            &&& e.path.len() == 0
            &&& e.target_node is None && e.mine_target is None && e.build_site is None
            &&& !e.sheltered
            // Sixty hit points for a knight, twenty-eight for a farmer of the player's and
            // twenty-two for one of the enemy's.
            &&& e.max_hp == (F32 {
                bits: match job {
                    Job::Knight => 0x4270_0000,
                    Job::Farmer => if faction == Faction::Player {
                        0x41e0_0000
                    } else {
                        0x41b0_0000
                    },
                },
            })
        }),
{
    law_tiles_have_middles(t, t);
}

} // verus!
