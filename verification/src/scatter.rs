//! Where the enemy's villages lie: on all sides of the player's, and well away from it.

use vstd::prelude::*;
use vstd::arithmetic::power2::*;
use crate::float::{from_int_spec, lemma_bit_len_unique, F32, UNIT};
use crate::camps::{
    in_order, lemma_first_land, lemma_first_village, lemma_plant, lemma_square, lemma_view,
    lemma_with_camp,
};
use crate::founding::{
    camp_site_spec, camp_target, clear_site, first_anchor, first_land, settled, toward_zero_spec,
    villagers, Camps, CAMP_SALT,
};
use crate::game::GameView;
use crate::grid::{shift_spec, within_spec};
use crate::pathfind::walks;
use crate::rng::range_value;
use crate::survey::{anything, land_region, law_nearest, open_grass, whole_square};
use crate::vec2::Coord;
use crate::world::WorldView;

verus! {

/// A small whole number is kept as it is: `d * 2^e` at the scale that makes up for it.
proof fn lemma_whole(d: int, e: nat)
    requires
        15 <= e <= 18,
        0 < d,
        0x0080_0000 <= d * pow2(e) < 0x0100_0000,
    ensures
        from_int_spec(d).bits < 0x7f80_0000,
        from_int_spec(d).scale() == 150 - e,
        from_int_spec(d).mantissa() == d * pow2(e),
{
    reveal(from_int_spec);
    lemma2_to64();
    let b = (24 - e) as nat;
    lemma_pow2_adds(b, e);
    lemma_pow2_adds((b - 1) as nat, e);
    lemma_pow2_pos(e);
    let p = pow2(e) as int;
    assert(pow2((b - 1) as nat) <= d < pow2(b)) by {
        let lo = pow2((b - 1) as nat) as int;
        let hi = pow2(b) as int;
        assert(lo * p == 0x0080_0000 && hi * p == 0x0100_0000);
        assert(lo <= d) by (nonlinear_arith)
            requires
                lo * p <= d * p,
                p > 0,
        ;
        assert(d < hi) by (nonlinear_arith)
            requires
                d * p < hi * p,
                p > 0,
        ;
    }
    lemma_bit_len_unique(d as nat, b);
}

/// The whole part of a number that is rounded to 24 digits, at a scale below 150.
proof fn lemma_rounded_whole(neg: bool, m: nat, k: int, t: nat, h: nat)
    requires
        23 <= t <= 24,
        14 <= h <= 22,
        pow2((t + 23) as nat) <= m < pow2((t + 24) as nat),
        k + t + h == 150,
        k >= 100,
    ensures
        ({
            let r = crate::float::round_spec(neg, m, k);
            let q = crate::float::div_nearest_even(m, pow2(t));
            let whole = q / pow2(h);
            &&& r.finite()
            &&& r.neg() == neg
            &&& r.magnitude() > 0
            &&& r.scale() < 150
            &&& 0x0080_0000 <= q <= 0x0100_0000
            &&& r.mantissa() / pow2((150 - r.scale()) as nat) == whole
        }),
{
    lemma2_to64();
    lemma2_to64_rest();
    lemma_bit_len_unique(m, (t + 24) as nat);
    let s = k + t;
    assert(crate::float::round_scale(m, k) == s);
    let d = pow2(t);
    let q = crate::float::div_nearest_even(m, d);
    assert(crate::float::round_mantissa(m, k, s) == q);
    lemma_pow2_adds(23, t);
    lemma_pow2_adds(24, t);
    lemma_pow2_pos(t);
    assert(0x0080_0000 <= m / d < 0x0100_0000) by (nonlinear_arith)
        requires
            0x0080_0000 * d <= m < 0x0100_0000 * d,
            d > 0,
    ;
    let r = crate::float::round_spec(neg, m, k);
    let magnitude = (s - 1) * UNIT + q;
    assert(0 < magnitude < 0x7f80_0000);
    assert(r.magnitude() == magnitude);
    if q < 0x0100_0000 {
        assert(r.scale() == s);
        assert(r.mantissa() == q);
    } else {
        assert(q == 0x0100_0000);
        assert(r.scale() == s + 1);
        assert(r.mantissa() == 0x0080_0000);
        lemma_pow2_unfold(h);
        lemma_pow2_pos((h - 1) as nat);
        let c = pow2((h - 1) as nat);
        assert(0x0080_0000nat / c == 0x0100_0000nat / (2 * c)) by {
            vstd::arithmetic::div_mod::lemma_div_denominator(0x0100_0000, 2, c as int);
        }
    }
}

/// A fraction times a whole number, toward zero: next to the true product.
proof fn lemma_times(a: F32, d: int, e: nat)
    requires
        a.finite(),
        124 <= a.scale() <= 127,
        a.mantissa() >= 0x0080_0000,
        15 <= e <= 18,
        0 < d,
        0x0080_0000 <= d * pow2(e) < 0x0100_0000,
    ensures
        ({
            let r = toward_zero_spec(a.mul_spec(from_int_spec(d)));
            let whole = if a.neg() {
                -r
            } else {
                r as int
            };
            let p = pow2((150 - a.scale()) as nat);
            let v = a.mantissa() * d;
            0 <= whole && whole * p <= v + 256 && (whole + 1) * p > v - 256
        }),
{
    lemma2_to64();
    lemma2_to64_rest();
    lemma_whole(d, e);
    let b = from_int_spec(d);
    let ma = a.mantissa();
    let mb = b.mantissa();
    let m = ma * mb;
    crate::float::lemma_parts(a);
    assert(0x0080_0000 * 0x0080_0000 <= m < 0x0100_0000 * 0x0100_0000) by (nonlinear_arith)
        requires
            0x0080_0000 <= ma < 0x0100_0000,
            0x0080_0000 <= mb < 0x0100_0000,
            m == ma * mb,
    ;
    let k = a.scale() + b.scale() - 150;
    let t: nat = if m < 0x8000_0000_0000 {
        23
    } else {
        24
    };
    let h = (150 - k - t) as nat;
    lemma_rounded_whole(a.neg(), m, k, t, h);
    let prod = a.mul_spec(b);
    assert(prod == crate::float::round_spec(a.neg(), m, k)) by {
        reveal(F32::mul_spec);
    }
    let q = crate::float::div_nearest_even(m, pow2(t));
    let whole = q / pow2(h);
    lemma_pow2_pos(h);
    lemma_pow2_pos(t);
    let ph = pow2(h);
    assert(whole * ph <= q < (whole + 1) * ph) by (nonlinear_arith)
        requires
            whole == q / ph,
            ph > 0,
    ;
    assert(0 <= whole <= q) by (nonlinear_arith)
        requires
            whole == q / ph,
            ph > 0,
            q >= 0,
    ;
    lemma_toward_zero(prod, whole as int);
    let d2 = pow2(t);
    let qq = m / d2;
    let rr = m % d2;
    assert(m == qq * d2 + rr && 0 <= rr < d2) by (nonlinear_arith)
        requires
            qq == m / d2,
            rr == m % d2,
            d2 > 0,
    ;
    assert(2 * (q * d2) <= 2 * m + d2 && 2 * m <= 2 * (q * d2) + d2) by (nonlinear_arith)
        requires
            m == qq * d2 + rr,
            0 <= rr < d2,
            q == qq || (q == qq + 1 && 2 * rr >= d2),
            q == qq ==> 2 * rr <= d2,
    ;
    let pe = pow2(e) as int;
    let p = pow2((150 - a.scale()) as nat) as int;
    lemma_pow2_adds((150 - a.scale()) as nat, e);
    lemma_pow2_adds(h, t);
    lemma_pow2_pos(e);
    assert(ph * d2 == p * pe);
    let v = ma * d;
    assert(m == v * pe) by (nonlinear_arith)
        requires
            m == ma * mb,
            mb == d * pe,
            v == ma * d,
    ;
    assert(d2 <= 512 * pe) by {
        assert(pe >= 0x8000) by {
            crate::float::lemma_pow2_mono(15, e);
        }
    }
    let w = whole as int;
    assert(w * p <= v + 256) by (nonlinear_arith)
        requires
            w * ph <= q,
            2 * (q * d2) <= 2 * (v * pe) + d2,
            d2 <= 512 * pe,
            ph * d2 == p * pe,
            pe > 0,
            d2 > 0,
            ph > 0,
    {
        assert((w * ph) * d2 <= q * d2);
        assert((w * ph) * d2 == (w * p) * pe);
        assert(2 * ((w * p) * pe) <= 2 * (v * pe) + 512 * pe);
        assert((w * p) * pe <= (v + 256) * pe);
    }
    assert((w + 1) * p > v - 256) by (nonlinear_arith)
        requires
            q < (w + 1) * ph,
            2 * (v * pe) <= 2 * (q * d2) + d2,
            d2 <= 512 * pe,
            ph * d2 == p * pe,
            pe > 0,
            d2 > 0,
            ph > 0,
    {
        assert(q * d2 < ((w + 1) * ph) * d2);
        assert(((w + 1) * ph) * d2 == ((w + 1) * p) * pe);
        assert(2 * (v * pe) < 2 * (((w + 1) * p) * pe) + 512 * pe);
        assert((v - 256) * pe < ((w + 1) * p) * pe);
    }
}

/// The whole part of a number with its sign.
proof fn lemma_toward_zero(x: F32, whole: int)
    requires
        x.finite(),
        x.magnitude() > 0,
        x.scale() < 150,
        whole == x.mantissa() / pow2((150 - x.scale()) as nat),
        0 <= whole <= 0x0100_0000,
    ensures
        toward_zero_spec(x) == if x.neg() {
            -whole
        } else {
            whole
        },
{
    reveal(F32::lt_spec);
    reveal(F32::floor_spec);
    reveal(F32::ceil_spec);
    if x.neg() {
        let y = x.neg_spec();
        assert(y.magnitude() == x.magnitude());
        assert(!y.neg());
    }
}


/// One coordinate of a point `d` tiles out, where each tile out takes it `b` hundredths of
/// a tile along.
proof fn lemma_arm(bits: u32, b: int, d: int)
    requires
        55 <= d <= 334,
        -100 <= b <= 100,
        ({
            let a = F32 { bits };
            let p = pow2((150 - a.scale()) as nat);
            let size = if b < 0 {
                -b
            } else {
                b
            };
            &&& a.finite()
            &&& 124 <= a.scale() <= 127
            &&& a.mantissa() >= 0x0080_0000
            &&& a.neg() == (b < 0)
            &&& size * p - 100 <= 100 * a.mantissa() <= size * p + 100
        }),
    ensures
        ({
            let r = toward_zero_spec(F32 { bits }.mul_spec(from_int_spec(d)));
            -101 <= 100 * r - b * d <= 101 && -1000 <= r <= 1000
        }),
{
    lemma2_to64();
    lemma2_to64_rest();
    let a = F32 { bits };
    let e: nat = if d < 64 {
        18
    } else if d < 128 {
        17
    } else if d < 256 {
        16
    } else {
        15
    };
    lemma_times(a, d, e);
    let r = toward_zero_spec(a.mul_spec(from_int_spec(d)));
    let w = if a.neg() {
        -r
    } else {
        r as int
    };
    let size = if b < 0 {
        -b
    } else {
        b
    };
    let p = pow2((150 - a.scale()) as nat) as int;
    crate::float::lemma_pow2_mono(23, (150 - a.scale()) as nat);
    let ma = a.mantissa() as int;
    assert(100 * w <= size * d + 1) by (nonlinear_arith)
        requires
            w * p <= ma * d + 256,
            100 * ma <= size * p + 100,
            55 <= d <= 334,
            p >= 0x0080_0000,
    {
        assert(100 * (ma * d) <= (size * p + 100) * d);
        assert((size * p + 100) * d == size * d * p + 100 * d);
        assert(100 * (w * p) <= size * d * p + 100 * d + 25600);
        assert((100 * w) * p < (size * d + 1) * p);
    }
    assert(100 * w >= size * d - 101) by (nonlinear_arith)
        requires
            (w + 1) * p > ma * d - 256,
            100 * ma >= size * p - 100,
            55 <= d <= 334,
            p >= 0x0080_0000,
    {
        assert(100 * (ma * d) >= (size * p - 100) * d);
        assert((size * p - 100) * d == size * d * p - 100 * d);
        assert(100 * ((w + 1) * p) > size * d * p - 100 * d - 25600);
        assert((100 * (w + 1)) * p > (size * d - 1) * p);
    }
    assert(size * d <= 33400) by (nonlinear_arith)
        requires
            0 <= size <= 100,
            55 <= d <= 334,
    ;
    assert(b * d == if b < 0 {
        -(size * d)
    } else {
        size * d
    }) by (nonlinear_arith)
        requires
            size == if b < 0 {
                -b
            } else {
                b
            },
    ;
}

/// How far east and south the tries go, in hundredths of the way out: the first four east,
/// west, south and north, then between north and east, and to the west again; and so on in
/// turn.
pub open spec fn bearing_of(k: int) -> (int, int) {
    let n = k % 6;
    if n == 0 {
        (100, 20)
    } else if n == 1 {
        (-90, 40)
    } else if n == 2 {
        (30, 100)
    } else if n == 3 {
        (-40, -100)
    } else if n == 4 {
        (95, -70)
    } else {
        (-100, -25)
    }
}

/// The tile lies, give or take so many hundredths of a tile either way, on the bearing of
/// the try, `d` tiles out.
pub open spec fn lies_along(t: Coord, k: int, d: int, slack: int) -> bool {
    &&& -slack <= 100 * t.0 - bearing_of(k).0 * d <= slack
    &&& -slack <= 100 * t.1 - bearing_of(k).1 * d <= slack
}

/// The tries for a village go in six different ways in turn, 55 to 90 tiles out at first
/// and 35 farther with every round, give or take eight tiles.
pub proof fn law_tries_go_all_ways(rng: u64, k: int)
    requires
        0 <= k < 48,
    ensures
        exists|d: int|
            55 + 35 * (k / 6) <= d < 90 + 35 * (k / 6) && #[trigger] lies_along(
                camp_target(rng, k),
                k,
                d,
                901,
            ),
{
    lemma2_to64();
    lemma2_to64_rest();
    let d = 55 + 35 * (k / 6) + range_value(rng, 0, 35);
    let b = crate::founding::bearing_spec(k % 6);
    let dir = bearing_of(k);
    let (x, y) = (F32 { bits: b.0 }, F32 { bits: b.1 });
    assert(0 <= k / 6 <= 7);
    assert(x.scale() == 127 || x.scale() == 126 || x.scale() == 125);
    assert(y.scale() == 127 || y.scale() == 126 || y.scale() == 125 || y.scale() == 124);
    lemma_arm(b.0, dir.0, d);
    lemma_arm(b.1, dir.1, d);
    let first = crate::rng::range_next(rng, 0, 35);
    let second = crate::rng::range_next(first, -8, 9);
    assert(-8 <= range_value(first, -8, 9) <= 8);
    assert(-8 <= range_value(second, -8, 9) <= 8);
    assert(lies_along(camp_target(rng, k), k, d, 901));
}

proof fn lemma_first_bearings(k: int, d: int)
    requires
        0 <= k < 4,
    ensures
        k / 6 == 0,
        bearing_of(k).0 * d == if k == 0 {
            100 * d
        } else if k == 1 {
            -90 * d
        } else if k == 2 {
            30 * d
        } else {
            -40 * d
        },
        bearing_of(k).1 * d == if k == 0 {
            20 * d
        } else if k == 1 {
            40 * d
        } else if k == 2 {
            100 * d
        } else {
            -100 * d
        },
{
}

/// The first four tries are on different sides: east, west, south and north of the player.
pub proof fn law_first_tries_surround(rng: u64, k: int)
    requires
        0 <= k < 4,
    ensures
        ({
            let t = camp_target(rng, k);
            &&& k == 0 ==> t.0 >= 45 && t.1 < t.0
            &&& k == 1 ==> t.0 <= -40
            &&& k == 2 ==> t.1 >= 45 && t.0 < t.1
            &&& k == 3 ==> t.1 <= -45 && t.1 < t.0
        }),
{
    law_tries_go_all_ways(rng, k);
    let d = choose|d: int|
        55 + 35 * (k / 6) <= d < 90 + 35 * (k / 6) && #[trigger] lies_along(
            camp_target(rng, k),
            k,
            d,
            901,
        );
    lemma_first_bearings(k, d);
}

/// A tile of a square lies in it.
proof fn lemma_in_square(center: Coord, n: int, will_do: spec_fn(Coord) -> bool, t: Coord)
    requires
        n <= 1089,
        crate::survey::square_spec(center, 16, n, will_do).contains(t),
    ensures
        within_spec(t, center, 16),
    decreases n,
{
    if n > 0 {
        let before = crate::survey::square_spec(center, 16, n - 1, will_do);
        let now = crate::survey::square_spec(center, 16, n, will_do);
        let i = now.index_of(t);
        if i < before.len() {
            assert(before[i] == t);
            lemma_in_square(center, n - 1, will_do, t);
        } else {
            assert(0 <= (n - 1) % 33 <= 32 && 0 <= (n - 1) / 33 <= 32);
        }
    }
}

/// The place for a village is within sixteen tiles of where it was looked for, and is grass
/// clear of the other villages.
proof fn lemma_site(w: WorldView, near: Coord)
    ensures
        camp_site_spec(w, near) matches Some(t) ==> within_spec(t, near, 16) && w.is_open_grass(
            t.0,
            t.1,
        ) && clear_site(w.enemy_house_tiles)(t),
{
    if let Some(t) = camp_site_spec(w, near) {
        let tiles = whole_square(near, 16, open_grass(w));
        let clear = clear_site(w.enemy_house_tiles);
        law_nearest(tiles, near, clear);
        law_nearest(tiles, near, anything());
        assert(tiles.contains(t));
        assert((2 * 16 + 1) * (2 * 16 + 1) == 1089) by (nonlinear_arith);
        lemma_in_square(near, 1089, open_grass(w), t);
        lemma_square(near, 16, 1089, open_grass(w), t);
    }
}

/// The houses from the `from`-th on lie on the bearing of the try, give or take 28 tiles.
pub open spec fn all_along(houses: Seq<Coord>, from: int, k: int, d: int) -> bool {
    forall|i: int| from <= i < houses.len() ==> #[trigger] lies_along(houses[i], k, d, 2801)
}

/// A village founded at a try lies on the bearing of that try: each of its houses does, give
/// or take 28 tiles, 55 to 90 tiles out at first and 35 farther with every round. The houses
/// that stood before stay, and where the search finds a place there is at least one more.
pub proof fn law_village_lies_along_its_bearing(c: Camps, base: WorldView, k: int)
    requires
        0 <= k < 48,
        in_order(c, base),
        c.villages < 4,
    ensures
        ({
            let was = c.world.enemy_house_tiles;
            let now = c.with_camp(k).world.enemy_house_tiles;
            let target = camp_target(c.rng, k);
            &&& was.len() <= now.len()
            &&& now.take(was.len() as int) == was
            &&& camp_site_spec(land_region(c.world, target, 16), target) is Some ==> now.len()
                > was.len() && c.with_camp(k).villages == c.villages + 1
            &&& exists|d: int|
                55 + 35 * (k / 6) <= d < 90 + 35 * (k / 6) && #[trigger] all_along(
                    now,
                    was.len() as int,
                    k,
                    d,
                )
        }),
{
    let was = c.world.enemy_house_tiles;
    let now = c.with_camp(k).world.enemy_house_tiles;
    let target = camp_target(c.rng, k);
    law_tries_go_all_ways(c.rng, k);
    let d = choose|d: int|
        55 + 35 * (k / 6) <= d < 90 + 35 * (k / 6) && #[trigger] lies_along(target, k, d, 901);
    let land = land_region(c.world, target, 16);
    lemma_view(
        c.world,
        base,
        shift_spec(target.0, -16),
        shift_spec(target.1, -16),
        shift_spec(target.0, 16),
        shift_spec(target.1, 16),
    );
    lemma_site(land, target);
    if let Some(anchor) = camp_site_spec(land, target) {
        lemma_plant(land, base, anchor);
        assert forall|i: int| was.len() <= i < now.len() implies #[trigger] lies_along(
            now[i],
            k,
            d,
            2801,
        ) by {
            assert(within_spec(now[i], anchor, 3));
        }
        let houses = now.skip(was.len() as int);
        assert(houses.len() == now.len() - was.len());
    }
    assert(now.take(was.len() as int) =~= was);
    assert(all_along(now, was.len() as int, k, d));
}

/// The enemy's settlements before the first of them is founded.
pub open spec fn before_the_villages(seed: i32) -> Camps {
    let land = first_land(seed);
    let anchor = first_anchor(land);
    let world = settled(land, anchor, 5).0;
    Camps {
        world,
        entities: villagers(whole_square(anchor, 8, walks(world, crate::chunk::NO_OWNER)), 6),
        villages: 0,
        rng: ((seed as u64) ^ CAMP_SALT) | 1,
    }
}

/// The `k`-th try of a new game finds land.
pub open spec fn finds_land(seed: i32, k: int) -> bool {
    let c = before_the_villages(seed).with_camps(k);
    let target = camp_target(c.rng, k);
    camp_site_spec(land_region(c.world, target, 16), target) is Some
}

proof fn lemma_start(seed: i32)
    ensures
        in_order(before_the_villages(seed), before_the_villages(seed).world),
{
    let start = before_the_villages(seed);
    lemma_first_land(seed);
    let land = first_land(seed);
    lemma_first_village(land, first_anchor(land), 5);
    let world = start.world;
    assert(crate::register::exact(world, world.enemy_house_tiles, crate::world::Layer::EnemyHouse))
        by {
        assert forall|t: Coord| world.enemy_house_tiles.contains(t) == crate::register::on(
            world,
            crate::world::Layer::EnemyHouse,
            t,
        ) by {}
    }
}

proof fn lemma_no_more(c: Camps, n: int, k: int)
    requires
        0 <= n <= k,
        c.with_camps(n).villages >= 4,
    ensures
        c.with_camps(k) == c.with_camps(n),
    decreases k,
{
    if k > n {
        lemma_no_more(c, n, k - 1);
    }
}

proof fn lemma_filled(c: Camps, k: int)
    requires
        c.villages >= 4,
    ensures
        c.filled(k) == c,
    decreases k,
{
    if k > 0 {
        lemma_filled(c, k - 1);
    }
}

/// A list that goes on from another.
pub open spec fn goes_on(a: Seq<Coord>, b: Seq<Coord>) -> bool {
    a.len() <= b.len() && forall|i: int| 0 <= i < a.len() ==> #[trigger] b[i] == a[i]
}

/// Where the first four tries all find land, the enemy begins on four sides of the origin:
/// a house in the east, one in the west, one in the south and one in the north.
pub proof fn law_enemies_on_all_sides(seed: i32)
    requires
        finds_land(seed, 0),
        finds_land(seed, 1),
        finds_land(seed, 2),
        finds_land(seed, 3),
    ensures
        ({
            let houses = GameView::founded(seed).world.enemy_house_tiles;
            &&& exists|i: int| 0 <= i < houses.len() && (#[trigger] houses[i]).0 >= 26
            &&& exists|i: int| 0 <= i < houses.len() && (#[trigger] houses[i]).0 <= -21
            &&& exists|i: int| 0 <= i < houses.len() && (#[trigger] houses[i]).1 >= 26
            &&& exists|i: int| 0 <= i < houses.len() && (#[trigger] houses[i]).1 <= -26
        }),
{
    let start = before_the_villages(seed);
    let base = start.world;
    lemma_start(seed);
    let c0 = start.with_camps(0);
    let c1 = start.with_camps(1);
    let c2 = start.with_camps(2);
    let c3 = start.with_camps(3);
    let c4 = start.with_camps(4);
    assert(c0 == start);
    assert(c1 == c0.with_camp(0));
    assert(c2 == c1.with_camp(1));
    assert(c3 == c2.with_camp(2));
    assert(c4 == c3.with_camp(3));
    lemma_with_camp(c0, base, 0);
    lemma_with_camp(c1, base, 1);
    lemma_with_camp(c2, base, 2);
    law_village_lies_along_its_bearing(c0, base, 0);
    law_village_lies_along_its_bearing(c1, base, 1);
    law_village_lies_along_its_bearing(c2, base, 2);
    law_village_lies_along_its_bearing(c3, base, 3);
    lemma_no_more(start, 4, 48);
    lemma_filled(c4, 4);
    let houses = GameView::founded(seed).world.enemy_house_tiles;
    assert(houses == c4.world.enemy_house_tiles);
    lemma_house_kept(c0, c1, 0);
    lemma_house_kept(c1, c2, 1);
    lemma_house_kept(c2, c3, 2);
    lemma_house_kept(c3, c4, 3);
    let n0 = c0.world.enemy_house_tiles.len() as int;
    let n1 = c1.world.enemy_house_tiles.len() as int;
    let n2 = c2.world.enemy_house_tiles.len() as int;
    let n3 = c3.world.enemy_house_tiles.len() as int;
    assert(houses[n0] == c1.world.enemy_house_tiles[n0]) by {
        assert(c2.world.enemy_house_tiles[n0] == c1.world.enemy_house_tiles[n0]);
        assert(c3.world.enemy_house_tiles[n0] == c2.world.enemy_house_tiles[n0]);
    }
    assert(houses[n1] == c2.world.enemy_house_tiles[n1]) by {
        assert(c3.world.enemy_house_tiles[n1] == c2.world.enemy_house_tiles[n1]);
    }
    assert(houses[n2] == c3.world.enemy_house_tiles[n2]);
    lemma_side(c0, c1, 0);
    lemma_side(c1, c2, 1);
    lemma_side(c2, c3, 2);
    lemma_side(c3, c4, 3);
}

proof fn lemma_house_kept(a: Camps, b: Camps, k: int)
    requires
        a.world.enemy_house_tiles.len() <= b.world.enemy_house_tiles.len(),
        b.world.enemy_house_tiles.take(a.world.enemy_house_tiles.len() as int)
            == a.world.enemy_house_tiles,
    ensures
        goes_on(a.world.enemy_house_tiles, b.world.enemy_house_tiles),
{
    let (was, now) = (a.world.enemy_house_tiles, b.world.enemy_house_tiles);
    assert forall|i: int| 0 <= i < was.len() implies #[trigger] now[i] == was[i] by {
        assert(now.take(was.len() as int)[i] == now[i]);
    }
}

/// The first new house of one of the first four tries is on its side.
proof fn lemma_side(a: Camps, b: Camps, k: int)
    requires
        0 <= k < 4,
        a.world.enemy_house_tiles.len() < b.world.enemy_house_tiles.len(),
        exists|d: int|
            55 + 35 * (k / 6) <= d < 90 + 35 * (k / 6) && #[trigger] all_along(
                b.world.enemy_house_tiles,
                a.world.enemy_house_tiles.len() as int,
                k,
                d,
            ),
    ensures
        ({
            let t = b.world.enemy_house_tiles[a.world.enemy_house_tiles.len() as int];
            &&& k == 0 ==> t.0 >= 26
            &&& k == 1 ==> t.0 <= -21
            &&& k == 2 ==> t.1 >= 26
            &&& k == 3 ==> t.1 <= -26
        }),
{
    let n = a.world.enemy_house_tiles.len() as int;
    let d = choose|d: int|
        55 + 35 * (k / 6) <= d < 90 + 35 * (k / 6) && #[trigger] all_along(
            b.world.enemy_house_tiles,
            n,
            k,
            d,
        );
    assert(lies_along(b.world.enemy_house_tiles[n], k, d, 2801));
    lemma_first_bearings(k, d);
}

} // verus!
