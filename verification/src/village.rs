//! Villages: houses that stand close enough together.

use vstd::prelude::*;
use crate::float::{from_int_spec, F32};
use crate::grid::{near_any, near_any_spec, within_spec};
use crate::vec2::{Coord, Vec2, HALF};

verus! {

/// Houses within this Chebyshev distance belong to the same village.
pub const CLUSTER_GAP: i32 = 8;

pub open spec fn views(v: Seq<Vec<Coord>>) -> Seq<Seq<Coord>> {
    Seq::new(v.len(), |i: int| v[i]@)
}

/// The first `n` villages, with those close to the tile run together in the
/// place of the earliest, and the number of that place (-1 if there is none).
pub open spec fn sweep(villages: Seq<Seq<Coord>>, t: Coord, n: int) -> (Seq<Seq<Coord>>, int)
    decreases n,
{
    if n <= 0 {
        (Seq::empty(), -1)
    } else {
        let (out, at) = sweep(villages, t, n - 1);
        let v = villages[n - 1];
        if !near_any_spec(v, t, CLUSTER_GAP as int) {
            (out.push(v), at)
        } else if at < 0 {
            (out.push(v), out.len() as int)
        } else {
            (out.update(at, out[at] + v), at)
        }
    }
}

/// The villages once one more house stands.
pub open spec fn joined(villages: Seq<Seq<Coord>>, t: Coord) -> Seq<Seq<Coord>> {
    let (out, at) = sweep(villages, t, villages.len() as int);
    if at < 0 {
        out.push(seq![t])
    } else {
        out.update(at, out[at].push(t))
    }
}

pub open spec fn cluster_spec(tiles: Seq<Coord>) -> Seq<Seq<Coord>>
    decreases tiles.len(),
{
    if tiles.len() == 0 {
        Seq::empty()
    } else {
        joined(cluster_spec(tiles.drop_last()), tiles.last())
    }
}

fn copy_tiles(src: &Vec<Coord>) -> (r: Vec<Coord>)
    ensures
        r@ == src@,
{
    let mut r: Vec<Coord> = Vec::new();
    append(&mut r, src);
    assert(r@ =~= src@);
    r
}

fn append(dst: &mut Vec<Coord>, src: &Vec<Coord>)
    ensures
        final(dst)@ == old(dst)@ + src@,
{
    let mut i: usize = 0;
    while i < src.len()
        invariant
            i <= src.len(),
            dst@ == old(dst)@ + src@.take(i as int),
        decreases src.len() - i,
    {
        dst.push(src[i]);
        assert(src@.take(i + 1) =~= src@.take(i as int).push(src@[i as int]));
        i = i + 1;
    }
    assert(src@.take(i as int) =~= src@);
}

fn join(villages: &Vec<Vec<Coord>>, t: Coord) -> (r: Vec<Vec<Coord>>)
    ensures
        views(r@) == joined(views(villages@), t),
{
    let ghost all = views(villages@);
    let mut out: Vec<Vec<Coord>> = Vec::new();
    let mut at: Option<usize> = None;
    let mut k: usize = 0;
    assert(views(out@) =~= Seq::empty());
    while k < villages.len()
        invariant
            k <= villages.len(),
            all == views(villages@),
            at is Some ==> at->0 < out.len(),
            sweep(all, t, k as int) == (
                views(out@),
                match at {
                    Some(a) => a as int,
                    None => -1int,
                },
            ),
        decreases villages.len() - k,
    {
        let ghost before = views(out@);
        assert(all[k as int] == villages@[k as int]@);
        let near: bool = near_any(&villages[k], t, CLUSTER_GAP);
        if near {
            match at {
                Some(a) => {
                    append(&mut out[a], &villages[k]);
                    assert(views(out@) =~= before.update(a as int, before[a as int] + all[k as int]));
                },
                None => {
                    at = Some(out.len());
                    out.push(copy_tiles(&villages[k]));
                    assert(views(out@) =~= before.push(all[k as int]));
                },
            }
        } else {
            out.push(copy_tiles(&villages[k]));
            assert(views(out@) =~= before.push(all[k as int]));
        }
        k = k + 1;
    }
    let ghost before = views(out@);
    match at {
        Some(a) => {
            out[a].push(t);
            assert(views(out@) =~= before.update(a as int, before[a as int].push(t)));
        },
        None => {
            let mut alone: Vec<Coord> = Vec::new();
            alone.push(t);
            assert(alone@ =~= seq![t]);
            out.push(alone);
            assert(views(out@) =~= before.push(seq![t]));
        },
    }
    out
}

/// Group house tiles into villages: tiles within `CLUSTER_GAP` chain together.
pub fn cluster(tiles: &Vec<Coord>) -> (r: Vec<Vec<Coord>>)
    ensures
        views(r@) == cluster_spec(tiles@),
{
    let mut villages: Vec<Vec<Coord>> = Vec::new();
    let mut i: usize = 0;
    assert(views(villages@) =~= Seq::empty());
    while i < tiles.len()
        invariant
            i <= tiles.len(),
            views(villages@) == cluster_spec(tiles@.take(i as int)),
        decreases tiles.len() - i,
    {
        villages = join(&villages, tiles[i]);
        assert(tiles@.take(i + 1).drop_last() =~= tiles@.take(i as int));
        i = i + 1;
    }
    assert(tiles@.take(i as int) =~= tiles@);
    villages
}

// --- what villages are --------------------------------------------------------

/// No house of one village is close to a house of the other.
pub open spec fn apart(a: Seq<Coord>, b: Seq<Coord>) -> bool {
    forall|i: int, j: int|
        0 <= i < a.len() && 0 <= j < b.len() ==> !within_spec(
            #[trigger] a[i],
            #[trigger] b[j],
            CLUSTER_GAP as int,
        )
}

/// Some house of the village lies in the set, and some outside it.
pub open spec fn splits(s: Set<Coord>, v: Seq<Coord>) -> bool {
    (exists|i: int| 0 <= i < v.len() && s.contains(#[trigger] v[i])) && (exists|i: int|
        0 <= i < v.len() && !s.contains(#[trigger] v[i]))
}

/// A house in the set is close to one outside it.
pub open spec fn bridges_gap(s: Set<Coord>, v: Seq<Coord>) -> bool {
    exists|i: int, j: int|
        0 <= i < v.len() && 0 <= j < v.len() && s.contains(#[trigger] v[i]) && !s.contains(
            #[trigger] v[j],
        ) && within_spec(v[i], v[j], CLUSTER_GAP as int)
}

/// However a village is split in two, the parts are close somewhere.
pub open spec fn chained(v: Seq<Coord>) -> bool {
    forall|s: Set<Coord>| #[trigger] splits(s, v) ==> bridges_gap(s, v)
}

pub open spec fn housed(villages: Seq<Seq<Coord>>, t: Coord) -> bool {
    exists|i: int| 0 <= i < villages.len() && (#[trigger] villages[i]).contains(t)
}

spec fn all_apart(villages: Seq<Seq<Coord>>) -> bool {
    forall|i: int, j: int|
        0 <= i < villages.len() && 0 <= j < villages.len() && i != j ==> apart(
            #[trigger] villages[i],
            #[trigger] villages[j],
        )
}

proof fn lemma_bridges_sub(s: Set<Coord>, v: Seq<Coord>, u: Seq<Coord>)
    requires
        bridges_gap(s, v),
        forall|i: int| 0 <= i < v.len() ==> u.contains(#[trigger] v[i]),
    ensures
        bridges_gap(s, u),
{
    let (i, j) = choose|i: int, j: int|
        0 <= i < v.len() && 0 <= j < v.len() && s.contains(#[trigger] v[i]) && !s.contains(
            #[trigger] v[j],
        ) && within_spec(v[i], v[j], CLUSTER_GAP as int);
    assert(u.contains(v[i]) && u.contains(v[j]));
    let a = u.index_of(v[i]);
    let b = u.index_of(v[j]);
    assert(u[a] == v[i] && u[b] == v[j]);
}

/// A chained village that a house is close to stays chained with that house, and
/// so does what was chained to the house before.
proof fn lemma_chain(a: Seq<Coord>, v: Seq<Coord>, t: Coord)
    requires
        chained(a.push(t)),
        chained(v),
        near_any_spec(v, t, CLUSTER_GAP as int),
    ensures
        chained((a + v).push(t)),
{
    let u = (a + v).push(t);
    let at = a.push(t);
    let n = a.len() as int;
    assert forall|s: Set<Coord>| #[trigger] splits(s, u) implies bridges_gap(s, u) by {
        assert forall|i: int| 0 <= i < at.len() implies u.contains(#[trigger] at[i]) by {
            if i < n {
                assert(u[i] == at[i]);
            } else {
                assert(u[u.len() - 1] == t);
            }
        }
        assert forall|i: int| 0 <= i < v.len() implies u.contains(#[trigger] v[i]) by {
            assert(u[n + i] == v[i]);
        }
        if splits(s, at) {
            lemma_bridges_sub(s, at, u);
        } else if splits(s, v) {
            lemma_bridges_sub(s, v, u);
        } else {
            let k = choose|k: int|
                0 <= k < v.len() && within_spec(#[trigger] v[k], t, CLUSTER_GAP as int);
            let x = choose|i: int| 0 <= i < u.len() && s.contains(#[trigger] u[i]);
            let y = choose|i: int| 0 <= i < u.len() && !s.contains(#[trigger] u[i]);
            let last = u.len() - 1;
            assert(at[n] == t);
            assert(u[last] == t);
            assert(u[n + k] == v[k]);
            // All of `at` is on the side of `t`, and all of `v` on the side of `v[k]`.
            assert forall|i: int| 0 <= i < at.len() implies s.contains(#[trigger] at[i])
                == s.contains(t) by {
                assert(s.contains(at[n]) == s.contains(t));
            }
            assert forall|i: int| 0 <= i < v.len() implies s.contains(#[trigger] v[i])
                == s.contains(v[k]) by {}
            if s.contains(v[k]) == s.contains(t) {
                assert forall|i: int| 0 <= i < u.len() implies s.contains(#[trigger] u[i])
                    == s.contains(t) by {
                    if i < n {
                        assert(u[i] == at[i]);
                    } else if i < last {
                        assert(u[i] == v[i - n]);
                    }
                }
                assert(s.contains(u[x]) == s.contains(u[y]));
            }
            if s.contains(t) {
                assert(s.contains(u[last]) && !s.contains(u[n + k]));
                assert(within_spec(u[last], u[n + k], CLUSTER_GAP as int));
            } else {
                assert(s.contains(u[n + k]) && !s.contains(u[last]));
                assert(within_spec(u[n + k], u[last], CLUSTER_GAP as int));
            }
        }
    }
}

proof fn lemma_chain_one(t: Coord)
    ensures
        chained(Seq::<Coord>::empty().push(t)),
{
    let u = Seq::<Coord>::empty().push(t);
    assert forall|s: Set<Coord>| #[trigger] splits(s, u) implies bridges_gap(s, u) by {
        let x = choose|i: int| 0 <= i < u.len() && s.contains(#[trigger] u[i]);
        let y = choose|i: int| 0 <= i < u.len() && !s.contains(#[trigger] u[i]);
        assert(x == 0 && y == 0);
    }
}

proof fn lemma_sweep(villages: Seq<Seq<Coord>>, t: Coord, n: int)
    requires
        0 <= n <= villages.len(),
        all_apart(villages),
        forall|i: int| 0 <= i < villages.len() ==> chained(#[trigger] villages[i]),
        forall|i: int| 0 <= i < villages.len() ==> (#[trigger] villages[i]).len() > 0,
    ensures
        ({
            let (out, at) = sweep(villages, t, n);
            &&& -1 <= at < out.len()
            &&& all_apart(out)
            &&& forall|i: int, k: int|
                0 <= i < out.len() && n <= k < villages.len() ==> apart(
                    #[trigger] out[i],
                    #[trigger] villages[k],
                )
            &&& forall|i: int| 0 <= i < out.len() ==> (#[trigger] out[i]).len() > 0
            &&& forall|i: int|
                0 <= i < out.len() && i != at ==> chained(#[trigger] out[i]) && !near_any_spec(
                    out[i],
                    t,
                    CLUSTER_GAP as int,
                )
            &&& at >= 0 ==> chained(out[at].push(t))
            &&& forall|h: Coord| #[trigger] housed(out, h) <==> housed(villages.take(n), h)
        }),
    decreases n,
{
    if n == 0 {
        let (out, at) = sweep(villages, t, n);
        assert(villages.take(0) =~= out);
    } else {
        lemma_sweep(villages, t, n - 1);
        let (out, at) = sweep(villages, t, n - 1);
        let v = villages[n - 1];
        let (now, now_at) = sweep(villages, t, n);
        assert forall|i: int| 0 <= i < out.len() implies apart(v, #[trigger] out[i]) by {
            assert(apart(out[i], villages[n - 1]));
            assert forall|a: int, b: int| 0 <= a < v.len() && 0 <= b < out[i].len() implies !within_spec(
                #[trigger] v[a],
                #[trigger] out[i][b],
                CLUSTER_GAP as int,
            ) by {
                assert(!within_spec(out[i][b], v[a], CLUSTER_GAP as int));
            }
        }
        if !near_any_spec(v, t, CLUSTER_GAP as int) || at < 0 {
            assert(now == out.push(v));
            assert forall|i: int, j: int|
                0 <= i < now.len() && 0 <= j < now.len() && i != j implies apart(
                #[trigger] now[i],
                #[trigger] now[j],
            ) by {
                if i < out.len() && j < out.len() {
                    assert(apart(out[i], out[j]));
                } else if i < out.len() {
                    assert(apart(out[i], villages[n - 1]));
                } else {
                    assert(apart(v, out[j]));
                }
            }
            assert forall|i: int, k: int|
                0 <= i < now.len() && n <= k < villages.len() implies apart(
                #[trigger] now[i],
                #[trigger] villages[k],
            ) by {
                if i < out.len() {
                    assert(apart(out[i], villages[k]));
                } else {
                    assert(apart(villages[n - 1], villages[k]));
                }
            }
            if near_any_spec(v, t, CLUSTER_GAP as int) {
                lemma_chain_one(t);
                lemma_chain(Seq::empty(), v, t);
                assert(Seq::<Coord>::empty() + v =~= v);
            }
        } else {
            let both = out[at] + v;
            assert(now == out.update(at, both));
            assert forall|i: int, j: int|
                0 <= i < now.len() && 0 <= j < now.len() && i != j implies apart(
                #[trigger] now[i],
                #[trigger] now[j],
            ) by {
                assert(apart(out[i], out[j]));
                assert(apart(out[i], villages[n - 1]));
                assert(apart(v, out[j]));
                if i == at {
                    assert forall|a: int, b: int|
                        0 <= a < both.len() && 0 <= b < now[j].len() implies !within_spec(
                        #[trigger] both[a],
                        #[trigger] now[j][b],
                        CLUSTER_GAP as int,
                    ) by {
                        if a < out[at].len() {
                            assert(both[a] == out[at][a]);
                        } else {
                            assert(both[a] == v[a - out[at].len()]);
                        }
                    }
                } else if j == at {
                    assert forall|a: int, b: int|
                        0 <= a < now[i].len() && 0 <= b < both.len() implies !within_spec(
                        #[trigger] now[i][a],
                        #[trigger] both[b],
                        CLUSTER_GAP as int,
                    ) by {
                        if b < out[at].len() {
                            assert(both[b] == out[at][b]);
                        } else {
                            assert(both[b] == v[b - out[at].len()]);
                        }
                    }
                }
            }
            assert forall|i: int, k: int|
                0 <= i < now.len() && n <= k < villages.len() implies apart(
                #[trigger] now[i],
                #[trigger] villages[k],
            ) by {
                assert(apart(out[i], villages[k]));
                assert(apart(villages[n - 1], villages[k]));
                if i == at {
                    assert forall|a: int, b: int|
                        0 <= a < both.len() && 0 <= b < villages[k].len() implies !within_spec(
                        #[trigger] both[a],
                        #[trigger] villages[k][b],
                        CLUSTER_GAP as int,
                    ) by {
                        if a < out[at].len() {
                            assert(both[a] == out[at][a]);
                        } else {
                            assert(both[a] == v[a - out[at].len()]);
                        }
                    }
                }
            }
            lemma_chain(out[at], v, t);
        }
        assert forall|h: Coord| #[trigger] housed(now, h) <==> housed(villages.take(n), h) by {
            let front = villages.take(n - 1);
            let whole = villages.take(n);
            if housed(now, h) {
                let i = choose|i: int| 0 <= i < now.len() && (#[trigger] now[i]).contains(h);
                let q = now[i].index_of(h);
                assert(now[i][q] == h);
                if i < out.len() && out[i].contains(h) {
                    assert(housed(out, h));
                    let k = choose|k: int| 0 <= k < front.len() && (#[trigger] front[k]).contains(h);
                    assert(whole[k] == front[k]);
                    assert(whole[k].contains(h));
                } else {
                    if i < out.len() && i == at && now != out.push(v) {
                        if q < out[at].len() {
                            assert(out[at][q] == h);
                        } else {
                            assert(v[q - out[at].len()] == h);
                        }
                    }
                    assert(v.contains(h));
                    assert(whole[n - 1] == v);
                }
            }
            if housed(whole, h) {
                let k = choose|k: int| 0 <= k < whole.len() && (#[trigger] whole[k]).contains(h);
                if k < n - 1 {
                    assert(front[k] == whole[k]);
                    assert(housed(front, h));
                    assert(housed(out, h));
                    let i = choose|i: int| 0 <= i < out.len() && (#[trigger] out[i]).contains(h);
                    let q = out[i].index_of(h);
                    assert(out[i][q] == h);
                    assert(now[i][q] == h);
                    assert(now[i].contains(h));
                } else {
                    assert(whole[k] == v);
                    let q = v.index_of(h);
                    assert(v[q] == h);
                    if !near_any_spec(v, t, CLUSTER_GAP as int) || at < 0 {
                        assert(now[out.len() as int] == v);
                        assert(now[out.len() as int].contains(h));
                    } else {
                        assert(now[at][out[at].len() + q] == h);
                        assert(now[at].contains(h));
                    }
                }
            }
        }
    }
}

/// Villages hold exactly the houses given; two houses that are close belong to
/// the same village; and a village cannot be split into parts that are not close.
pub proof fn law_villages(tiles: Seq<Coord>)
    ensures
        forall|h: Coord| #[trigger] housed(cluster_spec(tiles), h) <==> tiles.contains(h),
        forall|i: int, j: int|
            0 <= i < cluster_spec(tiles).len() && 0 <= j < cluster_spec(tiles).len() && i != j
                ==> apart(#[trigger] cluster_spec(tiles)[i], #[trigger] cluster_spec(tiles)[j]),
        forall|i: int|
            0 <= i < cluster_spec(tiles).len() ==> chained(#[trigger] cluster_spec(tiles)[i])
                && cluster_spec(tiles)[i].len() > 0,
    decreases tiles.len(),
{
    if tiles.len() > 0 {
        let front = tiles.drop_last();
        let t = tiles.last();
        law_villages(front);
        let before = cluster_spec(front);
        let n = before.len() as int;
        lemma_sweep(before, t, n);
        let (out, at) = sweep(before, t, n);
        assert(before.take(n) =~= before);
        let now = cluster_spec(tiles);
        assert(now == joined(before, t));
        lemma_chain_one(t);
        assert(Seq::<Coord>::empty().push(t) =~= seq![t]);
        let home = if at < 0 {
            out.len() as int
        } else {
            at
        };
        assert(now[home][now[home].len() - 1] == t);
        assert forall|i: int, j: int|
            0 <= i < now.len() && 0 <= j < now.len() && i != j implies apart(
            #[trigger] now[i],
            #[trigger] now[j],
        ) by {
            if i != home && j != home {
                assert(apart(out[i], out[j]));
            } else if i == home {
                assert(!near_any_spec(out[j], t, CLUSTER_GAP as int));
                if at >= 0 {
                    assert(apart(out[i], out[j]));
                }
                assert forall|a: int, b: int|
                    0 <= a < now[i].len() && 0 <= b < now[j].len() implies !within_spec(
                    #[trigger] now[i][a],
                    #[trigger] now[j][b],
                    CLUSTER_GAP as int,
                ) by {
                    if now[i][a] == t {
                        assert(!within_spec(out[j][b], t, CLUSTER_GAP as int));
                    } else {
                        assert(now[i][a] == out[i][a]);
                    }
                }
            } else {
                assert(!near_any_spec(out[i], t, CLUSTER_GAP as int));
                if at >= 0 {
                    assert(apart(out[i], out[j]));
                }
                assert forall|a: int, b: int|
                    0 <= a < now[i].len() && 0 <= b < now[j].len() implies !within_spec(
                    #[trigger] now[i][a],
                    #[trigger] now[j][b],
                    CLUSTER_GAP as int,
                ) by {
                    if now[j][b] == t {
                        assert(!within_spec(out[i][a], t, CLUSTER_GAP as int));
                    } else {
                        assert(now[j][b] == out[j][b]);
                    }
                }
            }
        }
        assert forall|h: Coord| #[trigger] housed(now, h) <==> tiles.contains(h) by {
            if housed(now, h) {
                let i = choose|i: int| 0 <= i < now.len() && (#[trigger] now[i]).contains(h);
                let q = now[i].index_of(h);
                assert(now[i][q] == h);
                if h == t {
                    assert(tiles[tiles.len() - 1] == h);
                } else {
                    assert(out[i][q] == h);
                    assert(out[i].contains(h));
                    assert(housed(out, h));
                    assert(front.contains(h));
                    assert(tiles[front.index_of(h)] == h);
                }
            }
            if tiles.contains(h) {
                if h == t {
                    assert(now[home].contains(h));
                } else {
                    let k = tiles.index_of(h);
                    assert(front[k] == h);
                    assert(housed(before, h));
                    assert(housed(out, h));
                    let i = choose|i: int| 0 <= i < out.len() && (#[trigger] out[i]).contains(h);
                    let q = out[i].index_of(h);
                    assert(out[i][q] == h);
                    assert(now[i][q] == h);
                    assert(now[i].contains(h));
                }
            }
        }
    }
}

// --- the middle of a village -----------------------------------------------------

/// How often the list names the tile.
pub open spec fn times(tiles: Seq<Coord>, t: Coord) -> nat
    decreases tiles.len(),
{
    if tiles.len() == 0 {
        0
    } else if tiles.last() == t {
        times(tiles.drop_last(), t) + 1
    } else {
        times(tiles.drop_last(), t)
    }
}

/// How often the villages name the tile, together.
pub open spec fn times_in(villages: Seq<Seq<Coord>>, t: Coord) -> nat
    decreases villages.len(),
{
    if villages.len() == 0 {
        0
    } else {
        times_in(villages.drop_last(), t) + times(villages.last(), t)
    }
}

proof fn lemma_times_sum(a: Seq<Coord>, b: Seq<Coord>, t: Coord)
    ensures
        times(a + b, t) == times(a, t) + times(b, t),
    decreases b.len(),
{
    if b.len() == 0 {
        assert(a + b =~= a);
    } else {
        assert((a + b).drop_last() =~= a + b.drop_last());
        lemma_times_sum(a, b.drop_last(), t);
    }
}

proof fn lemma_times_push(a: Seq<Coord>, h: Coord, t: Coord)
    ensures
        times(a.push(h), t) == times(a, t) + if h == t {
            1nat
        } else {
            0nat
        },
{
    assert(a.push(h).drop_last() =~= a);
}

proof fn lemma_times_in_update(villages: Seq<Seq<Coord>>, i: int, v: Seq<Coord>, t: Coord)
    requires
        0 <= i < villages.len(),
    ensures
        times_in(villages.update(i, v), t) + times(villages[i], t) == times_in(villages, t)
            + times(v, t),
    decreases villages.len(),
{
    let now = villages.update(i, v);
    if i == villages.len() - 1 {
        assert(now.drop_last() =~= villages.drop_last());
    } else {
        assert(now.drop_last() =~= villages.drop_last().update(i, v));
        lemma_times_in_update(villages.drop_last(), i, v, t);
    }
}

proof fn lemma_times_in_push(villages: Seq<Seq<Coord>>, v: Seq<Coord>, t: Coord)
    ensures
        times_in(villages.push(v), t) == times_in(villages, t) + times(v, t),
{
    assert(villages.push(v).drop_last() =~= villages);
}

proof fn lemma_sweep_times(villages: Seq<Seq<Coord>>, h: Coord, n: int, t: Coord)
    requires
        0 <= n <= villages.len(),
    ensures
        times_in(sweep(villages, h, n).0, t) == times_in(villages.take(n), t),
        -1 <= sweep(villages, h, n).1 < sweep(villages, h, n).0.len(),
    decreases n,
{
    if n > 0 {
        lemma_sweep_times(villages, h, n - 1, t);
        let (out, at) = sweep(villages, h, n - 1);
        let v = villages[n - 1];
        assert(villages.take(n).drop_last() =~= villages.take(n - 1));
        lemma_times_in_push(out, v, t);
        if near_any_spec(v, h, CLUSTER_GAP as int) && at >= 0 {
            lemma_times_sum(out[at], v, t);
            lemma_times_in_update(out, at, out[at] + v, t);
        }
    }
}

/// Every house belongs to a village as often as it was given: none is lost, none
/// counted twice.
pub proof fn law_villages_count_every_house(tiles: Seq<Coord>, t: Coord)
    ensures
        times_in(cluster_spec(tiles), t) == times(tiles, t),
    decreases tiles.len(),
{
    if tiles.len() > 0 {
        let front = tiles.drop_last();
        let h = tiles.last();
        law_villages_count_every_house(front, t);
        let before = cluster_spec(front);
        let n = before.len() as int;
        lemma_sweep_times(before, h, n, t);
        assert(before.take(n) =~= before);
        let (out, at) = sweep(before, h, n);
        if at < 0 {
            assert(Seq::<Coord>::empty().push(h) =~= seq![h]);
            lemma_times_push(Seq::empty(), h, t);
            lemma_times_in_push(out, seq![h], t);
        } else {
            lemma_times_push(out[at], h, t);
            lemma_times_in_update(out, at, out[at].push(h), t);
        }
    }
}

proof fn lemma_sweep_far(villages: Seq<Seq<Coord>>, t: Coord, n: int)
    requires
        0 <= n <= villages.len(),
        forall|i: int|
            0 <= i < n ==> !near_any_spec(#[trigger] villages[i], t, CLUSTER_GAP as int),
    ensures
        sweep(villages, t, n) == (villages.take(n), -1int),
    decreases n,
{
    if n > 0 {
        lemma_sweep_far(villages, t, n - 1);
        assert(villages.take(n - 1).push(villages[n - 1]) =~= villages.take(n));
    } else {
        assert(villages.take(0) =~= Seq::empty());
    }
}

/// Houses that are close to each other, and far from all there were, are one more
/// village.
pub proof fn lemma_new_village(tiles: Seq<Coord>, houses: Seq<Coord>)
    requires
        houses.len() > 0,
        forall|i: int, j: int|
            0 <= i < tiles.len() && 0 <= j < houses.len() ==> !within_spec(
                #[trigger] tiles[i],
                #[trigger] houses[j],
                CLUSTER_GAP as int,
            ),
        forall|i: int, j: int|
            0 <= i < houses.len() && 0 <= j < houses.len() ==> within_spec(
                #[trigger] houses[i],
                #[trigger] houses[j],
                CLUSTER_GAP as int,
            ),
    ensures
        cluster_spec(tiles + houses) == cluster_spec(tiles).push(houses),
    decreases houses.len(),
{
    let front = houses.drop_last();
    let t = houses.last();
    let old_villages = cluster_spec(tiles);
    let n = old_villages.len() as int;
    assert((tiles + houses).drop_last() =~= tiles + front);
    law_villages(tiles);
    assert forall|i: int| 0 <= i < n implies !near_any_spec(
        #[trigger] old_villages[i],
        t,
        CLUSTER_GAP as int,
    ) by {
        assert forall|k: int| 0 <= k < old_villages[i].len() implies !within_spec(
            #[trigger] old_villages[i][k],
            t,
            CLUSTER_GAP as int,
        ) by {
            let h = old_villages[i][k];
            assert(old_villages[i].contains(h));
            assert(housed(old_villages, h));
            let m = tiles.index_of(h);
            assert(!within_spec(tiles[m], houses[houses.len() - 1], CLUSTER_GAP as int));
        }
    }
    if front.len() == 0 {
        assert(tiles + front =~= tiles);
        lemma_sweep_far(old_villages, t, n);
        assert(old_villages.take(n) =~= old_villages);
        assert(seq![t] =~= houses);
    } else {
        lemma_new_village(tiles, front);
        let now = old_villages.push(front);
        assert forall|i: int| 0 <= i < n implies !near_any_spec(
            #[trigger] now[i],
            t,
            CLUSTER_GAP as int,
        ) by {
            assert(now[i] == old_villages[i]);
        }
        lemma_sweep_far(now, t, n);
        assert(now.take(n) =~= old_villages);
        assert(within_spec(front[0], t, CLUSTER_GAP as int)) by {
            assert(within_spec(houses[0], houses[houses.len() - 1], CLUSTER_GAP as int));
        }
        assert(near_any_spec(front, t, CLUSTER_GAP as int));
        assert(sweep(now, t, n + 1) == (now, n));
        assert(front.push(t) =~= houses);
        assert(now.update(n, houses) =~= old_villages.push(houses));
    }
}


pub open spec fn sum_x(village: Seq<Coord>) -> i32
    decreases village.len(),
{
    if village.len() == 0 {
        0
    } else {
        sum_x(village.drop_last()).wrapping_add(village.last().0)
    }
}

pub open spec fn sum_y(village: Seq<Coord>) -> i32
    decreases village.len(),
{
    if village.len() == 0 {
        0
    } else {
        sum_y(village.drop_last()).wrapping_add(village.last().1)
    }
}

pub open spec fn village_center_spec(village: Seq<Coord>) -> Vec2 {
    let n = from_int_spec(
        if village.len() == 0 {
            1
        } else {
            village.len() as int
        },
    );
    Vec2 {
        x: from_int_spec(sum_x(village) as int).div_spec(n).add_spec(F32 { bits: HALF }),
        y: from_int_spec(sum_y(village) as int).div_spec(n).add_spec(F32 { bits: HALF }),
    }
}

/// World-space centre of a village (the mean of its house tiles).
pub fn village_center(village: &Vec<Coord>) -> (r: Vec2)
    ensures
        r == village_center_spec(village@),
{
    let mut sx: i32 = 0;
    let mut sy: i32 = 0;
    let mut i: usize = 0;
    while i < village.len()
        invariant
            i <= village.len(),
            sx == sum_x(village@.take(i as int)),
            sy == sum_y(village@.take(i as int)),
        decreases village.len() - i,
    {
        sx = sx.wrapping_add(village[i].0);
        sy = sy.wrapping_add(village[i].1);
        assert(village@.take(i + 1).drop_last() =~= village@.take(i as int));
        i = i + 1;
    }
    assert(village@.take(i as int) =~= village@);
    let n: F32 = F32::from_count(
        if village.len() == 0 {
            1
        } else {
            village.len()
        },
    );
    let half: F32 = F32 { bits: HALF };
    Vec2 {
        x: F32::from_int(sx as i64).div(n).add(half),
        y: F32::from_int(sy as i64).div(n).add(half),
    }
}

} // verus!
