//! When the rally flag goes up, and when it comes down.

use vstd::prelude::*;
use crate::capture::undefended;
use crate::casualties::{lemma_captured_spares, lemma_villages_spare};
use crate::float::F32;
use crate::game::GameView;
use crate::turn::{reached, rosters, MAX_STEP};
use crate::unit::{owner_of_spec, Faction};
use crate::vec2::{tile_center_spec, Coord};
use crate::village::{cluster_spec, village_center_spec};

verus! {

/// No flag is left standing that a knight has reached.
pub proof fn law_flag_lifts_on_arrival(g: GameView)
    ensures
        g.rallied().rally_point matches Some(r) ==> !reached(g.rallied().entities, r),
        g.rallied().entities == g.entities,
{
}

/// After a tick a flag that a knight has reached can only be one that was just
/// raised over a lost village.
pub proof fn law_reached_flag_is_an_alarm(g: GameView, dt: F32, sim: (i32, i32, i32, i32))
    ensures
        ({
            let after = g.updated(dt, sim);
            after.rally_point is Some && reached(
                after.entities,
                after.rally_point->0,
            ) ==> exists|v: Seq<Coord>| #[trigger]
                undefended(after.entities, v, Faction::Player) && after.rally_point
                    == Some(village_center_spec(v))
        }),
{
    let step = dt.min_spec(F32 { bits: MAX_STEP });
    let ready = g.prepared(step, sim);
    let n = ready.entities.len() as int;
    let acted = ready.fought(step, sim).thought(
        rosters(ready.entities, n),
        ready.turn(step, sim),
        n,
    ).0;
    let alive = acted.cleared_from(0);
    let out = alive.all_opened(alive.hut_tiles, alive.hut_tiles.len() as int).rallied();
    assert(g.updated(dt, sim) == out.captured());
    lemma_captured_spares(out);
    reveal(GameView::captured);
    let theirs = cluster_spec(out.world.enemy_house_tiles);
    let ours = cluster_spec(out.player_house_tiles);
    let won = out.won(theirs, theirs.len() as int);
    lemma_villages_spare(out, theirs, theirs.len() as int);
    lemma_won_keeps_flag(out, theirs, theirs.len() as int);
    lemma_alarm_or_none(won, ours, ours.len() as int);
}

proof fn lemma_won_keeps_flag(g: GameView, villages: Seq<Seq<Coord>>, n: int)
    ensures
        g.won(villages, n).rally_point == g.rally_point,
    decreases n,
{
    if n > 0 {
        lemma_won_keeps_flag(g, villages, n - 1);
    }
}

proof fn lemma_alarm_or_none(g: GameView, villages: Seq<Seq<Coord>>, n: int)
    requires
        0 <= n <= villages.len(),
    ensures
        g.fallen(villages, n).rally_point == g.rally_point || exists|v: Seq<Coord>| #[trigger]
            undefended(g.entities, v, Faction::Player) && g.fallen(villages, n).rally_point
                == Some(village_center_spec(v)),
    decreases n,
{
    if n > 0 {
        lemma_alarm_or_none(g, villages, n - 1);
        if undefended(g.entities, villages[n - 1], Faction::Player) {
            assert(undefended(g.entities, villages[n - 1], Faction::Player));
        }
    }
}

/// A hut of the player's that is hit with farmers inside calls the knights to it.
pub proof fn law_attacked_hut_calls_the_knights(g: GameView, t: Coord, dmg: F32)
    requires
        g.world.hut(t.0, t.1) matches Some(h) && h.owner == owner_of_spec(Faction::Player)
            && h.occupants > 0,
    ensures
        g.hut_hit(t, dmg).rally_point == Some(tile_center_spec(t)),
{
    reveal(GameView::hut_hit);
}

} // verus!
