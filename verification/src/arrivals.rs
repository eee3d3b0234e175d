//! Newcomers: who is born, when and where, and how saplings become trees.

use vstd::prelude::*;
use crate::chunk::{Cell, Node, Resource, NO_OWNER};
use crate::float::F32;
use crate::game::{farmers_of, headcount, swap_removed, GameView, Sapling};
use crate::grid::within_spec;
use crate::people::has_door;
use crate::survey::adjacent_walkable_spec;
use crate::unit::{max_hp_for_spec, spawn_interval_spec, EntityView, Faction};
use crate::vec2::{tile_center_spec, Coord};
use crate::works::bare_grass;
use crate::world::WorldView;

verus! {

/// The unit is of the side, as fit as any, at rest in the middle of a tile that can be
/// walked on, next to one of the houses.
pub open spec fn is_newcomer(w: WorldView, e: EntityView, f: Faction, houses: Seq<Coord>) -> bool {
    &&& e.faction == f
    &&& e.hp == max_hp_for_spec(f, e.job)
    &&& e.max_hp == e.hp
    &&& e.path.len() == 0
    &&& e.target_node is None && e.mine_target is None && e.build_site is None
    &&& !e.sheltered
    &&& exists|h: Coord, d: Coord| #[trigger]
        houses.contains(h) && e.pos == #[trigger] tile_center_spec(d) && within_spec(d, h, 1)
            && w.walkable_for(NO_OWNER, d.0, d.1)
}

/// How many units the player's houses can support: six, and three more for each house, up
/// to forty.
pub open spec fn player_limit(houses: nat) -> int {
    if 6 + 3 * houses < 40 {
        6 + 3 * houses as int
    } else {
        40
    }
}

/// Every house has a door.
pub open spec fn houses_open(w: WorldView, houses: Seq<Coord>) -> bool {
    forall|k: int| 0 <= k < houses.len() ==> has_door(w, #[trigger] houses[k])
}

proof fn lemma_doorstep(w: WorldView, h: Coord)
    ensures
        match adjacent_walkable_spec(w, h.0, h.1) {
            Some(d) => within_spec(d, h, 1) && w.walkable_for(NO_OWNER, d.0, d.1),
            None => !has_door(w, h),
        },
{
    crate::people::lemma_door(h, 0, crate::pathfind::walks(w, NO_OWNER));
}

/// The draw picks one of the houses.
proof fn lemma_pick(rng: u64, houses: Seq<Coord>)
    requires
        houses.len() > 0,
    ensures
        ({
            let k = crate::rng::range_value(rng, 0, crate::game::pick_count(houses.len()));
            0 <= k < houses.len() && houses.contains(houses[k])
        }),
{
    let n = crate::game::pick_count(houses.len());
    let x = crate::rng::drawn(crate::rng::step_spec(rng));
    assert(0 <= x % n < n) by (nonlinear_arith)
        requires
            n > 0,
    ;
}

/// The player's houses raise somebody just when it is time, while there are more than three
/// farmers and fewer people than the houses can support. Whoever it is comes out next to a
/// house of the player's. (The house drawn must have a door.)
pub proof fn law_player_newcomers(g: GameView, dt: F32)
    ensures
        ({
            let after = g.player_raised(dt);
            let time = g.player_spawn_timer.sub_spec(dt).le_spec(F32 { bits: 0 });
            let may = time && g.player_house_tiles.len() > 0 && farmers_of(
                g.entities,
                Faction::Player,
            ) > 3 && headcount(g.entities, Faction::Player) < player_limit(
                g.player_house_tiles.len(),
            );
            &&& !may ==> after.entities == g.entities
            &&& may && houses_open(g.world, g.player_house_tiles) ==> after.entities
                != g.entities
            &&& after.entities != g.entities ==> after.entities == g.entities.push(
                after.entities.last(),
            ) && is_newcomer(
                g.world,
                after.entities.last(),
                Faction::Player,
                g.player_house_tiles,
            )
            &&& !time ==> after == (GameView {
                player_spawn_timer: g.player_spawn_timer.sub_spec(dt),
                ..g
            })
            // Never sooner than in a second and a half.
            &&& time ==> (F32 { bits: 0x3fc0_0000 }).le_spec(after.player_spawn_timer)
            &&& after == (GameView {
                entities: after.entities,
                player_spawn_timer: after.player_spawn_timer,
                player_spawn_cycle: after.player_spawn_cycle,
                rng: after.rng,
                ..g
            })
        }),
{
    reveal(GameView::player_raised);
    let houses = g.player_house_tiles;
    let after = g.player_raised(dt);
    lemma_interval(F32 { bits: 0x40e0_0000 }, farmers_of(g.entities, Faction::Player) as int);
    if houses.len() > 0 {
        lemma_pick(g.rng, houses);
        let k = crate::rng::range_value(g.rng, 0, crate::game::pick_count(houses.len()));
        let h = houses[k];
        lemma_doorstep(g.world, h);
        assert(houses.contains(h));
        if after.entities != g.entities {
            let d = adjacent_walkable_spec(g.world, h.0, h.1)->0;
            assert(after.entities.last().pos == tile_center_spec(d));
        }
    }
    if after.entities.len() > g.entities.len() {
        assert(after.entities =~= g.entities.push(after.entities.last()));
    }
    lemma_longer(g.entities);
}

/// The enemy's houses raise somebody on the same terms, up to sixteen units.
pub proof fn law_enemy_newcomers(g: GameView, dt: F32)
    ensures
        ({
            let after = g.enemy_raised(dt);
            let houses = g.world.enemy_house_tiles;
            let time = g.enemy_spawn_timer.sub_spec(dt).le_spec(F32 { bits: 0 });
            let may = time && houses.len() > 0 && farmers_of(g.entities, Faction::Enemy) > 3
                && headcount(g.entities, Faction::Enemy) < 16;
            &&& !may ==> after.entities == g.entities
            &&& may && houses_open(g.world, houses) ==> after.entities != g.entities
            &&& after.entities != g.entities ==> after.entities == g.entities.push(
                after.entities.last(),
            ) && is_newcomer(g.world, after.entities.last(), Faction::Enemy, houses)
            &&& !time ==> after == (GameView {
                enemy_spawn_timer: g.enemy_spawn_timer.sub_spec(dt),
                ..g
            })
            &&& time ==> (F32 { bits: 0x3fc0_0000 }).le_spec(after.enemy_spawn_timer)
            &&& after == (GameView {
                entities: after.entities,
                enemy_spawn_timer: after.enemy_spawn_timer,
                enemy_spawn_cycle: after.enemy_spawn_cycle,
                rng: after.rng,
                ..g
            })
        }),
{
    reveal(GameView::enemy_raised);
    let houses = g.world.enemy_house_tiles;
    let after = g.enemy_raised(dt);
    lemma_interval(F32 { bits: 0x4110_0000 }, farmers_of(g.entities, Faction::Enemy) as int);
    if houses.len() > 0 {
        lemma_pick(g.rng, houses);
        let k = crate::rng::range_value(g.rng, 0, crate::game::pick_count(houses.len()));
        let h = houses[k];
        lemma_doorstep(g.world, h);
        assert(houses.contains(h));
        if after.entities != g.entities {
            let d = adjacent_walkable_spec(g.world, h.0, h.1)->0;
            assert(after.entities.last().pos == tile_center_spec(d));
        }
    }
    if after.entities.len() > g.entities.len() {
        assert(after.entities =~= g.entities.push(after.entities.last()));
    }
    lemma_longer(g.entities);
}

/// The tile is on the doorstep of the house that the dice pick.
pub open spec fn at_the_drawn_house(e: EntityView, rng: u64, houses: Seq<Coord>) -> bool {
    exists|d: Coord|
        e.pos == #[trigger] tile_center_spec(d) && within_spec(
            d,
            houses[crate::rng::range_value(rng, 0, houses.len() as int)],
            1,
        )
}

/// The dice pick the house that somebody is born in, any of them, and the next birth is due
/// after an interval that goes by how many farmers the side has: from seven seconds on for the
/// player, from nine on for the enemy.
pub proof fn law_dice_pick_the_house(g: GameView, dt: F32)
    requires
        g.player_house_tiles.len() <= i32::MAX,
        g.world.enemy_house_tiles.len() <= i32::MAX,
    ensures
        ({
            let after = g.player_raised(dt);
            &&& after.entities != g.entities ==> at_the_drawn_house(
                after.entities.last(),
                g.rng,
                g.player_house_tiles,
            )
            &&& g.player_spawn_timer.sub_spec(dt).le_spec(F32 { bits: 0 })
                ==> after.player_spawn_timer == spawn_interval_spec(
                F32 { bits: 0x40e0_0000 },
                farmers_of(g.entities, Faction::Player) as int,
            )
        }),
        ({
            let after = g.enemy_raised(dt);
            &&& after.entities != g.entities ==> at_the_drawn_house(
                after.entities.last(),
                g.rng,
                g.world.enemy_house_tiles,
            )
            &&& g.enemy_spawn_timer.sub_spec(dt).le_spec(F32 { bits: 0 })
                ==> after.enemy_spawn_timer == spawn_interval_spec(
                F32 { bits: 0x4110_0000 },
                farmers_of(g.entities, Faction::Enemy) as int,
            )
        }),
{
    reveal(GameView::player_raised);
    reveal(GameView::enemy_raised);
    let ours = g.player_house_tiles;
    if ours.len() > 0 && g.player_raised(dt).entities != g.entities {
        let h = ours[crate::rng::range_value(g.rng, 0, ours.len() as int)];
        lemma_doorstep(g.world, h);
        let d = adjacent_walkable_spec(g.world, h.0, h.1)->0;
        assert(g.player_raised(dt).entities.last().pos == tile_center_spec(d));
    }
    let theirs = g.world.enemy_house_tiles;
    if theirs.len() > 0 && g.enemy_raised(dt).entities != g.entities {
        let h = theirs[crate::rng::range_value(g.rng, 0, theirs.len() as int)];
        lemma_doorstep(g.world, h);
        let d = adjacent_walkable_spec(g.world, h.0, h.1)->0;
        assert(g.enemy_raised(dt).entities.last().pos == tile_center_spec(d));
    }
}

/// The first three farmers of a side do not hasten births, and no number of them brings births
/// closer together than a second and a half.
pub proof fn law_few_farmers_hasten_nothing(base: F32, farmers: int)
    ensures
        0 <= farmers <= 3 ==> spawn_interval_spec(base, farmers) == spawn_interval_spec(base, 0),
        (F32 { bits: 0x3fc0_0000 }).le_spec(spawn_interval_spec(base, farmers)),
{
    lemma_interval(base, farmers);
}

proof fn lemma_interval(base: F32, farmers: int)
    ensures
        (F32 { bits: 0x3fc0_0000 }).le_spec(crate::unit::spawn_interval_spec(base, farmers)),
{
    reveal(F32::le_spec);
    reveal(F32::lt_spec);
}

/// One more is a different list.
proof fn lemma_longer(es: Seq<EntityView>)
    ensures
        forall|e: EntityView| #[trigger] es.push(e) != es,
{
    assert forall|e: EntityView| #[trigger] es.push(e) != es by {
        assert(es.push(e).len() == es.len() + 1);
    }
}

// --- trees -------------------------------------------------------------------------------

/// What becomes of a sapling: given up where something else came to stand; a tree of five
/// wood when it is fully grown; or taller by that much.
pub open spec fn fate(g: GameView, after: GameView, s: Sapling, step: F32) -> bool {
    let (x, y) = s.tile;
    let grow = s.grow.add_spec(step);
    let still = exists|k: int|
        0 <= k < after.saplings.len() && (#[trigger] after.saplings[k]).tile == s.tile;
    if !bare_grass(g.world, x, y) {
        !still && after.world.cell(x, y) == g.world.cell(x, y)
    } else if (F32 { bits: 0x3f80_0000 }).le_spec(grow) {
        !still && after.world.cell(x, y) == Some(
            Cell {
                node: Some(Node { kind: Resource::Wood, amount: 5 }),
                ..g.world.at(x, y)
            },
        )
    } else {
        &&& after.world.cell(x, y) == g.world.cell(x, y)
        &&& after.saplings.contains(Sapling { tile: s.tile, grow })
    }
}

/// No two saplings stand on one tile.
pub open spec fn plots_apart(saplings: Seq<Sapling>) -> bool {
    forall|i: int, j: int|
        0 <= i < j < saplings.len() ==> (#[trigger] saplings[i]).tile != (
        #[trigger] saplings[j]).tile
}

/// The tile is none of the saplings' from the `i`-th on.
spec fn clear_of(saplings: Seq<Sapling>, i: int, t: Coord) -> bool {
    forall|k: int| i <= k < saplings.len() ==> (#[trigger] saplings[k]).tile != t
}

proof fn lemma_swap(saplings: Seq<Sapling>, i: int)
    requires
        0 <= i < saplings.len(),
        plots_apart(saplings),
    ensures
        ({
            let rest = swap_removed(saplings, i);
            &&& plots_apart(rest)
            &&& rest.len() == saplings.len() - 1
            &&& forall|k: int| 0 <= k < i ==> #[trigger] rest[k] == saplings[k]
            &&& forall|k: int|
                0 <= k < rest.len() ==> (#[trigger] rest[k]).tile != saplings[i].tile
            &&& forall|k: int|
                i < k < saplings.len() ==> exists|j: int|
                    i <= j < rest.len() && #[trigger] rest[j] == #[trigger] saplings[k]
        }),
{
    let rest = swap_removed(saplings, i);
    let n = saplings.len() - 1;
    assert forall|k: int| 0 <= k < rest.len() implies #[trigger] rest[k] == if k == i {
        saplings[n]
    } else {
        saplings[k]
    } by {}
    assert forall|k: int| i < k < saplings.len() implies exists|j: int|
        i <= j < rest.len() && #[trigger] rest[j] == #[trigger] saplings[k] by {
        if k == n {
            assert(rest[i] == saplings[k]);
        } else {
            assert(rest[k] == saplings[k]);
        }
    }
}

/// What growing from the `i`-th on does to a tile where none of those stands, and to those
/// before.
proof fn lemma_elsewhere(g: GameView, i: int, step: F32, t: Coord)
    requires
        g.world.wf(),
        0 <= i,
        plots_apart(g.saplings),
        clear_of(g.saplings, i, t),
    ensures
        ({
            let after = g.grown_from(i, step);
            &&& after.world.wf()
            &&& after.world.cell(t.0, t.1) == g.world.cell(t.0, t.1)
            &&& i <= g.saplings.len() ==> i <= after.saplings.len()
            &&& forall|k: int|
                0 <= k < i && k < g.saplings.len() ==> k < after.saplings.len()
                    && #[trigger] after.saplings[k] == g.saplings[k]
            &&& forall|k: int|
                i <= k < after.saplings.len() ==> (#[trigger] after.saplings[k]).tile != t
        }),
    decreases g.saplings.len() - i,
{
    if i < g.saplings.len() {
        let s = g.saplings[i];
        let (x, y) = s.tile;
        let grow = s.grow.add_spec(step);
        let rest = swap_removed(g.saplings, i);
        lemma_swap(g.saplings, i);
        assert forall|k: int| i <= k < rest.len() implies (#[trigger] rest[k]).tile != t by {
            if k == i {
                assert(rest[k] == g.saplings[g.saplings.len() - 1]);
            } else {
                assert(rest[k] == g.saplings[k]);
            }
        }
        assert(s.tile != t);
        if !g.world.is_open_grass(x, y) {
            lemma_elsewhere(GameView { saplings: rest, ..g }, i, step, t);
        } else if (F32 { bits: crate::vec2::ONE }).le_spec(grow) {
            let c = Cell {
                node: Some(Node { kind: Resource::Wood, amount: 5 }),
                ..g.world.at(x, y)
            };
            crate::works::lemma_changed(g.world, x, y, c);
            let tree = g.world.with_cell(x, y, c);
            assert(tree == g.world.set_node(x, y, Resource::Wood, 5));
            lemma_elsewhere(GameView { world: tree, saplings: rest, ..g }, i, step, t);
        } else {
            let taller = g.saplings.update(i, Sapling { tile: s.tile, grow });
            assert forall|k: int| i + 1 <= k < taller.len() implies (#[trigger] taller[k]).tile
                != t by {
                assert(taller[k] == g.saplings[k]);
            }
            assert(plots_apart(taller)) by {
                assert forall|a: int, b: int| 0 <= a < b < taller.len() implies (
                #[trigger] taller[a]).tile != (#[trigger] taller[b]).tile by {
                    assert(taller[a].tile == g.saplings[a].tile);
                    assert(taller[b].tile == g.saplings[b].tile);
                }
            }
            let next = GameView { saplings: taller, ..g };
            lemma_elsewhere(next, i + 1, step, t);
            let after = g.grown_from(i, step);
            assert(after == next.grown_from(i + 1, step));
            assert(after.saplings[i] == taller[i]);
        }
    }
}

proof fn lemma_fate(g: GameView, i: int, step: F32, k: int)
    requires
        g.world.wf(),
        0 <= i <= k < g.saplings.len(),
        plots_apart(g.saplings),
    ensures
        fate_from(g, g.grown_from(i, step), g.saplings[k], step, i),
    decreases g.saplings.len() - i,
{
    let s = g.saplings[i];
    let (x, y) = s.tile;
    let grow = s.grow.add_spec(step);
    let rest = swap_removed(g.saplings, i);
    let after = g.grown_from(i, step);
    let who = g.saplings[k];
    lemma_swap(g.saplings, i);
    if !g.world.is_open_grass(x, y) {
        let next = GameView { saplings: rest, ..g };
        if k == i {
            assert(clear_of(rest, i, s.tile));
            lemma_elsewhere(next, i, step, s.tile);
        } else {
            let j = choose|j: int| i <= j < rest.len() && #[trigger] rest[j] == who;
            lemma_fate(next, i, step, j);
        }
    } else if (F32 { bits: crate::vec2::ONE }).le_spec(grow) {
        let c = Cell { node: Some(Node { kind: Resource::Wood, amount: 5 }), ..g.world.at(x, y) };
        crate::works::lemma_changed(g.world, x, y, c);
        let tree = g.world.with_cell(x, y, c);
        assert(tree == g.world.set_node(x, y, Resource::Wood, 5));
        let next = GameView { world: tree, saplings: rest, ..g };
        if k == i {
            assert(clear_of(rest, i, s.tile));
            lemma_elsewhere(next, i, step, s.tile);
        } else {
            let j = choose|j: int| i <= j < rest.len() && #[trigger] rest[j] == who;
            lemma_fate(next, i, step, j);
            assert(who.tile != s.tile);
            assert(tree.cell(who.tile.0, who.tile.1) == g.world.cell(who.tile.0, who.tile.1));
        }
    } else {
        let taller = g.saplings.update(i, Sapling { tile: s.tile, grow });
        assert(plots_apart(taller)) by {
            assert forall|a: int, b: int| 0 <= a < b < taller.len() implies (
            #[trigger] taller[a]).tile != (#[trigger] taller[b]).tile by {
                assert(taller[a].tile == g.saplings[a].tile);
                assert(taller[b].tile == g.saplings[b].tile);
            }
        }
        let next = GameView { saplings: taller, ..g };
        assert(after == next.grown_from(i + 1, step));
        if k == i {
            assert(clear_of(taller, i + 1, s.tile)) by {
                assert forall|a: int| i + 1 <= a < taller.len() implies (
                #[trigger] taller[a]).tile != s.tile by {
                    assert(taller[a] == g.saplings[a]);
                }
            }
            lemma_elsewhere(next, i + 1, step, s.tile);
            assert(after.saplings[i] == taller[i]);
            assert(after.saplings.contains(taller[i]));
        } else {
            assert(taller[k] == who);
            lemma_fate(next, i + 1, step, k);
            if exists|a: int|
                i <= a < after.saplings.len() && (#[trigger] after.saplings[a]).tile == who.tile {
                let a = choose|a: int|
                    i <= a < after.saplings.len() && (#[trigger] after.saplings[a]).tile
                        == who.tile;
                if a == i {
                    lemma_kept_before(next, i + 1, step, i);
                    assert(after.saplings[i].tile == s.tile);
                }
            }
        }
    }
}

proof fn lemma_kept_before(g: GameView, i: int, step: F32, k: int)
    requires
        0 <= k < i <= g.saplings.len(),
    ensures
        k < g.grown_from(i, step).saplings.len(),
        g.grown_from(i, step).saplings[k] == g.saplings[k],
    decreases g.saplings.len() - i,
{
    if i < g.saplings.len() {
        let s = g.saplings[i];
        let grow = s.grow.add_spec(step);
        let rest = swap_removed(g.saplings, i);
        assert(rest[k] == g.saplings[k]);
        if !g.world.is_open_grass(s.tile.0, s.tile.1) {
            lemma_kept_before(GameView { saplings: rest, ..g }, i, step, k);
        } else if (F32 { bits: crate::vec2::ONE }).le_spec(grow) {
            lemma_kept_before(
                GameView {
                    world: g.world.set_node(
                        s.tile.0,
                        s.tile.1,
                        Resource::Wood,
                        crate::game::SAPLING_YIELD,
                    ),
                    saplings: rest,
                    ..g
                },
                i,
                step,
                k,
            );
        } else {
            lemma_kept_before(
                GameView {
                    saplings: g.saplings.update(i, Sapling { tile: s.tile, grow }),
                    ..g
                },
                i + 1,
                step,
                k,
            );
        }
    }
}

/// As [`fate`], among the saplings from the `i`-th on.
spec fn fate_from(g: GameView, after: GameView, s: Sapling, step: F32, i: int) -> bool {
    let (x, y) = s.tile;
    let grow = s.grow.add_spec(step);
    let still = exists|k: int|
        i <= k < after.saplings.len() && (#[trigger] after.saplings[k]).tile == s.tile;
    if !bare_grass(g.world, x, y) {
        !still && after.world.cell(x, y) == g.world.cell(x, y)
    } else if (F32 { bits: 0x3f80_0000 }).le_spec(grow) {
        !still && after.world.cell(x, y) == Some(
            Cell {
                node: Some(Node { kind: Resource::Wood, amount: 5 }),
                ..g.world.at(x, y)
            },
        )
    } else {
        &&& after.world.cell(x, y) == g.world.cell(x, y)
        &&& after.saplings.contains(Sapling { tile: s.tile, grow })
    }
}

/// Saplings take six seconds to become trees: in a step of time each grows by a sixth of it,
/// unless something else came to stand on its tile, and is a tree of five wood once it has
/// all its growth. No other tile changes.
pub proof fn law_saplings_become_trees(g: GameView, dt: F32, k: int, t: Coord)
    requires
        g.world.wf(),
        plots_apart(g.saplings),
    ensures
        0 <= k < g.saplings.len() ==> fate(
            g,
            g.grown(dt),
            g.saplings[k],
            dt.div_spec(F32 { bits: 0x40c0_0000 }),
        ),
        (forall|i: int| 0 <= i < g.saplings.len() ==> (#[trigger] g.saplings[i]).tile != t)
            ==> g.grown(dt).world.cell(t.0, t.1) == g.world.cell(t.0, t.1),
{
    let step = dt.div_spec(F32 { bits: 0x40c0_0000 });
    if 0 <= k < g.saplings.len() {
        lemma_fate(g, 0, step, k);
    }
    if forall|i: int| 0 <= i < g.saplings.len() ==> (#[trigger] g.saplings[i]).tile != t {
        assert(clear_of(g.saplings, 0, t));
        lemma_elsewhere(g, 0, step, t);
    }
}

} // verus!
