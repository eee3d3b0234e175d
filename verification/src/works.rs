//! What building does: where it may go, what it costs, and what stands there afterwards.

use vstd::prelude::*;
use crate::behavior::StepEvent;
use crate::chunk::{Cell, Hut, Node, Resource, Tile, Wall};
use crate::float::F32;
use crate::game::{without, BuildMode, GameView, Sapling};
use crate::grid::near_any_spec;
use crate::rules::law_edits_are_local;
use crate::unit::{EntityView, Faction};
use crate::vec2::Coord;
use crate::world::WorldView;

verus! {

/// Grass with nothing on it.
pub open spec fn bare_grass(w: WorldView, x: i32, y: i32) -> bool {
    w.cell(x, y) matches Some(c) && c.tile == Tile::Grass && c.node is None && !c.house
        && !c.enemy_house && !c.bridge && c.wall is None && !c.cave && c.hut is None
}

/// Water that nothing spans.
pub open spec fn bare_water(w: WorldView, x: i32, y: i32) -> bool {
    w.cell(x, y) matches Some(c) && c.tile == Tile::Water && !c.bridge
}

/// The one tile of the land that differs, and how.
pub open spec fn only_changed(a: WorldView, b: WorldView, x: i32, y: i32, c: Cell) -> bool {
    &&& b.cell(x, y) == Some(c)
    &&& forall|u: i32, v: i32|
        (u, v) != (x, y) ==> #[trigger] b.cell(u, v) == a.cell(u, v)
    &&& b.enemy_house_tiles == a.enemy_house_tiles
    &&& b.seed == a.seed
}

pub proof fn lemma_changed(w: WorldView, x: i32, y: i32, c: Cell)
    requires
        w.wf(),
        w.loaded(x, y),
    ensures
        only_changed(w, w.with_cell(x, y, c), x, y, c),
        w.with_cell(x, y, c).wf(),
{
    law_edits_are_local(w, x, y, c, x, y);
    assert forall|u: i32, v: i32| (u, v) != (x, y) implies #[trigger] w.with_cell(x, y, c).cell(
        u,
        v,
    ) == w.cell(u, v) by {
        law_edits_are_local(w, x, y, c, u, v);
    }
}

/// A house takes eight wood and eight stone, and goes up on bare grass within five tiles
/// of another of the player's houses, and nowhere else.
pub proof fn law_house(g: GameView, x: i32, y: i32)
    requires
        g.world.wf(),
        g.build_mode == BuildMode::House,
    ensures
        if bare_grass(g.world, x, y) && near_any_spec(g.player_house_tiles, (x, y), 5) && g.wood >= 8
            && g.stone >= 8 {
            let after = g.built(x, y);
            &&& only_changed(
                g.world,
                after.world,
                x,
                y,
                Cell { house: true, ..g.world.at(x, y) },
            )
            &&& after == (GameView {
                world: after.world,
                wood: (g.wood - 8) as u32,
                stone: (g.stone - 8) as u32,
                player_house_tiles: g.player_house_tiles.push((x, y)),
                ..g
            })
        } else {
            g.built(x, y) == g
        },
{
    if g.can_build(x, y) {
        lemma_changed(g.world, x, y, Cell { house: true, ..g.world.at(x, y) });
    }
}

/// A bridge takes three wood, and goes up on open water within five tiles of one of the
/// player's houses or two of a bridge the player placed, and nowhere else.
pub proof fn law_bridge(g: GameView, x: i32, y: i32)
    requires
        g.world.wf(),
        g.build_mode == BuildMode::Bridge,
    ensures
        if bare_water(g.world, x, y) && g.wood >= 3 && (near_any_spec(
            g.player_house_tiles,
            (x, y),
            5,
        ) || near_any_spec(g.player_bridges, (x, y), 2)) {
            let after = g.built(x, y);
            &&& only_changed(
                g.world,
                after.world,
                x,
                y,
                Cell { bridge: true, ..g.world.at(x, y) },
            )
            &&& after == (GameView {
                world: after.world,
                wood: (g.wood - 3) as u32,
                player_bridges: g.player_bridges.push((x, y)),
                ..g
            })
        } else {
            g.built(x, y) == g
        },
{
    if g.can_build(x, y) {
        lemma_changed(g.world, x, y, Cell { bridge: true, ..g.world.at(x, y) });
    }
}

/// A mine takes twelve stone, and goes up where a house could.
pub proof fn law_mine(g: GameView, x: i32, y: i32)
    requires
        g.world.wf(),
        g.build_mode == BuildMode::Mine,
    ensures
        if bare_grass(g.world, x, y) && near_any_spec(g.player_house_tiles, (x, y), 5) && g.stone
            >= 12 {
            let after = g.built(x, y);
            &&& only_changed(
                g.world,
                after.world,
                x,
                y,
                Cell { cave: true, ..g.world.at(x, y) },
            )
            &&& after == (GameView {
                world: after.world,
                stone: (g.stone - 12) as u32,
                cave_tiles: g.cave_tiles.push((x, y)),
                ..g
            })
        } else {
            g.built(x, y) == g
        },
{
    if g.can_build(x, y) {
        lemma_changed(g.world, x, y, Cell { cave: true, ..g.world.at(x, y) });
    }
}

/// A wall takes two wood and four stone, and goes up where a house could. It is the
/// player's, and whole.
pub proof fn law_wall(g: GameView, x: i32, y: i32)
    requires
        g.world.wf(),
        g.build_mode == BuildMode::Wall,
    ensures
        if bare_grass(g.world, x, y) && near_any_spec(g.player_house_tiles, (x, y), 5) && g.wood >= 2
            && g.stone >= 4 {
            let after = g.built(x, y);
            // 220 hit points.
            let wall = Wall { owner: 0, hp: F32 { bits: 0x435c_0000 } };
            &&& only_changed(
                g.world,
                after.world,
                x,
                y,
                Cell { wall: Some(wall), ..g.world.at(x, y) },
            )
            &&& after == (GameView {
                world: after.world,
                wood: (g.wood - 2) as u32,
                stone: (g.stone - 4) as u32,
                ..g
            })
        } else {
            g.built(x, y) == g
        },
{
    if g.can_build(x, y) {
        let wall = Wall { owner: 0, hp: F32 { bits: 0x435c_0000 } };
        lemma_changed(g.world, x, y, Cell { wall: Some(wall), ..g.world.at(x, y) });
    }
}

/// A hut is ordered on a tree and nowhere else; the order costs nothing and changes nothing
/// on the land.
pub proof fn law_hut_order(g: GameView, x: i32, y: i32)
    requires
        g.build_mode == BuildMode::Hut,
    ensures
        ({
            let after = g.built(x, y);
            let tree = g.world.cell(x, y) matches Some(c) && c.node is Some && c.node->0.kind
                == Resource::Wood;
            &&& after == (GameView { hut_orders: after.hut_orders, ..g })
            &&& !tree ==> after == g
            &&& tree && !g.hut_orders.contains((x, y)) ==> after.hut_orders == g.hut_orders.push(
                (x, y),
            )
            &&& tree && g.hut_orders.contains((x, y)) ==> after.hut_orders.len() + 1
                == g.hut_orders.len()
        }),
{
    lemma_order(g.hut_orders, (x, y), 0);
    let after = g.built(x, y);
    assert(after =~= (GameView { hut_orders: after.hut_orders, ..g }));
}

proof fn lemma_order(tiles: Seq<Coord>, t: Coord, i: int)
    requires
        0 <= i,
    ensures
        match crate::game::position_spec(tiles, t, i) {
            Some(k) => i <= k < tiles.len() && tiles[k] == t,
            None => forall|j: int| i <= j < tiles.len() ==> #[trigger] tiles[j] != t,
        },
    decreases tiles.len() - i,
{
    if i < tiles.len() && tiles[i] != t {
        lemma_order(tiles, t, i + 1);
    }
}

// --- what comes of a unit's step ---------------------------------------------------------

/// The side's mark on walls and huts.
pub open spec fn mark(f: Faction) -> u8 {
    match f {
        Faction::Player => 0,
        Faction::Enemy => 1,
    }
}

/// A hut that a knight has finished stands in the place of the tree, empty, whole and of
/// the knight's side; it is on the list, and no longer on order.
pub proof fn law_hut_is_built(g: GameView, i: int, t: Coord)
    requires
        g.world.wf(),
        g.world.loaded(t.0, t.1),
        0 <= i < g.entities.len(),
    ensures
        ({
            let after = g.happened(i, Some(StepEvent::BuildHut(t)));
            // 400 hit points.
            let hut = Hut {
                owner: mark(g.entities[i].faction),
                hp: F32 { bits: 0x43c8_0000 },
                occupants: 0,
            };
            &&& only_changed(
                g.world,
                after.world,
                t.0,
                t.1,
                Cell { node: None, hut: Some(hut), ..g.world.at(t.0, t.1) },
            )
            &&& after == (GameView {
                world: after.world,
                hut_tiles: g.hut_tiles.push(t),
                hut_orders: after.hut_orders,
                ..g
            })
            &&& forall|u: Coord| #[trigger]
                after.hut_orders.contains(u) == (g.hut_orders.contains(u) && u != t)
        }),
{
    reveal(GameView::happened);
    let hut = Hut {
        owner: mark(g.entities[i].faction),
        hp: F32 { bits: 0x43c8_0000 },
        occupants: 0,
    };
    lemma_changed(g.world, t.0, t.1, Cell { node: None, hut: Some(hut), ..g.world.at(t.0, t.1) });
    lemma_cancelled(g.hut_orders, t);
}

pub proof fn lemma_cancelled(tiles: Seq<Coord>, t: Coord)
    ensures
        forall|u: Coord| #[trigger]
            without(tiles, t).contains(u) == (tiles.contains(u) && u != t),
    decreases tiles.len(),
{
    if tiles.len() > 0 {
        let rest = tiles.drop_last();
        let last = tiles.last();
        lemma_cancelled(rest, t);
        let now = without(tiles, t);
        assert forall|u: Coord| #[trigger] now.contains(u) == (tiles.contains(u) && u != t) by {
            let front = without(rest, t);
            if tiles.contains(u) {
                let k = tiles.index_of(u);
                if k < rest.len() {
                    assert(rest[k] == u);
                }
            }
            if rest.contains(u) {
                let k = rest.index_of(u);
                assert(tiles[k] == u);
            }
            if front.contains(u) && last != t {
                let k = front.index_of(u);
                assert(now[k] == u);
            }
            if last == u {
                assert(tiles[tiles.len() - 1] == u);
                if last != t {
                    assert(now[front.len() as int] == u);
                }
            }
            if now.contains(u) {
                let k = now.index_of(u);
                if k < front.len() {
                    assert(front[k] == u);
                }
            }
        }
    }
}

/// A wall that a homecomer raises is of its own side, and whole; it costs nothing.
pub proof fn law_wall_is_raised(g: GameView, i: int, t: Coord)
    requires
        g.world.wf(),
        g.world.loaded(t.0, t.1),
        0 <= i < g.entities.len(),
    ensures
        ({
            let after = g.happened(i, Some(StepEvent::RaiseWall(t)));
            let wall = Wall {
                owner: mark(g.entities[i].faction),
                hp: F32 { bits: 0x435c_0000 },
            };
            &&& only_changed(
                g.world,
                after.world,
                t.0,
                t.1,
                Cell { wall: Some(wall), ..g.world.at(t.0, t.1) },
            )
            &&& after == (GameView { world: after.world, ..g })
        }),
{
    reveal(GameView::happened);
    let wall = Wall { owner: mark(g.entities[i].faction), hp: F32 { bits: 0x435c_0000 } };
    lemma_changed(g.world, t.0, t.1, Cell { wall: Some(wall), ..g.world.at(t.0, t.1) });
}

/// A node that a knight has smashed is gone, and brings nothing.
pub proof fn law_smashed_nodes_bring_nothing(g: GameView, i: int, t: Coord)
    requires
        g.world.wf(),
        g.world.loaded(t.0, t.1),
    ensures
        ({
            let after = g.happened(i, Some(StepEvent::Demolish(t)));
            &&& only_changed(
                g.world,
                after.world,
                t.0,
                t.1,
                Cell { node: None, ..g.world.at(t.0, t.1) },
            )
            &&& after == (GameView { world: after.world, ..g })
        }),
{
    reveal(GameView::happened);
    lemma_changed(g.world, t.0, t.1, Cell { node: None, ..g.world.at(t.0, t.1) });
}

/// What a farmer cuts or digs goes into the stockpile: one wood for a tree, one stone for a
/// rock, and the node has one less; one stone for a turn in a mine, which never runs dry.
pub proof fn law_stockpile_fills(g: GameView, i: int, t: Coord)
    requires
        g.world.wf(),
        g.wood < u32::MAX,
        g.stone < u32::MAX,
    ensures
        g.happened(i, Some(StepEvent::MineStone)) == (GameView {
            stone: (g.stone + 1) as u32,
            ..g
        }),
        g.world.node(t.0, t.1) is None ==> g.happened(i, Some(StepEvent::Harvest(t))) == g,
        g.world.node(t.0, t.1) matches Some(n) ==> ({
            let after = g.happened(i, Some(StepEvent::Harvest(t)));
            let left = if n.amount <= 1 {
                None
            } else {
                Some(Node { kind: n.kind, amount: (n.amount - 1) as u32 })
            };
            &&& only_changed(
                g.world,
                after.world,
                t.0,
                t.1,
                Cell { node: left, ..g.world.at(t.0, t.1) },
            )
            &&& after == (GameView {
                world: after.world,
                wood: if n.kind == Resource::Wood {
                    (g.wood + 1) as u32
                } else {
                    g.wood
                },
                stone: if n.kind == Resource::Stone {
                    (g.stone + 1) as u32
                } else {
                    g.stone
                },
                ..g
            })
        }),
{
    reveal(GameView::happened);
    if let Some(n) = g.world.node(t.0, t.1) {
        let left = if n.amount <= 1 {
            None
        } else {
            Some(Node { kind: n.kind, amount: (n.amount - 1) as u32 })
        };
        lemma_changed(g.world, t.0, t.1, Cell { node: left, ..g.world.at(t.0, t.1) });
    }
}

/// A sapling is sown on bare grass where none stands yet; it has still all its growing to
/// do.
pub proof fn law_saplings_are_sown(g: GameView, i: int, t: Coord)
    ensures
        ({
            let after = g.happened(i, Some(StepEvent::Plant(t)));
            let taken = exists|k: int| 0 <= k < g.saplings.len() && (#[trigger] g.saplings[k]).tile == t;
            if bare_grass(g.world, t.0, t.1) && !taken {
                after == (GameView {
                    saplings: g.saplings.push(Sapling { tile: t, grow: F32 { bits: 0 } }),
                    ..g
                })
            } else {
                after == g
            }
        }),
{
    reveal(GameView::happened);
    let all = crate::turn::plots(g.saplings);
    if all.contains(t) {
        let k = all.index_of(t);
        assert(g.saplings[k].tile == t);
    }
    if exists|k: int| 0 <= k < g.saplings.len() && (#[trigger] g.saplings[k]).tile == t {
        let k = choose|k: int| 0 <= k < g.saplings.len() && (#[trigger] g.saplings[k]).tile == t;
        assert(all[k] == t);
    }
}

/// Whoever ducks into a hut with room is inside, and out of the field.
pub proof fn law_hiding_fills_the_hut(g: GameView, i: int, t: Coord)
    requires
        g.world.wf(),
        0 <= i < g.entities.len(),
        g.world.hut(t.0, t.1) is Some,
    ensures
        ({
            let after = g.happened(i, Some(StepEvent::Hide(t)));
            let h = g.world.hut(t.0, t.1)->0;
            if h.occupants < 4 {
                &&& only_changed(
                    g.world,
                    after.world,
                    t.0,
                    t.1,
                    Cell {
                        hut: Some(Hut { occupants: (h.occupants + 1) as u8, ..h }),
                        ..g.world.at(t.0, t.1)
                    },
                )
                &&& after == (GameView {
                    world: after.world,
                    entities: g.entities.update(
                        i,
                        EntityView { sheltered: true, ..g.entities[i] },
                    ),
                    ..g
                })
            } else {
                after == g
            }
        }),
{
    reveal(GameView::happened);
    let h = g.world.hut(t.0, t.1)->0;
    if h.occupants < 4 {
        lemma_changed(
            g.world,
            t.0,
            t.1,
            Cell {
                hut: Some(Hut { occupants: (h.occupants + 1) as u8, ..h }),
                ..g.world.at(t.0, t.1)
            },
        );
    }
}

} // verus!
