//! What the player sees and does: the view, the menu, the seed, and how units move.

use vstd::prelude::*;
use crate::camera::{Camera, Keys};
use crate::float::F32;
use crate::game::{in_sim_spec, GameView};
use crate::grid::{shift_spec, within_spec};
use crate::save::intact;
use crate::seed::{all_digits, digits_value, is_space_spec, seed_spec, trim_spec};
use crate::session::{Action, Scene, SessionView};
use crate::unit::{dir_from_vec_spec, Anim, Dir, EntityView, Faction};
use crate::vec2::{tile_center_spec, Coord, Vec2};
use crate::village::village_center_spec;
use crate::world::{law_loading_keeps_land, law_region_is_loaded};

verus! {

// --- the view ----------------------------------------------------------------------------

/// More is simulated than is seen: 24 tiles more on every side, as far as there are tiles.
pub proof fn law_more_is_simulated_than_seen(c: Camera)
    ensures
        ({
            let v = c.visible_spec();
            let s = c.sim_spec();
            &&& s.0 == if v.0 - 24 < i32::MIN {
                i32::MIN as int
            } else {
                v.0 - 24
            }
            &&& s.1 == if v.1 - 24 < i32::MIN {
                i32::MIN as int
            } else {
                v.1 - 24
            }
            &&& s.2 == if v.2 + 24 > i32::MAX {
                i32::MAX as int
            } else {
                v.2 + 24
            }
            &&& s.3 == if v.3 + 24 > i32::MAX {
                i32::MAX as int
            } else {
                v.3 + 24
            }
        }),
{
}

/// The tiles that are drawn reach one tile beyond the edges of the view on every side: half
/// its height up and down from the middle, and that times the shape of the screen to the
/// left and right.
pub proof fn law_the_view_is_framed(c: Camera)
    requires
        -1000000 <= c.visible_spec().0 && c.visible_spec().2 <= 1000000,
        -1000000 <= c.visible_spec().1 && c.visible_spec().3 <= 1000000,
    ensures
        ({
            let v = c.visible_spec();
            let tall = c.view_height.mul_spec(F32 { bits: 0x3f00_0000 });
            let wide = tall.mul_spec(c.aspect);
            &&& v.0 == c.center.x.sub_spec(wide).floor_spec() - 1
            &&& v.1 == c.center.y.sub_spec(tall).floor_spec() - 1
            &&& v.2 == c.center.x.add_spec(wide).ceil_spec() + 1
            &&& v.3 == c.center.y.add_spec(tall).ceil_spec() + 1
        }),
{
}

/// With no key held the view stays where it is, and panning never changes how much is in
/// view.
pub proof fn law_no_key_no_pan(c: Camera, keys: Keys, dt: F32)
    ensures
        !keys.up && !keys.down && !keys.left && !keys.right ==> c.panned(keys, dt) == c,
        c.panned(keys, dt).view_height == c.view_height,
        c.panned(keys, dt).aspect == c.aspect,
{
    reveal(F32::eq_spec);
}

// --- the menu ----------------------------------------------------------------------------

/// Time stands still in the menu.
pub proof fn law_menu_stops_time(s: SessionView, keys: Keys, dt: F32)
    requires
        s.scene == Scene::Menu,
    ensures
        s.ticked(keys, dt) == s,
{
}

/// While the game is played, time passes for what is in and around the view: the game goes on
/// by one tick within what is simulated round the view as it has just been moved.
pub proof fn law_playing_passes_time(s: SessionView, keys: Keys, dt: F32)
    requires
        s.scene == Scene::Playing,
        s.game is Some,
    ensures
        ({
            let after = s.ticked(keys, dt);
            &&& after.scene == Scene::Playing
            &&& after.camera == s.camera.panned(keys, dt)
            &&& after.game == Some(s.game->0.updated(dt, after.camera.sim_spec()))
        }),
{
}

/// A new world is the one of its seed, whatever was played before, with the view on the
/// player's village.
pub proof fn law_new_worlds_are_new(
    s: SessionView,
    t: SessionView,
    seed: i32,
    stored: Option<Seq<u8>>,
)
    ensures
        ({
            let a = s.chosen(Action::CreateWorld(seed), stored);
            let b = t.chosen(Action::CreateWorld(seed), stored);
            &&& a.game == b.game
            &&& a.game == Some(GameView::founded(seed))
            &&& a.scene == Scene::Playing
            &&& a.camera.center == village_center_spec(a.game->0.player_house_tiles)
            // 28 tiles.
            &&& a.camera.view_height == (F32 { bits: 0x41e0_0000 })
            &&& a.camera.aspect == s.camera.aspect
        }),
{
}

/// What cannot be done changes nothing: loading where there is no save that can be read,
/// resuming where there is no game. Saving changes nothing either, and going to the menu
/// nothing but that.
pub proof fn law_idle_choices(s: SessionView, stored: Option<Seq<u8>>)
    ensures
        (stored is None || !intact(stored->0)) ==> s.chosen(Action::Load, stored) == s,
        s.game is None ==> s.chosen(Action::Resume, stored) == s,
        s.chosen(Action::Save, stored) == s,
        s.chosen(Action::ToMenu, stored) == (SessionView { scene: Scene::Menu, ..s }),
        s.game is Some ==> s.chosen(Action::Resume, stored) == (SessionView {
            scene: Scene::Playing,
            ..s
        }),
{
}

/// A click does what is being built at the tile under it, and leaves the view where it is;
/// where no game has begun it does nothing.
pub proof fn law_clicks_build(s: SessionView, at: Vec2)
    ensures
        s.game is None ==> s.clicked(at) == s,
        s.game matches Some(g) ==> s.clicked(at) == (SessionView {
            game: Some(g.built(at.x.floor_spec(), at.y.floor_spec())),
            ..s
        }),
{
}

/// What is in view is there: every tile of it is loaded before it is drawn, and what was
/// loaded stays as it was.
pub proof fn law_land_in_view_is_loaded(s: SessionView, x: i32, y: i32, u: i32, v: i32)
    requires
        s.scene == Scene::Playing,
        s.game matches Some(g) && g.world.wf(),
        s.camera.visible_spec().0 <= x <= s.camera.visible_spec().2,
        s.camera.visible_spec().1 <= y <= s.camera.visible_spec().3,
    ensures
        ({
            let after = s.revealed();
            &&& after.game is Some
            &&& after.game->0.world.loaded(x, y)
            &&& s.game->0.world.loaded(u, v) ==> after.game->0.world.cell(u, v)
                == s.game->0.world.cell(u, v)
            &&& after.game->0 == (GameView { world: after.game->0.world, ..s.game->0 })
            &&& after.scene == s.scene && after.camera == s.camera
        }),
{
    let w = s.game->0.world;
    let b = s.camera.visible_spec();
    law_region_is_loaded(w, b.0, b.1, b.2, b.3, x, y);
    law_loading_keeps_land(w, b.0, b.1, b.2, b.3, u, v);
}

// --- the land round the units ------------------------------------------------------------

/// The rectangle takes in all of the first `n` units that are simulated.
proof fn lemma_bounds(g: GameView, sim: (i32, i32, i32, i32), n: int, i: int)
    requires
        0 <= i < n <= g.entities.len(),
        in_sim_spec(sim, g.entities[i].tile()),
    ensures
        g.bounds(sim, n) matches Some(b) && {
            let t = g.entities[i].tile();
            b.0 <= t.0 <= b.2 && b.1 <= t.1 <= b.3
        },
    decreases n,
{
    if i < n - 1 {
        lemma_bounds(g, sim, n - 1, i);
    }
}

/// Round every unit that is simulated the land is loaded, forty tiles each way, and what was
/// loaded stays as it was.
pub proof fn law_surroundings_are_loaded(
    g: GameView,
    sim: (i32, i32, i32, i32),
    i: int,
    x: i32,
    y: i32,
    u: i32,
    v: i32,
)
    requires
        g.world.wf(),
        0 <= i < g.entities.len(),
        sim.0 <= g.entities[i].tile().0 <= sim.2,
        sim.1 <= g.entities[i].tile().1 <= sim.3,
        within_spec((x, y), g.entities[i].tile(), 40),
    ensures
        ({
            let after = g.surveyed(sim);
            &&& after.world.loaded(x, y)
            &&& g.world.loaded(u, v) ==> after.world.cell(u, v) == g.world.cell(u, v)
            &&& after == (GameView { world: after.world, ..g })
        }),
{
    lemma_bounds(g, sim, g.entities.len() as int, i);
    let b = g.bounds(sim, g.entities.len() as int)->0;
    let (x0, y0) = (shift_spec(b.0, -40), shift_spec(b.1, -40));
    let (x1, y1) = (shift_spec(b.2, 40), shift_spec(b.3, 40));
    law_region_is_loaded(g.world, x0, y0, x1, y1, x, y);
    law_loading_keeps_land(g.world, x0, y0, x1, y1, u, v);
}

// --- moving ------------------------------------------------------------------------------

/// A unit that walks keeps to its path: it comes to stand in the middle of the next tile when
/// that is no farther than its pace takes it, and then has the one after before it; otherwise
/// it goes as far as its pace takes it straight toward that middle, and looks that way. With
/// no way to go it stays put. Nothing else about it changes.
pub proof fn law_units_keep_to_their_path(e: EntityView, speed: F32, dt: F32)
    ensures
        ({
            let after = e.walk(speed, dt);
            let done = e.path_cursor >= e.path.len();
            let goal = tile_center_spec(e.path[e.path_cursor]);
            let to = goal.sub_spec(e.pos);
            let dist = to.length_spec();
            let pace = speed.mul_spec(dt);
            // A fiftieth of a tile is never too far.
            let near = dist.le_spec(pace.max_spec(F32 { bits: 0x3ca3_d70a }));
            &&& after == (EntityView {
                pos: after.pos,
                path_cursor: after.path_cursor,
                facing: after.facing,
                anim: after.anim,
                anim_time: after.anim_time,
                ..e
            })
            &&& done ==> after.pos == e.pos && after.path_cursor == e.path_cursor
                && after.anim == Anim::Idle
            &&& !done ==> after.anim == Anim::Walk
            &&& !done && near ==> after.pos == goal && after.path_cursor == e.path_cursor + 1
            &&& !done && !near ==> after.path_cursor == e.path_cursor && after.pos == e.pos.add_spec(
                to.div_spec(dist).mul_spec(pace),
            ) && after.facing == dir_from_vec_spec(to)
        }),
{
}

/// Which way a unit looks: along the axis on which it goes farther, and the way it goes on it.
pub proof fn law_units_look_where_they_go(v: Vec2)
    requires
        !v.x.nan(),
        !v.y.nan(),
    ensures
        ({
            let d = dir_from_vec_spec(v);
            let across = v.x.magnitude() >= v.y.magnitude();
            &&& (d == Dir::Left) == (across && v.x.key() < 0)
            &&& (d == Dir::Right) == (across && v.x.key() >= 0)
            &&& (d == Dir::Up) == (!across && v.y.key() < 0)
            &&& (d == Dir::Down) == (!across && v.y.key() >= 0)
        }),
{
    reveal(F32::le_spec);
    reveal(F32::lt_spec);
}

// --- seeds -------------------------------------------------------------------------------

/// A blank seed leaves the choice open; any other text decides the world by itself.
pub proof fn law_seeds_decide(text: Seq<char>, a: i32, b: i32)
    ensures
        trim_spec(text).len() == 0 ==> seed_spec(text, a) == a,
        trim_spec(text).len() > 0 ==> seed_spec(text, a) == seed_spec(text, b),
        seed_spec(trim_spec(text), a) == seed_spec(text, a),
{
    crate::seed::law_trimming_is_settled(text);
}

/// Text that is all white space is blank.
pub proof fn law_white_space_is_blank(text: Seq<char>)
    requires
        forall|i: int| 0 <= i < text.len() ==> is_space_spec(#[trigger] text[i]),
    ensures
        trim_spec(text).len() == 0,
    decreases text.len(),
{
    if text.len() > 0 {
        let rest = text.drop_first();
        assert(is_space_spec(text[0]));
        assert forall|i: int| 0 <= i < rest.len() implies is_space_spec(#[trigger] rest[i]) by {
            assert(rest[i] == text[i + 1]);
        }
        law_white_space_is_blank(rest);
    }
}

/// A number is its own seed, with a sign in front of it or not, where it fits.
pub proof fn law_numbers_are_seeds(digits: Seq<char>, random: i32)
    requires
        all_digits(digits),
        digits_value(digits) <= i32::MAX,
    ensures
        seed_spec(digits, random) == digits_value(digits),
        seed_spec(seq!['-'] + digits, random) == -digits_value(digits),
        seed_spec(seq!['+'] + digits, random) == digits_value(digits),
{
    lemma_digits(digits);
    let minus = seq!['-'] + digits;
    let plus = seq!['+'] + digits;
    assert(minus.drop_first() =~= digits);
    assert(plus.drop_first() =~= digits);
    assert(is_digit(digits[0]));
    assert(is_digit(digits[digits.len() - 1]));
    assert(trim_spec(digits) == digits);
    assert(minus.last() == digits.last());
    assert(plus.last() == digits.last());
    assert(trim_spec(minus) == minus);
    assert(trim_spec(plus) == plus);
}

spec fn is_digit(c: char) -> bool {
    crate::seed::is_digit_spec(c)
}

proof fn lemma_digits(s: Seq<char>)
    requires
        forall|i: int| 0 <= i < s.len() ==> is_digit(#[trigger] s[i]),
    ensures
        digits_value(s) >= 0,
    decreases s.len(),
{
    if s.len() > 0 {
        let rest = s.drop_last();
        assert forall|i: int| 0 <= i < rest.len() implies is_digit(#[trigger] rest[i]) by {
            assert(s[i] == rest[i]);
        }
        lemma_digits(rest);
        assert(is_digit(s[s.len() - 1]));
    }
}

// --- villages ----------------------------------------------------------------------------

/// The unit is within five tiles of the middle of one of the houses.
pub open spec fn is_in(e: EntityView, village: Seq<Coord>) -> bool {
    let five = F32 { bits: 0x40a0_0000 };
    exists|k: int|
        0 <= k < village.len() && e.pos.distance_squared_spec(
            tile_center_spec(#[trigger] village[k]),
        ).le_spec(five.mul_spec(five))
}

/// A village is undefended just when none of its own side's units is in it, and one of the
/// other side's is.
pub proof fn law_when_a_village_is_undefended(
    es: Seq<EntityView>,
    village: Seq<Coord>,
    owner: Faction,
)
    ensures
        crate::capture::undefended(es, village, owner) == ((forall|i: int|
            0 <= i < es.len() && (#[trigger] es[i]).faction == owner ==> !is_in(es[i], village))
            && (exists|i: int|
            0 <= i < es.len() && (#[trigger] es[i]).faction != owner && is_in(es[i], village))),
{
    assert forall|e: EntityView| #[trigger] is_in(e, village) == crate::capture::inside_spec(
        e,
        village,
    ) by {}
    if crate::capture::undefended(es, village, owner) {
        let i = choose|i: int|
            0 <= i < es.len() && (#[trigger] es[i]).faction != owner && crate::capture::inside_spec(
                es[i],
                village,
            );
        assert(es[i].faction != owner && is_in(es[i], village));
    }
    if exists|i: int| 0 <= i < es.len() && (#[trigger] es[i]).faction != owner && is_in(es[i], village) {
        let i = choose|i: int|
            0 <= i < es.len() && (#[trigger] es[i]).faction != owner && is_in(es[i], village);
        assert(es[i].faction != owner && crate::capture::inside_spec(es[i], village));
    }
}

} // verus!
