//! The people of the two factions: what they are, and how they move.

use vstd::prelude::*;
use crate::chunk::Resource;
use crate::float::{from_int_spec, F32};
use crate::vec2::{tile_center, tile_center_spec, Coord, Vec2};

verus! {

#[derive(Clone, Copy, PartialEq, Eq, Structural, Debug)]
pub enum Faction {
    Player,
    Enemy,
}

#[derive(Clone, Copy, PartialEq, Eq, Structural, Debug)]
pub enum Job {
    Farmer,
    Knight,
}

#[derive(Clone, Copy, PartialEq, Eq, Structural, Debug)]
pub enum Anim {
    Idle,
    Walk,
    Act,
}

#[derive(Clone, Copy, PartialEq, Eq, Structural, Debug)]
pub enum Dir {
    Down,
    Up,
    Left,
    Right,
}

/// Which kind of villager the player's houses favour raising.
#[derive(Clone, Copy, PartialEq, Eq, Structural, Debug)]
pub enum Priority {
    /// Mostly farmers (grow the economy).
    Agriculture,
    /// Mostly knights (grow the army).
    Military,
}

/// Which resource the player's farmers prefer to gather.
#[derive(Clone, Copy, PartialEq, Eq, Structural, Debug)]
pub enum GatherPriority {
    Balanced,
    Wood,
    Stone,
}

impl GatherPriority {
    pub open spec fn preferred_spec(self) -> Option<Resource> {
        match self {
            GatherPriority::Balanced => None,
            GatherPriority::Wood => Some(Resource::Wood),
            GatherPriority::Stone => Some(Resource::Stone),
        }
    }

    pub fn preferred(self) -> (r: Option<Resource>)
        ensures
            r == self.preferred_spec(),
    {
        match self {
            GatherPriority::Balanced => None,
            GatherPriority::Wood => Some(Resource::Wood),
            GatherPriority::Stone => Some(Resource::Stone),
        }
    }
}

pub const ZERO: u32 = 0;

/// 2.4 tiles per second.
pub const FARMER_SPEED: u32 = 0x4019_999a;

/// 2.9 tiles per second.
pub const KNIGHT_SPEED: u32 = 0x4039_999a;

/// Hit points of a knight: 60.
pub const KNIGHT_HP: u32 = 0x4270_0000;

/// Hit points of one of the player's farmers: 28.
pub const PLAYER_FARMER_HP: u32 = 0x41e0_0000;

/// Hit points of an enemy farmer: 22.
pub const ENEMY_FARMER_HP: u32 = 0x41b0_0000;

/// A step this short is taken at once: 0.02.
pub const SNAP_DISTANCE: u32 = 0x3ca3_d70a;

pub open spec fn owner_of_spec(f: Faction) -> u8 {
    match f {
        Faction::Player => 0,
        Faction::Enemy => 1,
    }
}

/// The number that marks a faction's walls and huts.
pub fn owner_of(f: Faction) -> (r: u8)
    ensures
        r == owner_of_spec(f),
{
    match f {
        Faction::Player => 0,
        Faction::Enemy => 1,
    }
}

/// The way a vector mostly points; sideways when it is level with up and down.
pub open spec fn dir_from_vec_spec(v: Vec2) -> Dir {
    if v.y.abs_spec().le_spec(v.x.abs_spec()) {
        if v.x.lt_spec(F32 { bits: ZERO }) {
            Dir::Left
        } else {
            Dir::Right
        }
    } else if v.y.lt_spec(F32 { bits: ZERO }) {
        Dir::Up
    } else {
        Dir::Down
    }
}

pub fn dir_from_vec(v: Vec2) -> (r: Dir)
    ensures
        r == dir_from_vec_spec(v),
{
    let zero: F32 = F32 { bits: ZERO };
    if v.y.abs().le(v.x.abs()) {
        if v.x.lt(zero) {
            Dir::Left
        } else {
            Dir::Right
        }
    } else if v.y.lt(zero) {
        Dir::Up
    } else {
        Dir::Down
    }
}

pub open spec fn max_hp_for_spec(faction: Faction, job: Job) -> F32 {
    match job {
        Job::Knight => F32 { bits: KNIGHT_HP },
        Job::Farmer => match faction {
            Faction::Player => F32 { bits: PLAYER_FARMER_HP },
            Faction::Enemy => F32 { bits: ENEMY_FARMER_HP },
        },
    }
}

pub fn max_hp_for(faction: Faction, job: Job) -> (r: F32)
    ensures
        r == max_hp_for_spec(faction, job),
{
    match job {
        Job::Knight => F32 { bits: KNIGHT_HP },
        Job::Farmer => match faction {
            Faction::Player => F32 { bits: PLAYER_FARMER_HP },
            Faction::Enemy => F32 { bits: ENEMY_FARMER_HP },
        },
    }
}

pub struct Entity {
    pub faction: Faction,
    pub job: Job,
    pub pos: Vec2,
    pub hp: F32,
    pub max_hp: F32,
    pub anim: Anim,
    pub anim_time: F32,
    pub facing: Dir,
    pub path: Vec<Coord>,
    pub path_cursor: usize,
    pub target_node: Option<Coord>,
    pub harvest_timer: F32,
    pub repath: F32,
    /// Cave (mine) tile a farmer has claimed to mine — capacity-limited so only
    /// a handful work one at a time.
    pub mine_target: Option<Coord>,
    /// Tree a knight is currently turning into a hut.
    pub build_site: Option<Coord>,
    /// Set when a farmer has ducked into a hut this tick (removed afterwards).
    pub sheltered: bool,
}

/// A unit as plain data.
#[verifier::ext_equal]
pub struct EntityView {
    pub faction: Faction,
    pub job: Job,
    pub pos: Vec2,
    pub hp: F32,
    pub max_hp: F32,
    pub anim: Anim,
    pub anim_time: F32,
    pub facing: Dir,
    pub path: Seq<Coord>,
    pub path_cursor: int,
    pub target_node: Option<Coord>,
    pub harvest_timer: F32,
    pub repath: F32,
    pub mine_target: Option<Coord>,
    pub build_site: Option<Coord>,
    pub sheltered: bool,
}

impl View for Entity {
    type V = EntityView;

    open spec fn view(&self) -> EntityView {
        EntityView {
            faction: self.faction,
            job: self.job,
            pos: self.pos,
            hp: self.hp,
            max_hp: self.max_hp,
            anim: self.anim,
            anim_time: self.anim_time,
            facing: self.facing,
            path: self.path@,
            path_cursor: self.path_cursor as int,
            target_node: self.target_node,
            harvest_timer: self.harvest_timer,
            repath: self.repath,
            mine_target: self.mine_target,
            build_site: self.build_site,
            sheltered: self.sheltered,
        }
    }
}

impl EntityView {
    /// A unit with nothing on its mind.
    pub open spec fn idle(
        faction: Faction,
        job: Job,
        pos: Vec2,
        hp: F32,
        max_hp: F32,
        facing: Dir,
        anim: Anim,
    ) -> EntityView {
        EntityView {
            faction,
            job,
            pos,
            hp,
            max_hp,
            anim,
            anim_time: F32 { bits: ZERO },
            facing,
            path: Seq::empty(),
            path_cursor: 0,
            target_node: None,
            harvest_timer: F32 { bits: ZERO },
            repath: F32 { bits: ZERO },
            mine_target: None,
            build_site: None,
            sheltered: false,
        }
    }

    /// A newcomer on a tile, in full health.
    pub open spec fn fresh(faction: Faction, job: Job, tile: Coord) -> EntityView {
        EntityView::idle(
            faction,
            job,
            tile_center_spec(tile),
            max_hp_for_spec(faction, job),
            max_hp_for_spec(faction, job),
            Dir::Down,
            Anim::Idle,
        )
    }

    pub open spec fn tile(self) -> Coord {
        self.pos.tile_spec()
    }

    /// Struck down: no hit points left.
    pub open spec fn slain(self) -> bool {
        self.hp.le_spec(F32 { bits: ZERO })
    }

    pub open spec fn path_done(self) -> bool {
        self.path_cursor >= self.path.len()
    }

    pub open spec fn set_path(self, p: Seq<Coord>) -> EntityView {
        EntityView { path: p, path_cursor: 0, ..self }
    }

    /// A new animation starts from its beginning; the running one goes on.
    pub open spec fn set_anim(self, a: Anim, dt: F32) -> EntityView {
        if self.anim != a {
            EntityView { anim: a, anim_time: F32 { bits: ZERO }, ..self }
        } else {
            EntityView { anim_time: self.anim_time.add_spec(dt), ..self }
        }
    }

    /// Turned towards a tile.
    pub open spec fn face(self, t: Coord) -> EntityView {
        EntityView { facing: dir_from_vec_spec(tile_center_spec(t).sub_spec(self.pos)), ..self }
    }

    /// A step towards the next tile of the path: onto its centre when it is in
    /// reach, otherwise straight towards it.
    pub open spec fn follow_path(self, speed: F32, dt: F32) -> EntityView {
        if self.path_done() {
            self
        } else {
            let goal = tile_center_spec(self.path[self.path_cursor]);
            let to = goal.sub_spec(self.pos);
            let dist = to.length_spec();
            let step = speed.mul_spec(dt);
            if dist.le_spec(step.max_spec(F32 { bits: SNAP_DISTANCE })) {
                EntityView { pos: goal, path_cursor: self.path_cursor + 1, ..self }
            } else {
                EntityView {
                    pos: self.pos.add_spec(to.div_spec(dist).mul_spec(step)),
                    facing: dir_from_vec_spec(to),
                    ..self
                }
            }
        }
    }

    /// Follow the path, or stand idle at its end.
    pub open spec fn walk(self, speed: F32, dt: F32) -> EntityView {
        self.follow_path(speed, dt).set_anim(
            if self.path_done() {
                Anim::Idle
            } else {
                Anim::Walk
            },
            dt,
        )
    }
}

impl Entity {
    pub fn idle(
        faction: Faction,
        job: Job,
        pos: Vec2,
        hp: F32,
        max_hp: F32,
        facing: Dir,
        anim: Anim,
    ) -> (r: Entity)
        ensures
            r@ == EntityView::idle(faction, job, pos, hp, max_hp, facing, anim),
    {
        Entity {
            faction,
            job,
            pos,
            hp,
            max_hp,
            anim,
            anim_time: F32 { bits: ZERO },
            facing,
            path: Vec::new(),
            path_cursor: 0,
            target_node: None,
            harvest_timer: F32 { bits: ZERO },
            repath: F32 { bits: ZERO },
            mine_target: None,
            build_site: None,
            sheltered: false,
        }
    }

    /// A newcomer on a tile, in full health.
    pub fn new(faction: Faction, job: Job, tile: Coord) -> (r: Entity)
        ensures
            r@ == EntityView::fresh(faction, job, tile),
    {
        let max_hp: F32 = max_hp_for(faction, job);
        Entity::idle(faction, job, tile_center(tile), max_hp, max_hp, Dir::Down, Anim::Idle)
    }

    pub fn tile(&self) -> (r: Coord)
        ensures
            r == self@.tile(),
    {
        self.pos.tile()
    }

    pub fn slain(&self) -> (r: bool)
        ensures
            r == self@.slain(),
    {
        self.hp.le(F32 { bits: ZERO })
    }

    pub fn path_done(&self) -> (r: bool)
        ensures
            r == self@.path_done(),
    {
        self.path_cursor >= self.path.len()
    }

    pub fn set_path(&mut self, p: Vec<Coord>)
        ensures
            final(self)@ == old(self)@.set_path(p@),
    {
        self.path = p;
        self.path_cursor = 0;
    }

    /// Drop the path.
    pub fn stop(&mut self)
        ensures
            final(self)@ == old(self)@.set_path(Seq::empty()),
    {
        self.path = Vec::new();
        self.path_cursor = 0;
    }

    pub fn set_anim(&mut self, a: Anim, dt: F32)
        ensures
            final(self)@ == old(self)@.set_anim(a, dt),
    {
        if self.anim != a {
            self.anim = a;
            self.anim_time = F32 { bits: ZERO };
        } else {
            self.anim_time = self.anim_time.add(dt);
        }
    }

    pub fn face(&mut self, t: Coord)
        ensures
            final(self)@ == old(self)@.face(t),
    {
        self.facing = dir_from_vec(tile_center(t).sub(self.pos));
    }

    /// Take a step along the path; false when there is none to take.
    pub fn follow_path(&mut self, speed: F32, dt: F32) -> (r: bool)
        ensures
            final(self)@ == old(self)@.follow_path(speed, dt),
            r == !old(self)@.path_done(),
    {
        if self.path_done() {
            return false;
        }
        let goal: Vec2 = tile_center(self.path[self.path_cursor]);
        let to: Vec2 = goal.sub(self.pos);
        let dist: F32 = to.length();
        let step: F32 = speed.mul(dt);
        if dist.le(step.max(F32 { bits: SNAP_DISTANCE })) {
            let steps: usize = self.path.len();
            assert(self.path_cursor < steps);
            self.pos = goal;
            self.path_cursor = self.path_cursor + 1;
        } else {
            self.pos = self.pos.add(to.div(dist).mul(step));
            self.facing = dir_from_vec(to);
        }
        true
    }

    pub fn walk(&mut self, speed: F32, dt: F32)
        ensures
            final(self)@ == old(self)@.walk(speed, dt),
    {
        let moved: bool = self.follow_path(speed, dt);
        self.set_anim(
            if moved {
                Anim::Walk
            } else {
                Anim::Idle
            },
            dt,
        );
    }
}

/// Houses only raise new workers while the faction has *more than* this many
/// farmers to support them.
pub const MIN_FARMERS_TO_GROW: usize = 3;

/// Shortest possible spawn interval, however many farmers there are: 1.5 seconds.
pub const MIN_SPAWN_INTERVAL: u32 = 0x3fc0_0000;

/// What one farmer beyond the minimum adds to the pace: 0.25.
pub const PACE_PER_FARMER: u32 = 0x3e80_0000;

pub const UNIT_PACE: u32 = 0x3f80_0000;

pub open spec fn spawn_interval_spec(base: F32, farmers: int) -> F32 {
    let extra = from_int_spec(
        if farmers > MIN_FARMERS_TO_GROW {
            farmers - MIN_FARMERS_TO_GROW
        } else {
            0
        },
    );
    base.div_spec(
        F32 { bits: UNIT_PACE }.add_spec(extra.mul_spec(F32 { bits: PACE_PER_FARMER })),
    ).max_spec(F32 { bits: MIN_SPAWN_INTERVAL })
}

/// Spawn interval scaled by farmer count: each farmer beyond the minimum
/// shortens the wait, so a larger workforce raises new units faster.
pub fn spawn_interval(base: F32, farmers: usize) -> (r: F32)
    ensures
        r == spawn_interval_spec(base, farmers as int),
{
    let beyond: usize = if farmers > MIN_FARMERS_TO_GROW {
        farmers - MIN_FARMERS_TO_GROW
    } else {
        0
    };
    let extra: F32 = F32::from_count(beyond);
    base.div(F32 { bits: UNIT_PACE }.add(extra.mul(F32 { bits: PACE_PER_FARMER }))).max(
        F32 { bits: MIN_SPAWN_INTERVAL },
    )
}

} // verus!
