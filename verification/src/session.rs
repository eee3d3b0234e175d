//! The player's session: the menu or the game, the camera, and what input and
//! menu choices do to them.

use vstd::prelude::*;
use crate::camera::{Camera, Keys, DEFAULT_VIEW_HEIGHT};
use crate::draw::{draw, scene_quads, Quad};
use crate::float::F32;
use crate::game::{CamState, Game, GameView};
use crate::save::{cam_at, game_at, intact, save_bytes};
use crate::unit::ZERO;
use crate::vec2::Vec2;
use crate::village::{village_center, village_center_spec};

verus! {

#[derive(Clone, Copy, PartialEq, Eq, Structural, Debug)]
pub enum Scene {
    Menu,
    Playing,
}

/// Something the player asked for in the menu or the panel.
#[derive(Clone, Copy, PartialEq, Eq, Structural, Debug)]
pub enum Action {
    CreateWorld(i32),
    Load,
    Resume,
    Save,
    ToMenu,
}

/// Mutable state backing the menu's widgets.
pub struct MenuState {
    pub seed_text: String,
}

impl Default for MenuState {
    fn default() -> (r: MenuState)
        ensures
            r.seed_text@ == Seq::<char>::empty(),
    {
        let seed_text: String = String::new();
        assert(seed_text@ =~= Seq::<char>::empty());
        MenuState { seed_text }
    }
}

pub struct Session {
    pub scene: Scene,
    pub camera: Camera,
    pub game: Option<Game>,
}

#[verifier::ext_equal]
pub struct SessionView {
    pub scene: Scene,
    pub camera: Camera,
    pub game: Option<GameView>,
}

impl View for Session {
    type V = SessionView;

    open spec fn view(&self) -> SessionView {
        SessionView {
            scene: self.scene,
            camera: self.camera,
            game: match self.game {
                Some(g) => Some(g@),
                None => None,
            },
        }
    }
}

pub open spec fn cam_of(c: Camera) -> CamState {
    CamState { cx: c.center.x, cy: c.center.y, view_height: c.view_height }
}

/// What is to be done outside: nothing, or write these bytes.
pub enum Request {
    Nothing,
    Write(Vec<u8>),
}

impl SessionView {
    /// The session after a choice in the menu or the panel, with the save that was
    /// found, if any.
    pub open spec fn chosen(self, action: Action, stored: Option<Seq<u8>>) -> SessionView {
        match action {
            Action::CreateWorld(seed) => {
                let game = GameView::founded(seed);
                SessionView {
                    scene: Scene::Playing,
                    camera: Camera {
                        center: village_center_spec(game.player_house_tiles),
                        view_height: F32 { bits: DEFAULT_VIEW_HEIGHT },
                        ..self.camera
                    },
                    game: Some(game),
                }
            },
            Action::Load => match stored {
                Some(bytes) => if intact(bytes) {
                    SessionView {
                        scene: Scene::Playing,
                        camera: Camera {
                            center: Vec2 { x: cam_at(bytes).cx, y: cam_at(bytes).cy },
                            view_height: cam_at(bytes).view_height,
                            ..self.camera
                        },
                        game: Some(game_at(bytes)),
                    }
                } else {
                    self
                },
                None => self,
            },
            Action::Resume => if self.game is Some {
                SessionView { scene: Scene::Playing, ..self }
            } else {
                self
            },
            Action::Save => self,
            Action::ToMenu => SessionView { scene: Scene::Menu, ..self },
        }
    }

    /// Time passes while the game is played: the camera pans, and then the game
    /// goes on around what it shows.
    pub open spec fn ticked(self, keys: Keys, dt: F32) -> SessionView {
        if self.scene != Scene::Playing {
            self
        } else {
            let camera = self.camera.panned(keys, dt);
            SessionView {
                camera,
                game: match self.game {
                    Some(g) => Some(g.updated(dt, camera.sim_spec())),
                    None => None,
                },
                ..self
            }
        }
    }

    pub open spec fn clicked(self, at: Vec2) -> SessionView {
        SessionView {
            game: match self.game {
                Some(g) => Some(g.built(at.tile_spec().0, at.tile_spec().1)),
                None => None,
            },
            ..self
        }
    }

    /// Land generated for what is on screen.
    pub open spec fn revealed(self) -> SessionView {
        let v = self.camera.visible_spec();
        match self.game {
            Some(g) => if self.scene == Scene::Playing {
                SessionView {
                    game: Some(
                        GameView {
                            world: g.world.ensured_region(v.0, v.1, v.2, v.3),
                            ..g
                        },
                    ),
                    ..self
                }
            } else {
                self
            },
            None => self,
        }
    }
}

impl Game {
    /// The middle of the player's houses, where a new game is first seen.
    pub fn start_center(&self) -> (r: Vec2)
        ensures
            r == village_center_spec(self@.player_house_tiles),
    {
        village_center(&self.player_house_tiles)
    }
}

impl Session {
    pub open spec fn wf(&self) -> bool {
        self.game matches Some(g) ==> g.wf()
    }

    /// At the menu, with no game yet.
    pub fn new() -> (r: Session)
        ensures
            r.wf(),
            r@.scene == Scene::Menu,
            r@.game is None,
            r@.camera.center == (Vec2 { x: F32 { bits: ZERO }, y: F32 { bits: ZERO } }),
            r@.camera.view_height == (F32 { bits: DEFAULT_VIEW_HEIGHT }),
            r@.camera.aspect == (F32 { bits: crate::vec2::ONE }),
    {
        let camera: Camera = Camera::new(
            Vec2 { x: F32 { bits: ZERO }, y: F32 { bits: ZERO } },
        );
        Session { scene: Scene::Menu, camera, game: None }
    }

    pub fn cam_state(&self) -> (r: CamState)
        ensures
            r == cam_of(self@.camera),
    {
        CamState {
            cx: self.camera.center.x,
            cy: self.camera.center.y,
            view_height: self.camera.view_height,
        }
    }

    /// Carry out a choice. `stored` is the save that was found, if any; a save that
    /// cannot be read changes nothing.
    pub fn apply_action(&mut self, action: Action, stored: Option<&Vec<u8>>) -> (r: Request)
        requires
            old(self).wf(),
        ensures
            final(self).wf(),
            final(self)@ == old(self)@.chosen(
                action,
                match stored {
                    Some(b) => Some(b@),
                    None => None,
                },
            ),
            match r {
                Request::Write(bytes) => action == Action::Save && old(self)@.game is Some
                    && bytes@ == save_bytes(old(self)@.game->0, cam_of(old(self)@.camera)),
                Request::Nothing => action == Action::Save ==> old(self)@.game is None,
            },
    {
        match action {
            Action::CreateWorld(seed) => {
                let game: Game = Game::new(seed);
                self.camera.center = game.start_center();
                self.game = Some(game);
                self.camera.view_height = F32 { bits: DEFAULT_VIEW_HEIGHT };
                self.scene = Scene::Playing;
                Request::Nothing
            },
            Action::Load => {
                if let Some(bytes) = stored {
                    if let Some(loaded) = Game::from_bytes(bytes.as_slice()) {
                        let (game, cam) = loaded;
                        self.camera.center = Vec2 { x: cam.cx, y: cam.cy };
                        self.camera.view_height = cam.view_height;
                        self.game = Some(game);
                        self.scene = Scene::Playing;
                    }
                }
                Request::Nothing
            },
            Action::Resume => {
                if self.game.is_some() {
                    self.scene = Scene::Playing;
                }
                Request::Nothing
            },
            Action::Save => {
                let cam: CamState = self.cam_state();
                match &self.game {
                    Some(game) => Request::Write(game.to_bytes(cam)),
                    None => Request::Nothing,
                }
            },
            Action::ToMenu => {
                self.scene = Scene::Menu;
                Request::Nothing
            },
        }
    }

    /// Playing -> back to menu; on the menu -> quit (true).
    pub fn escape(&mut self) -> (quit: bool)
        requires
            old(self).wf(),
        ensures
            final(self).wf(),
            quit == (old(self)@.scene == Scene::Menu),
            final(self)@ == (SessionView { scene: Scene::Menu, ..old(self)@ }),
    {
        if self.scene == Scene::Playing {
            self.scene = Scene::Menu;
            false
        } else {
            true
        }
    }

    /// Time passes.
    pub fn update(&mut self, keys: Keys, dt: F32)
        requires
            old(self).wf(),
        ensures
            final(self).wf(),
            final(self)@ == old(self)@.ticked(keys, dt),
    {
        if self.scene != Scene::Playing {
            return;
        }
        self.camera.pan(keys, dt);
        let sim: (i32, i32, i32, i32) = self.camera.sim_bounds();
        let game: Option<Game> = self.game.take();
        if let Some(mut g) = game {
            g.update(dt, sim);
            self.game = Some(g);
        }
    }

    /// Do what a left-click on that point of the screen asks for.
    pub fn build_at(&mut self, px: F32, py: F32, screen_w: F32, screen_h: F32)
        requires
            old(self).wf(),
        ensures
            final(self).wf(),
            final(self)@ == old(self)@.clicked(
                old(self)@.camera.screen_to_world_spec(px, py, screen_w, screen_h),
            ),
    {
        let at: Vec2 = self.camera.screen_to_world(px, py, screen_w, screen_h);
        let game: Option<Game> = self.game.take();
        if let Some(mut g) = game {
            let _built: bool = g.try_build(at);
            self.game = Some(g);
        }
    }

    /// Lift the rally flag.
    pub fn clear_rally(&mut self)
        requires
            old(self).wf(),
        ensures
            final(self).wf(),
            final(self)@ == (SessionView {
                game: match old(self)@.game {
                    Some(g) => Some(GameView { rally_point: None, ..g }),
                    None => None,
                },
                ..old(self)@
            }),
    {
        let game: Option<Game> = self.game.take();
        if let Some(mut g) = game {
            g.clear_rally();
            self.game = Some(g);
        }
    }

    /// Generate the land that is on screen.
    pub fn load_visible(&mut self)
        requires
            old(self).wf(),
        ensures
            final(self).wf(),
            final(self)@ == old(self)@.revealed(),
    {
        if self.scene == Scene::Playing {
            let (minx, miny, maxx, maxy) = self.camera.visible_bounds();
            let game: Option<Game> = self.game.take();
            if let Some(mut g) = game {
                g.world.ensure_region(minx, miny, maxx, maxy);
                self.game = Some(g);
            }
        }
    }

    /// Assemble the draw list for the visible tile rectangle.
    pub fn build_instances(&self) -> (r: Vec<Quad>)
        requires
            self.wf(),
        ensures
            r@ == match self@.game {
                Some(g) => scene_quads(g, self@.camera.visible_spec()),
                None => Seq::empty(),
            },
    {
        match &self.game {
            Some(game) => draw(game, self.camera.visible_bounds()),
            None => {
                let none: Vec<Quad> = Vec::new();
                assert(none@ =~= Seq::empty());
                none
            },
        }
    }
}

/// Saving and then loading brings the player back to the same view of the same
/// land, with the same people about the same business.
pub proof fn law_save_then_load(s: SessionView)
    requires
        s.game matches Some(g) && g.world.wf() && crate::roundtrip::keepable(g),
    ensures
        ({
            let bytes = save_bytes(s.game->0, cam_of(s.camera));
            let back = s.chosen(Action::Load, Some(bytes));
            &&& back.scene == Scene::Playing
            &&& back.camera == s.camera
            &&& back.game == Some(crate::roundtrip::brought_back(s.game->0))
        }),
{
    crate::roundtrip::law_save_round_trip(s.game->0, cam_of(s.camera));
}

/// The menu keeps the session: a game that was left can be taken up as it was.
pub proof fn law_menu_and_back(s: SessionView, stored: Option<Seq<u8>>)
    requires
        s.game is Some,
        s.scene == Scene::Playing,
    ensures
        s.chosen(Action::ToMenu, stored).chosen(Action::Resume, stored) == s,
{
}

} // verus!
