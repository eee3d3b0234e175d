# Kingdom

A small single-player kingdom-builder. You don't control a character: you watch
your settlement from a top-down view, grow it, and defend it against rival camps.

The rules of the game are a library that is verified with
[Verus](https://github.com/verus-lang/verus); a thin program around it owns the
window, the graphics card and the save file.

## The library (`src/`)

| Modules | What they hold |
|---------|----------------|
| `float`, `rounding`, `vec2` | Single-precision arithmetic on bit patterns, and points |
| `grid`, `rng`, `seed` | Tiles and distances, the random generator, seeds from text |
| `chunk`, `noise`, `terrain`, `world` | The endless land: what a tile holds, how it is generated, how it changes |
| `pathfind`, `survey`, `village` | Routes, things nearby, houses that form a village |
| `unit`, `behavior`, `farmer`, `knight` | People and what they do in a step |
| `game`, `founding`, `battle`, `capture`, `turn` | The state of a game, how it begins, and one tick of it |
| `save`, `roundtrip` | The `.dat` format, and what comes back of a save |
| `rules`, `births`, `camps`, `casualties`, `crowding`, `flags`, `register`, `soundness` | What holds of every game |
| `camera`, `draw`, `pixels`, `packing`, `atlas` | What is on screen, and the pictures it is drawn with |
| `session` | The menu, the game and the camera together |

Every function says in its contract exactly what it returns or changes, over plain
data: a game is a `GameView`, its land a `WorldView`, a person an `EntityView`. So
`Game::update` leaves behind `g.updated(dt, sim)`, `Game::to_bytes` gives
`save_bytes(g, cam)`, and `Game::new` starts `GameView::founded(seed)`. Theorems
about these are the public proof functions named `law_...`: routes are shortest, a
save brings the session back as it was, the enemy begins with four
villages, one without defenders changes hands, everyone who falls is counted once, no
mine is overcrowded, and the lists of buildings name what stands on the land.

Two things are taken on trust: that the noise of `fastnoise-lite` and the pictures
that `image` reads depend on nothing but what is asked of them.

## The program (`app/`)

`app/` opens the window (winit), draws (wgpu), shows the panels (egui), and keeps
the save: a file on the desktop, IndexedDB in the browser. Its pictures
are the files below `assets/textures/`: read at the start on the desktop, built in for
the browser.
