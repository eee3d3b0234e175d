//! What the atlas shows: every sprite and every sheet is cut from its own file.

use vstd::prelude::*;
use crate::atlas::{
    all_of, bindable, binds, law_atlas_shows_every_picture, lemma_painted_size, place_of, read,
    sheet_number, sizes_of, sprite_number, Atlas, Textures, UvRect,
};
use crate::draw::{Sheet, Sprite};
use crate::float::from_int_spec;
use crate::packing::packed;
use crate::pixels::{lemma_drawn, lemma_filled, ImageView};

verus! {

/// The part of the atlas of `w` by `h` pixels at `(px, py)` is the rectangle, and holds the
/// top left of the picture.
pub open spec fn shows_at(
    atlas: Atlas,
    r: UvRect,
    img: ImageView,
    w: int,
    h: int,
    px: int,
    py: int,
) -> bool {
    let wide = from_int_spec(512);
    let tall = from_int_spec(atlas.height as int);
    &&& r.u_min == from_int_spec(px).div_spec(wide)
    &&& r.u_max == from_int_spec(px + w).div_spec(wide)
    &&& r.v_min == from_int_spec(py).div_spec(tall)
    &&& r.v_max == from_int_spec(py + h).div_spec(tall)
    &&& forall|x: int, y: int, c: int|
        0 <= x < w && 0 <= y < h && 0 <= c < 4 ==> atlas.rgba@[4 * ((py + y) * 512 + (px + x)) + c]
            == #[trigger] img.byte(x, y, c)
}

/// The rectangle shows the top left of the picture, `w` by `h` pixels of it.
pub open spec fn shows(atlas: Atlas, r: UvRect, img: ImageView, w: int, h: int) -> bool {
    exists|px: int, py: int| #[trigger] shows_at(atlas, r, img, w, h, px, py)
}

/// The rectangle shows the whole picture in the file.
pub open spec fn shows_file(atlas: Atlas, r: UvRect, file: Seq<u8>) -> bool {
    read(file) matches Some(img) && shows(atlas, r, img, img.width as int, img.height as int)
}

/// The rectangle shows the first tile of the picture in the file.
pub open spec fn shows_corner(atlas: Atlas, r: UvRect, file: Seq<u8>) -> bool {
    read(file) matches Some(img) && img.width >= 16 && img.height >= 16 && shows(
        atlas,
        r,
        img,
        16,
        16,
    )
}

/// The rectangle shows a tile with the picture in the file at its foot, in the middle.
pub open spec fn shows_seated(atlas: Atlas, r: UvRect, file: Seq<u8>) -> bool {
    read(file) matches Some(img) && exists|seat: ImageView| #[trigger]
        shows(atlas, r, seat, 16, 16) && (img.width <= 16 && img.height <= 16 ==> forall|
            x: int,
            y: int,
            c: int,
        |
            0 <= x < img.width && 0 <= y < img.height && 0 <= c < 4 ==> #[trigger] img.byte(x, y, c)
                == seat.byte((16 - img.width) / 2 + x, 16 - img.height + y, c))
}

proof fn lemma_picture(atlas: Atlas, pictures: Seq<Option<ImageView>>, n: int)
    requires
        bindable(pictures),
        binds(atlas, pictures),
        0 <= n < pictures.len(),
    ensures
        ({
            let img = pictures[n]->0;
            shows(atlas, atlas.rects@[n], img, img.width as int, img.height as int)
        }),
{
    let images = all_of(pictures);
    let img = images[n];
    let s = packed(sizes_of(images));
    let (px, py) = place_of(s.placed, n, s.placed.len() as int);
    lemma_painted_size(images, s.placed, atlas.height, s.placed.len() as int);
    assert forall|x: int, y: int, c: int|
        0 <= x < img.width && 0 <= y < img.height && 0 <= c < 4 implies atlas.rgba@[4 * ((py + y)
        * 512 + (px + x)) + c] == #[trigger] img.byte(x, y, c) by {
        law_atlas_shows_every_picture(images, n, x, y, c);
    }
    assert(shows_at(
        atlas,
        atlas.rects@[n],
        img,
        img.width as int,
        img.height as int,
        px,
        py,
    ));
}

proof fn lemma_corner(atlas: Atlas, pictures: Seq<Option<ImageView>>, n: int, file: Seq<u8>)
    requires
        bindable(pictures),
        binds(atlas, pictures),
        0 <= n < pictures.len(),
        pictures[n] == crate::atlas::first_building(read(file)),
    ensures
        shows_corner(atlas, atlas.rects@[n], file),
{
    lemma_picture(atlas, pictures, n);
    assert(pictures[n] is Some);
    let img = read(file)->0;
    let cut = pictures[n]->0;
    let r = atlas.rects@[n];
    let (px, py) = choose|px: int, py: int| #[trigger] shows_at(atlas, r, cut, 16, 16, px, py);
    assert forall|x: int, y: int, c: int|
        0 <= x < 16 && 0 <= y < 16 && 0 <= c < 4 implies atlas.rgba@[4 * ((py + y) * 512 + (px
        + x)) + c] == #[trigger] img.byte(x, y, c) by {
        lemma_drawn(16, 16, |x: int, y: int, c: int| img.byte(0 + x, 0 + y, c), x, y, c);
        assert(cut.byte(x, y, c) == img.byte(x, y, c));
    }
    assert(shows_at(atlas, r, img, 16, 16, px, py));
}

proof fn lemma_seated(atlas: Atlas, pictures: Seq<Option<ImageView>>, n: int, file: Seq<u8>)
    requires
        bindable(pictures),
        binds(atlas, pictures),
        0 <= n < pictures.len(),
        pictures[n] == crate::atlas::on_a_tile(read(file)),
    ensures
        shows_seated(atlas, atlas.rects@[n], file),
{
    lemma_picture(atlas, pictures, n);
    assert(pictures[n] is Some);
    let img = read(file)->0;
    let seat = pictures[n]->0;
    assert(shows(atlas, atlas.rects@[n], seat, 16, 16));
    if img.width <= 16 && img.height <= 16 {
        let x0 = (16 - img.width) / 2;
        let y0 = 16 - img.height;
        let bare = crate::pixels::filled(16, 16, 0);
        assert forall|x: int, y: int, c: int|
            0 <= x < img.width && 0 <= y < img.height && 0 <= c < 4 implies #[trigger] img.byte(
            x,
            y,
            c,
        ) == seat.byte(x0 + x, y0 + y, c) by {
            lemma_drawn(
                16,
                16,
                |x: int, y: int, c: int|
                    if x0 <= x < x0 + img.width && y0 <= y < y0 + img.height {
                        img.byte(x - x0, y - y0, c)
                    } else {
                        bare.byte(x, y, c)
                    },
                x0 + x,
                y0 + y,
                c,
            );
        }
    }
}

/// Every sprite and every sheet shows its own file: land, bridges, walls, huts, the mine and
/// the flag the whole picture, houses the first building of theirs, trees and rocks seated on
/// a tile; what is drawn without a picture is plain white.
pub proof fn law_sprites_show_their_files(atlas: Atlas, t: Textures, white: ImageView)
    requires
        bindable(t.pictures()),
        binds(atlas, t.pictures()),
        white.width == 1,
        white.height == 1,
        forall|c: int| 0 <= c < 4 ==> #[trigger] white.byte(0, 0, c) == 255,
    ensures
        shows(atlas, atlas.rects@[sprite_number(Sprite::White)], white, 1, 1),
        shows_file(atlas, atlas.rects@[sprite_number(Sprite::Grass)], t.grass@),
        shows_file(atlas, atlas.rects@[sprite_number(Sprite::Water)], t.water@),
        shows_corner(atlas, atlas.rects@[sprite_number(Sprite::House)], t.houses@),
        shows_corner(atlas, atlas.rects@[sprite_number(Sprite::EnemyHouse)], t.enemy_houses@),
        shows_file(atlas, atlas.rects@[sprite_number(Sprite::Bridge)], t.bridge@),
        shows_file(atlas, atlas.rects@[sprite_number(Sprite::Wall)], t.wall@),
        shows_seated(atlas, atlas.rects@[sprite_number(Sprite::Tree)], t.tree@),
        shows_seated(atlas, atlas.rects@[sprite_number(Sprite::Rock)], t.rock@),
        shows_file(atlas, atlas.rects@[sprite_number(Sprite::Rally)], t.rally@),
        shows_file(atlas, atlas.rects@[sprite_number(Sprite::Cave)], t.cave@),
        shows_file(atlas, atlas.rects@[sprite_number(Sprite::Hut)], t.hut@),
        shows_file(atlas, atlas.rects@[sprite_number(Sprite::EnemyHut)], t.enemy_hut@),
        shows_file(atlas, atlas.rects@[sprite_number(Sprite::AllyHut)], t.ally_hut@),
        shows_file(atlas, atlas.rects@[sheet_number(Sheet::Farmer)], t.farmer@),
        shows_file(atlas, atlas.rects@[sheet_number(Sheet::Knight)], t.knight@),
        shows_file(atlas, atlas.rects@[sheet_number(Sheet::EnemyFarmer)], t.enemy_farmer@),
        shows_file(atlas, atlas.rects@[sheet_number(Sheet::EnemyKnight)], t.enemy_knight@),
{
    let p = t.pictures();
    assert(p.len() == 18);
    assert forall|n: int| 0 <= n < 18 implies (#[trigger] p[n]) is Some && shows(
        atlas,
        atlas.rects@[n],
        p[n]->0,
        (p[n]->0).width as int,
        (p[n]->0).height as int,
    ) by {
        lemma_picture(atlas, p, n);
    }
    lemma_corner(atlas, p, 3, t.houses@);
    lemma_corner(atlas, p, 4, t.enemy_houses@);
    lemma_seated(atlas, p, 7, t.tree@);
    lemma_seated(atlas, p, 8, t.rock@);
    let dot = p[0]->0;
    let r = atlas.rects@[0];
    let (px, py) = choose|px: int, py: int| #[trigger] shows_at(atlas, r, dot, 1, 1, px, py);
    assert forall|x: int, y: int, c: int|
        0 <= x < 1 && 0 <= y < 1 && 0 <= c < 4 implies atlas.rgba@[4 * ((py + y) * 512 + (px + x))
        + c] == #[trigger] white.byte(x, y, c) by {
        lemma_filled(1, 1, 255, x, y, c);
        assert(dot.byte(x, y, c) == 255);
    }
    assert(shows_at(atlas, r, white, 1, 1, px, py));
}

} // verus!
