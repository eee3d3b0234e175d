//! The texture atlas: every picture of the game in one image.
//!
//! Static sprites (tiles, buildings) are single rectangles. Character sprite
//! sheets are kept whole, with their grid dimensions, so that individual animation
//! frames can be sliced out.

use vstd::prelude::*;
use crate::draw::{Sheet, Sprite};
use crate::float::{from_int_spec, F32};
use crate::packing::{pack, packable, packed, power_from, Layout, ATLAS_W};
use crate::pixels::{
    assembled, crop, decoded, fill, filled, load, pad_to_tile, paste, seen, white_pixel, Image,
    ImageView, TILE,
};

verus! {

/// How many pictures the atlas holds: sprites first, then sheets.
pub const PICTURES: usize = 18;

/// Columns and rows of a sheet of animation frames.
pub const SHEET_COLS: u32 = 5;

pub const SHEET_ROWS: u32 = 12;

/// UV rectangle into the atlas.
#[derive(Clone, Copy, PartialEq, Eq, Structural, Debug)]
pub struct UvRect {
    pub u_min: F32,
    pub v_min: F32,
    pub u_max: F32,
    pub v_max: F32,
}

/// The image files that the pictures come from.
pub struct Textures {
    pub grass: Vec<u8>,
    pub water: Vec<u8>,
    pub houses: Vec<u8>,
    pub enemy_houses: Vec<u8>,
    pub bridge: Vec<u8>,
    pub wall: Vec<u8>,
    pub tree: Vec<u8>,
    pub rock: Vec<u8>,
    pub rally: Vec<u8>,
    pub cave: Vec<u8>,
    pub hut: Vec<u8>,
    pub enemy_hut: Vec<u8>,
    pub ally_hut: Vec<u8>,
    pub farmer: Vec<u8>,
    pub knight: Vec<u8>,
    pub enemy_farmer: Vec<u8>,
    pub enemy_knight: Vec<u8>,
}

/// What the image files hold, where they could be read.
pub struct Drawings {
    pub grass: Option<Image>,
    pub water: Option<Image>,
    pub houses: Option<Image>,
    pub enemy_houses: Option<Image>,
    pub bridge: Option<Image>,
    pub wall: Option<Image>,
    pub tree: Option<Image>,
    pub rock: Option<Image>,
    pub rally: Option<Image>,
    pub cave: Option<Image>,
    pub hut: Option<Image>,
    pub enemy_hut: Option<Image>,
    pub ally_hut: Option<Image>,
    pub farmer: Option<Image>,
    pub knight: Option<Image>,
    pub enemy_farmer: Option<Image>,
    pub enemy_knight: Option<Image>,
}

pub struct Atlas {
    pub width: u32,
    pub height: u32,
    pub rgba: Vec<u8>,
    /// The part of the image that each picture takes up, by number.
    pub rects: Vec<UvRect>,
}

/// A picture's number in the atlas.
pub open spec fn sprite_number(s: Sprite) -> int {
    match s {
        Sprite::White => 0,
        Sprite::Grass => 1,
        Sprite::Water => 2,
        Sprite::House => 3,
        Sprite::EnemyHouse => 4,
        Sprite::Bridge => 5,
        Sprite::Wall => 6,
        Sprite::Tree => 7,
        Sprite::Rock => 8,
        Sprite::Rally => 9,
        Sprite::Cave => 10,
        Sprite::Hut => 11,
        Sprite::EnemyHut => 12,
        Sprite::AllyHut => 13,
    }
}

pub open spec fn sheet_number(s: Sheet) -> int {
    match s {
        Sheet::Farmer => 14,
        Sheet::Knight => 15,
        Sheet::EnemyFarmer => 16,
        Sheet::EnemyKnight => 17,
    }
}

/// The top left building of a 3x3 grid of them.
pub open spec fn first_building(p: Option<ImageView>) -> Option<ImageView> {
    match p {
        Some(i) => if i.width >= TILE && i.height >= TILE {
            Some(i.cropped(0, 0, TILE, TILE))
        } else {
            None
        },
        None => None,
    }
}

pub open spec fn on_a_tile(p: Option<ImageView>) -> Option<ImageView> {
    match p {
        Some(i) => Some(i.padded()),
        None => None,
    }
}

/// The picture in an image file.
#[verifier::opaque]
pub open spec fn read(bytes: Seq<u8>) -> Option<ImageView> {
    assembled(decoded(bytes))
}

impl Textures {
    /// The pictures of the atlas, by number.
    pub open spec fn pictures(self) -> Seq<Option<ImageView>> {
        pictures_spec(
            read(self.grass@),
            read(self.water@),
            read(self.houses@),
            read(self.enemy_houses@),
            read(self.bridge@),
            read(self.wall@),
            read(self.tree@),
            read(self.rock@),
            read(self.rally@),
            read(self.cave@),
            read(self.hut@),
            read(self.enemy_hut@),
            read(self.ally_hut@),
            read(self.farmer@),
            read(self.knight@),
            read(self.enemy_farmer@),
            read(self.enemy_knight@),
        )
    }
}

impl Drawings {
    pub open spec fn wf(self) -> bool {
        &&& whole(self.grass) && whole(self.water) && whole(self.houses)
        &&& whole(self.enemy_houses) && whole(self.bridge) && whole(self.wall)
        &&& whole(self.tree) && whole(self.rock) && whole(self.rally)
        &&& whole(self.cave) && whole(self.hut) && whole(self.enemy_hut)
        &&& whole(self.ally_hut) && whole(self.farmer) && whole(self.knight) && whole(self.enemy_farmer)
        &&& whole(self.enemy_knight)
    }

    /// The pictures of the atlas, by number.
    pub open spec fn pictures(self) -> Seq<Option<ImageView>> {
        pictures_spec(
            seen(self.grass),
            seen(self.water),
            seen(self.houses),
            seen(self.enemy_houses),
            seen(self.bridge),
            seen(self.wall),
            seen(self.tree),
            seen(self.rock),
            seen(self.rally),
            seen(self.cave),
            seen(self.hut),
            seen(self.enemy_hut),
            seen(self.ally_hut),
            seen(self.farmer),
            seen(self.knight),
            seen(self.enemy_farmer),
            seen(self.enemy_knight),
        )
    }
}

pub open spec fn whole(p: Option<Image>) -> bool {
    p matches Some(i) ==> i@.wf()
}

pub open spec fn pictures_spec(
    grass: Option<ImageView>,
    water: Option<ImageView>,
    houses: Option<ImageView>,
    enemy_houses: Option<ImageView>,
    bridge: Option<ImageView>,
    wall: Option<ImageView>,
    tree: Option<ImageView>,
    rock: Option<ImageView>,
    rally: Option<ImageView>,
    cave: Option<ImageView>,
    hut: Option<ImageView>,
    enemy_hut: Option<ImageView>,
    ally_hut: Option<ImageView>,
    farmer: Option<ImageView>,
    knight: Option<ImageView>,
    enemy_farmer: Option<ImageView>,
    enemy_knight: Option<ImageView>,
) -> Seq<Option<ImageView>> {
    seq![
        Some(filled(1, 1, 255)),
        grass,
        water,
        first_building(houses),
        first_building(enemy_houses),
        bridge,
        wall,
        on_a_tile(tree),
        on_a_tile(rock),
        rally,
        cave,
        hut,
        enemy_hut,
        ally_hut,
        farmer,
        knight,
        enemy_farmer,
        enemy_knight,
    ]
}

/// Nothing is missing.
pub open spec fn complete(pictures: Seq<Option<ImageView>>) -> bool {
    forall|i: int| 0 <= i < pictures.len() ==> (#[trigger] pictures[i]) is Some
}

pub open spec fn all_of(pictures: Seq<Option<ImageView>>) -> Seq<ImageView> {
    Seq::new(pictures.len(), |i: int| pictures[i]->0)
}

pub open spec fn sizes_of(images: Seq<ImageView>) -> Seq<(u32, u32)> {
    Seq::new(images.len(), |i: int| (images[i].width, images[i].height))
}

/// The first `n` placed pictures laid over an empty image.
pub open spec fn painted(
    images: Seq<ImageView>,
    placed: Seq<(int, int, int)>,
    height: u32,
    n: int,
) -> ImageView
    decreases n,
{
    if n <= 0 {
        filled(ATLAS_W, height, 0)
    } else {
        let p = placed[n - 1];
        painted(images, placed, height, n - 1).pasted(images[p.0], p.1, p.2)
    }
}

pub open spec fn height_of(images: Seq<ImageView>) -> u32 {
    power_from(packed(sizes_of(images)).height(), 1) as u32
}

/// The whole image.
pub open spec fn sheet_of(images: Seq<ImageView>) -> ImageView {
    let placed = packed(sizes_of(images)).placed;
    painted(images, placed, height_of(images), placed.len() as int)
}

/// Where the picture with that number was placed.
pub open spec fn place_of(placed: Seq<(int, int, int)>, i: int, n: int) -> (int, int)
    decreases n,
{
    if n <= 0 {
        (0, 0)
    } else if placed[n - 1].0 == i {
        (placed[n - 1].1, placed[n - 1].2)
    } else {
        place_of(placed, i, n - 1)
    }
}

/// The part of the atlas that a picture takes up.
pub open spec fn rect_of(images: Seq<ImageView>, i: int) -> UvRect {
    let placed = packed(sizes_of(images)).placed;
    let (x, y) = place_of(placed, i, placed.len() as int);
    uv_spec(x, y, images[i].width as int, images[i].height as int, height_of(images) as int)
}

pub open spec fn uv_spec(x: int, y: int, w: int, h: int, height: int) -> UvRect {
    let aw = from_int_spec(ATLAS_W as int);
    let ah = from_int_spec(height);
    UvRect {
        u_min: from_int_spec(x).div_spec(aw),
        v_min: from_int_spec(y).div_spec(ah),
        u_max: from_int_spec(x + w).div_spec(aw),
        v_max: from_int_spec(y + h).div_spec(ah),
    }
}

fn uv_rect(x: u32, y: u32, w: u32, h: u32, height: u32) -> (r: UvRect)
    ensures
        r == uv_spec(x as int, y as int, w as int, h as int, height as int),
{
    let aw: F32 = F32::from_int(ATLAS_W as i64);
    let ah: F32 = F32::from_int(height as i64);
    UvRect {
        u_min: F32::from_int(x as i64).div(aw),
        v_min: F32::from_int(y as i64).div(ah),
        u_max: F32::from_int(x as i64 + w as i64).div(aw),
        v_max: F32::from_int(y as i64 + h as i64).div(ah),
    }
}

pub open spec fn frame_uv_spec(r: UvRect, cols: int, rows: int, col: int, row: int) -> UvRect {
    let fw = r.u_max.sub_spec(r.u_min).div_spec(from_int_spec(cols));
    let fh = r.v_max.sub_spec(r.v_min).div_spec(from_int_spec(rows));
    let x = r.u_min.add_spec(from_int_spec(col).mul_spec(fw));
    let y = r.v_min.add_spec(from_int_spec(row).mul_spec(fh));
    UvRect { u_min: x, v_min: y, u_max: x.add_spec(fw), v_max: y.add_spec(fh) }
}

impl Atlas {
    pub open spec fn wf(&self) -> bool {
        self.rects@.len() == PICTURES
    }

    /// The part of the atlas that a sprite takes up.
    pub fn uv(&self, sprite: Sprite) -> (r: UvRect)
        requires
            self.wf(),
        ensures
            r == self.rects@[sprite_number(sprite)],
    {
        let n: usize = match sprite {
            Sprite::White => 0,
            Sprite::Grass => 1,
            Sprite::Water => 2,
            Sprite::House => 3,
            Sprite::EnemyHouse => 4,
            Sprite::Bridge => 5,
            Sprite::Wall => 6,
            Sprite::Tree => 7,
            Sprite::Rock => 8,
            Sprite::Rally => 9,
            Sprite::Cave => 10,
            Sprite::Hut => 11,
            Sprite::EnemyHut => 12,
            Sprite::AllyHut => 13,
        };
        self.rects[n]
    }

    /// UV rect for a single frame (col, row) of a packed sprite sheet.
    pub fn frame_uv(&self, sheet: Sheet, col: u32, row: u32) -> (r: UvRect)
        requires
            self.wf(),
        ensures
            r == frame_uv_spec(
                self.rects@[sheet_number(sheet)],
                SHEET_COLS as int,
                SHEET_ROWS as int,
                col as int,
                row as int,
            ),
    {
        let n: usize = match sheet {
            Sheet::Farmer => 14,
            Sheet::Knight => 15,
            Sheet::EnemyFarmer => 16,
            Sheet::EnemyKnight => 17,
        };
        let r: UvRect = self.rects[n];
        let fw: F32 = r.u_max.sub(r.u_min).div(F32::from_int(SHEET_COLS as i64));
        let fh: F32 = r.v_max.sub(r.v_min).div(F32::from_int(SHEET_ROWS as i64));
        let x: F32 = r.u_min.add(F32::from_int(col as i64).mul(fw));
        let y: F32 = r.v_min.add(F32::from_int(row as i64).mul(fh));
        UvRect { u_min: x, v_min: y, u_max: x.add(fw), v_max: y.add(fh) }
    }
}

fn open_file(bytes: &Vec<u8>) -> (r: Option<Image>)
    ensures
        seen(r) == read(bytes@),
        whole(r),
{
    proof {
        reveal(read);
    }
    load(bytes.as_slice())
}

fn cut(p: Option<Image>) -> (r: Option<Image>)
    requires
        whole(p),
    ensures
        seen(r) == first_building(seen(p)),
        whole(r),
{
    match p {
        Some(i) => crop(&i, 0, 0, TILE, TILE),
        None => None,
    }
}

fn pad(p: Option<Image>) -> (r: Option<Image>)
    requires
        whole(p),
    ensures
        seen(r) == on_a_tile(seen(p)),
        whole(r),
{
    match p {
        Some(i) => Some(pad_to_tile(&i)),
        None => None,
    }
}

/// The views of a list of pictures.
pub open spec fn views(images: Seq<Image>) -> Seq<ImageView> {
    Seq::new(images.len(), |i: int| images[i]@)
}

pub open spec fn seen_all(pictures: Seq<Option<Image>>) -> Seq<Option<ImageView>> {
    Seq::new(pictures.len(), |i: int| seen(pictures[i]))
}

fn gather(pictures: Vec<Option<Image>>) -> (r: Option<Vec<Image>>)
    requires
        forall|i: int| 0 <= i < pictures.len() ==> whole(#[trigger] pictures@[i]),
    ensures
        r is Some == complete(seen_all(pictures@)),
        r matches Some(images) ==> {
            &&& views(images@) == all_of(seen_all(pictures@))
            &&& forall|i: int| 0 <= i < images.len() ==> (#[trigger] images@[i])@.wf()
        },
{
    let ghost all = pictures@;
    let mut rest: Vec<Option<Image>> = pictures;
    let mut back: Vec<Image> = Vec::new();
    while rest.len() > 0
        invariant
            all == pictures@,
            rest@ == all.take(rest.len() as int),
            rest.len() + back.len() == all.len(),
            forall|i: int| 0 <= i < all.len() ==> whole(#[trigger] all[i]),
            forall|i: int|
                0 <= i < back.len() ==> all[all.len() - 1 - i] == Some(#[trigger] back@[i]),
        decreases rest.len(),
    {
        let ghost n = rest.len() as int;
        let last: Option<Image> = rest.pop().unwrap();
        assert(last == all[n - 1]);
        assert(rest@ =~= all.take(n - 1));
        match last {
            Some(i) => {
                back.push(i);
            },
            None => {
                assert(seen_all(all)[n - 1] is None);
                return None;
            },
        }
    }
    let mut images: Vec<Image> = Vec::new();
    while back.len() > 0
        invariant
            back.len() + images.len() == all.len(),
            forall|i: int| 0 <= i < all.len() ==> whole(#[trigger] all[i]),
            forall|i: int|
                0 <= i < back.len() ==> all[all.len() - 1 - i] == Some(#[trigger] back@[i]),
            forall|i: int| 0 <= i < images.len() ==> all[i] == Some(#[trigger] images@[i]),
        decreases back.len(),
    {
        let next: Image = back.pop().unwrap();
        images.push(next);
    }
    proof {
        assert forall|i: int| 0 <= i < all.len() implies (#[trigger] seen_all(all)[i]) is Some by {
            assert(all[i] == Some(images@[i]));
        }
        assert(views(images@) =~= all_of(seen_all(all)));
        assert forall|i: int| 0 <= i < images.len() implies (#[trigger] images@[i])@.wf() by {
            assert(whole(all[i]));
        }
    }
    Some(images)
}

fn measure(images: &Vec<Image>) -> (r: Vec<(u32, u32)>)
    ensures
        r@ == sizes_of(views(images@)),
{
    let mut sizes: Vec<(u32, u32)> = Vec::new();
    let mut i: usize = 0;
    while i < images.len()
        invariant
            i <= images.len(),
            sizes@ =~= sizes_of(views(images@)).take(i as int),
        decreases images.len() - i,
    {
        sizes.push((images[i].width, images[i].height));
        i = i + 1;
    }
    assert(sizes@ =~= sizes_of(views(images@)));
    sizes
}

fn paint(images: &Vec<Image>, layout: &Layout) -> (r: Image)
    requires
        packable(sizes_of(views(images@))),
        forall|i: int| 0 <= i < images.len() ==> (#[trigger] images@[i])@.wf(),
        crate::packing::placed_as_ints(layout.placements@) == packed(
            sizes_of(views(images@)),
        ).placed,
        packed(sizes_of(views(images@))).height() <= layout.height,
        4 * (ATLAS_W * layout.height) <= usize::MAX,
    ensures
        r@ == painted(
            views(images@),
            packed(sizes_of(views(images@))).placed,
            layout.height,
            images.len() as int,
        ),
        r@.wf(),
{
    let ghost vs = views(images@);
    let ghost sizes = sizes_of(vs);
    let ghost placed = packed(sizes).placed;
    proof {
        crate::packing::law_sprites_do_not_overlap(sizes);
    }
    let mut image: Image = fill(ATLAS_W, layout.height, 0);
    let mut n: usize = 0;
    while n < layout.placements.len()
        invariant
            n <= layout.placements.len(),
            vs == views(images@),
            sizes == sizes_of(vs),
            placed == packed(sizes).placed,
            placed == crate::packing::placed_as_ints(layout.placements@),
            forall|i: int| 0 <= i < images.len() ==> (#[trigger] images@[i])@.wf(),
            forall|k: int|
                0 <= k < placed.len() ==> {
                    let p = #[trigger] placed[k];
                    &&& 0 <= p.0 < sizes.len()
                    &&& p.1 + sizes[p.0].0 <= ATLAS_W
                    &&& p.2 + sizes[p.0].1 < packed(sizes).height()
                },
            packed(sizes).height() <= layout.height,
            image@.wf(),
            image.width == ATLAS_W,
            image.height == layout.height,
            image@ == painted(vs, placed, layout.height, n as int),
        decreases layout.placements.len() - n,
    {
        let i: usize = layout.placements[n].sprite;
        let x: u32 = layout.placements[n].x;
        let y: u32 = layout.placements[n].y;
        assert(placed[n as int] == (i as int, x as int, y as int));
        assert(vs[i as int] == images@[i as int]@);
        paste(&mut image, &images[i], x, y);
        n = n + 1;
    }
    image
}

fn find_place(layout: &Layout, i: usize) -> (r: (u32, u32))
    ensures
        (r.0 as int, r.1 as int) == place_of(
            crate::packing::placed_as_ints(layout.placements@),
            i as int,
            layout.placements.len() as int,
        ),
{
    let ghost placed = crate::packing::placed_as_ints(layout.placements@);
    let mut n: usize = layout.placements.len();
    while n > 0
        invariant
            n <= layout.placements.len(),
            placed == crate::packing::placed_as_ints(layout.placements@),
            place_of(placed, i as int, n as int) == place_of(
                placed,
                i as int,
                layout.placements.len() as int,
            ),
        decreases n,
    {
        assert(placed[n - 1] == (
            layout.placements@[n - 1].sprite as int,
            layout.placements@[n - 1].x as int,
            layout.placements@[n - 1].y as int,
        ));
        if layout.placements[n - 1].sprite == i {
            return (layout.placements[n - 1].x, layout.placements[n - 1].y);
        }
        n = n - 1;
    }
    (0, 0)
}

/// The atlas of some pictures, where all are there and fit, and memory can address
/// its pixels.
pub open spec fn bindable(pictures: Seq<Option<ImageView>>) -> bool {
    &&& complete(pictures)
    &&& packable(sizes_of(all_of(pictures)))
    &&& 4 * (ATLAS_W * height_of(all_of(pictures))) <= usize::MAX
}

/// The atlas holds these pictures.
pub open spec fn binds(atlas: Atlas, pictures: Seq<Option<ImageView>>) -> bool {
    let images = all_of(pictures);
    &&& atlas.wf()
    &&& atlas.width == ATLAS_W
    &&& atlas.height == height_of(images)
    &&& atlas.rgba@.len() == 4 * (atlas.width * atlas.height)
    &&& atlas.rgba@ == sheet_of(images).rgba
    &&& atlas.rects@ == Seq::new(images.len(), |i: int| rect_of(images, i))
}

/// Put the pictures together; nothing when one is missing, or they do not fit.
pub fn bind(d: Drawings) -> (r: Option<Atlas>)
    requires
        d.wf(),
    ensures
        r is Some == bindable(d.pictures()),
        r matches Some(atlas) ==> binds(atlas, d.pictures()),
{
    let ghost want = d.pictures();
    let mut pictures: Vec<Option<Image>> = Vec::new();
    pictures.push(Some(white_pixel()));
    pictures.push(d.grass);
    pictures.push(d.water);
    pictures.push(cut(d.houses));
    pictures.push(cut(d.enemy_houses));
    pictures.push(d.bridge);
    pictures.push(d.wall);
    pictures.push(pad(d.tree));
    pictures.push(pad(d.rock));
    pictures.push(d.rally);
    pictures.push(d.cave);
    pictures.push(d.hut);
    pictures.push(d.enemy_hut);
    pictures.push(d.ally_hut);
    pictures.push(d.farmer);
    pictures.push(d.knight);
    pictures.push(d.enemy_farmer);
    pictures.push(d.enemy_knight);
    assert(seen_all(pictures@) =~= want);
    let images: Vec<Image> = match gather(pictures) {
        Some(images) => images,
        None => {
            return None;
        },
    };
    let ghost vs = all_of(want);
    let sizes: Vec<(u32, u32)> = measure(&images);
    let layout: Layout = match pack(&sizes) {
        Some(layout) => layout,
        None => {
            return None;
        },
    };
    proof {
        crate::packing::law_sprites_do_not_overlap(sizes_of(vs));
    }
    if layout.height as u64 * 2048 > usize::MAX as u64 {
        return None;
    }
    let image: Image = paint(&images, &layout);
    proof {
        let placed = packed(sizes_of(vs)).placed;
        lemma_painted_size(vs, placed, layout.height, placed.len() as int);
    }
    let mut rects: Vec<UvRect> = Vec::new();
    let mut i: usize = 0;
    while i < images.len()
        invariant
            i <= images.len(),
            vs == views(images@),
            crate::packing::placed_as_ints(layout.placements@) == packed(sizes_of(vs)).placed,
            layout.height == height_of(vs),
            rects@ =~= Seq::new(i as nat, |k: int| rect_of(vs, k)),
        decreases images.len() - i,
    {
        let (x, y) = find_place(&layout, i);
        assert(vs[i as int] == images@[i as int]@);
        rects.push(uv_rect(x, y, images[i].width, images[i].height, layout.height));
        i = i + 1;
    }
    Some(Atlas { width: ATLAS_W, height: layout.height, rgba: image.rgba, rects })
}

/// Build the atlas from image files; nothing when one cannot be read, the buildings
/// are smaller than a tile, or the pictures do not fit.
pub fn build(t: &Textures) -> (r: Option<Atlas>)
    ensures
        r is Some == bindable(t.pictures()),
        r matches Some(atlas) ==> binds(atlas, t.pictures()),
{
    let d: Drawings = Drawings {
        grass: open_file(&t.grass),
        water: open_file(&t.water),
        houses: open_file(&t.houses),
        enemy_houses: open_file(&t.enemy_houses),
        bridge: open_file(&t.bridge),
        wall: open_file(&t.wall),
        tree: open_file(&t.tree),
        rock: open_file(&t.rock),
        rally: open_file(&t.rally),
        cave: open_file(&t.cave),
        hut: open_file(&t.hut),
        enemy_hut: open_file(&t.enemy_hut),
        ally_hut: open_file(&t.ally_hut),
        farmer: open_file(&t.farmer),
        knight: open_file(&t.knight),
        enemy_farmer: open_file(&t.enemy_farmer),
        enemy_knight: open_file(&t.enemy_knight),
    };
    assert(d.pictures() =~= t.pictures());
    bind(d)
}

// --- what the atlas is good for ------------------------------------------------------

proof fn lemma_painted(
    images: Seq<ImageView>,
    placed: Seq<(int, int, int)>,
    height: u32,
    n: int,
    k: int,
    x: int,
    y: int,
    c: int,
)
    requires
        0 <= k < n <= placed.len(),
        0 <= x < images[placed[k].0].width,
        0 <= y < images[placed[k].0].height,
        0 <= c < 4,
        placed[k].1 >= 0,
        placed[k].2 >= 0,
        placed[k].1 + images[placed[k].0].width <= ATLAS_W,
        placed[k].2 + images[placed[k].0].height <= height,
        forall|l: int|
            k < l < placed.len() ==> crate::packing::clear_of(
                sizes_of(images),
                placed[k],
                #[trigger] placed[l],
            ),
        forall|l: int| 0 <= l < placed.len() ==> 0 <= (#[trigger] placed[l]).0 < images.len(),
    ensures
        painted(images, placed, height, n).byte(placed[k].1 + x, placed[k].2 + y, c)
            == images[placed[k].0].byte(x, y, c),
        painted(images, placed, height, n).width == ATLAS_W,
        painted(images, placed, height, n).height == height,
    decreases n,
{
    let p = placed[n - 1];
    let before = painted(images, placed, height, n - 1);
    let src = images[p.0];
    let (gx, gy) = (placed[k].1 + x, placed[k].2 + y);
    lemma_painted_size(images, placed, height, n - 1);
    crate::pixels::lemma_drawn(
        before.width,
        before.height,
        |x: int, y: int, c: int|
            if p.1 <= x < p.1 + src.width && p.2 <= y < p.2 + src.height {
                src.byte(x - p.1, y - p.2, c)
            } else {
                before.byte(x, y, c)
            },
        gx,
        gy,
        c,
    );
    if k < n - 1 {
        lemma_painted(images, placed, height, n - 1, k, x, y, c);
        assert(crate::packing::clear_of(sizes_of(images), placed[k], placed[n - 1]));
    }
}

pub proof fn lemma_painted_size(
    images: Seq<ImageView>,
    placed: Seq<(int, int, int)>,
    height: u32,
    n: int,
)
    ensures
        painted(images, placed, height, n).width == ATLAS_W,
        painted(images, placed, height, n).height == height,
    decreases n,
{
    if n > 0 {
        lemma_painted_size(images, placed, height, n - 1);
    }
}

/// Every picture can be read off the atlas, pixel by pixel, at its place.
pub proof fn law_atlas_shows_every_picture(
    images: Seq<ImageView>,
    i: int,
    x: int,
    y: int,
    c: int,
)
    requires
        packable(sizes_of(images)),
        0 <= i < images.len(),
        0 <= x < images[i].width,
        0 <= y < images[i].height,
        0 <= c < 4,
    ensures
        ({
            let placed = packed(sizes_of(images)).placed;
            let (px, py) = place_of(placed, i, placed.len() as int);
            sheet_of(images).byte(px + x, py + y, c) == images[i].byte(x, y, c)
        }),
{
    let sizes = sizes_of(images);
    let s = packed(sizes);
    crate::packing::law_sprites_do_not_overlap(sizes);
    crate::packing::law_height_is_a_power_of_two(sizes);
    assert(crate::packing::has_place(s, i));
    let k = lemma_place(s.placed, i, s.placed.len() as int);
    let p = s.placed[k];
    assert(sizes[p.0] == (images[p.0].width, images[p.0].height));
    lemma_painted(images, s.placed, height_of(images), s.placed.len() as int, k, x, y, c);
}

/// The picture placed there covers the pixel.
pub open spec fn covers(images: Seq<ImageView>, p: (int, int, int), x: int, y: int) -> bool {
    p.1 <= x < p.1 + images[p.0].width && p.2 <= y < p.2 + images[p.0].height
}

proof fn lemma_bare(
    images: Seq<ImageView>,
    placed: Seq<(int, int, int)>,
    height: u32,
    n: int,
    x: int,
    y: int,
    c: int,
)
    requires
        0 <= n <= placed.len(),
        0 <= x < ATLAS_W,
        0 <= y < height,
        0 <= c < 4,
        forall|k: int| 0 <= k < placed.len() ==> !covers(images, #[trigger] placed[k], x, y),
    ensures
        painted(images, placed, height, n).byte(x, y, c) == 0,
    decreases n,
{
    if n > 0 {
        let p = placed[n - 1];
        let before = painted(images, placed, height, n - 1);
        let src = images[p.0];
        lemma_painted_size(images, placed, height, n - 1);
        lemma_bare(images, placed, height, n - 1, x, y, c);
        crate::pixels::lemma_drawn(
            before.width,
            before.height,
            |x: int, y: int, c: int|
                if p.1 <= x < p.1 + src.width && p.2 <= y < p.2 + src.height {
                    src.byte(x - p.1, y - p.2, c)
                } else {
                    before.byte(x, y, c)
                },
            x,
            y,
            c,
        );
        assert(!covers(images, placed[n - 1], x, y));
    } else {
        crate::pixels::lemma_filled(ATLAS_W, height, 0, x, y, c);
    }
}

/// Where no picture lies the atlas is transparent.
pub proof fn law_atlas_is_bare_elsewhere(images: Seq<ImageView>, x: int, y: int, c: int)
    requires
        0 <= x < ATLAS_W,
        0 <= y < height_of(images),
        0 <= c < 4,
        forall|k: int|
            0 <= k < packed(sizes_of(images)).placed.len() ==> !covers(
                images,
                #[trigger] packed(sizes_of(images)).placed[k],
                x,
                y,
            ),
    ensures
        sheet_of(images).byte(x, y, c) == 0,
{
    let placed = packed(sizes_of(images)).placed;
    lemma_bare(images, placed, height_of(images), placed.len() as int, x, y, c);
}

proof fn lemma_place(placed: Seq<(int, int, int)>, i: int, n: int) -> (k: int)
    requires
        0 <= n <= placed.len(),
        exists|k: int| 0 <= k < n && (#[trigger] placed[k]).0 == i,
    ensures
        0 <= k < n,
        placed[k].0 == i,
        place_of(placed, i, n) == (placed[k].1, placed[k].2),
    decreases n,
{
    if placed[n - 1].0 == i {
        n - 1
    } else {
        lemma_place(placed, i, n - 1)
    }
}

} // verus!
