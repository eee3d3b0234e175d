//! Pictures as rows of RGBA pixels: reading, cropping and pasting them.

use vstd::prelude::*;
use vstd::arithmetic::div_mod::{lemma_fundamental_div_mod, lemma_fundamental_div_mod_converse};

verus! {

/// Pixels in the side of a tile.
pub const TILE: u32 = 16;

/// Rows from the top, each from the left, four bytes (red, green, blue, alpha) to a
/// pixel.
pub struct Image {
    pub width: u32,
    pub height: u32,
    pub rgba: Vec<u8>,
}

#[verifier::ext_equal]
pub struct ImageView {
    pub width: u32,
    pub height: u32,
    pub rgba: Seq<u8>,
}

impl View for Image {
    type V = ImageView;

    open spec fn view(&self) -> ImageView {
        ImageView { width: self.width, height: self.height, rgba: self.rgba@ }
    }
}

/// Where byte `c` of pixel `(x, y)` is, in a picture of width `w`.
pub open spec fn at(w: int, x: int, y: int, c: int) -> int {
    4 * (y * w + x) + c
}

/// The column, row and byte of the pixel that `i` points into.
pub open spec fn col(w: int, i: int) -> int {
    (i / 4) % w
}

pub open spec fn row(w: int, i: int) -> int {
    (i / 4) / w
}

pub open spec fn chan(i: int) -> int {
    i % 4
}

/// A picture given by what each byte of each pixel is.
pub open spec fn drawn(w: u32, h: u32, f: spec_fn(int, int, int) -> u8) -> ImageView {
    ImageView {
        width: w,
        height: h,
        rgba: Seq::new(
            (4 * (w * h)) as nat,
            |i: int| f(col(w as int, i), row(w as int, i), chan(i)),
        ),
    }
}

impl ImageView {
    pub open spec fn wf(self) -> bool {
        self.rgba.len() == 4 * (self.width * self.height)
    }

    pub open spec fn byte(self, x: int, y: int, c: int) -> u8 {
        self.rgba[at(self.width as int, x, y, c)]
    }

    /// The part of `w` by `h` pixels whose top left corner is at `(x0, y0)`.
    pub open spec fn cropped(self, x0: int, y0: int, w: u32, h: u32) -> ImageView {
        drawn(w, h, |x: int, y: int, c: int| self.byte(x0 + x, y0 + y, c))
    }

    /// This picture with another laid over it, top left corner at `(x0, y0)`.
    pub open spec fn pasted(self, src: ImageView, x0: int, y0: int) -> ImageView {
        drawn(
            self.width,
            self.height,
            |x: int, y: int, c: int|
                if x0 <= x < x0 + src.width && y0 <= y < y0 + src.height {
                    src.byte(x - x0, y - y0, c)
                } else {
                    self.byte(x, y, c)
                },
        )
    }

    /// A sprite on a transparent tile: centred, and bottom-aligned so objects "sit"
    /// on it. One larger than a tile leaves it empty.
    pub open spec fn padded(self) -> ImageView {
        if self.width <= TILE && self.height <= TILE {
            filled(TILE, TILE, 0).pasted(
                self,
                (TILE - self.width) / 2,
                TILE - self.height,
            )
        } else {
            filled(TILE, TILE, 0)
        }
    }
}

/// A picture all of whose bytes are `v`.
pub open spec fn filled(w: u32, h: u32, v: u8) -> ImageView {
    ImageView { width: w, height: h, rgba: Seq::new((4 * (w * h)) as nat, |i: int| v) }
}

proof fn lemma_at(w: int, h: int, x: int, y: int, c: int)
    requires
        0 <= x < w,
        0 <= y < h,
        0 <= c < 4,
    ensures
        0 <= y * w + x < w * h,
        0 <= at(w, x, y, c) < 4 * (w * h),
        col(w, at(w, x, y, c)) == x,
        row(w, at(w, x, y, c)) == y,
        chan(at(w, x, y, c)) == c,
{
    assert(0 <= y * w + x < w * h) by (nonlinear_arith)
        requires
            0 <= x < w,
            0 <= y < h,
    ;
    let i = at(w, x, y, c);
    assert(i / 4 == y * w + x && i % 4 == c);
    lemma_fundamental_div_mod_converse(y * w + x, w, y, x);
}

proof fn lemma_coords(w: int, h: int, i: int)
    requires
        0 <= w,
        0 <= h,
        0 <= i < 4 * (w * h),
    ensures
        0 <= col(w, i) < w,
        0 <= row(w, i) < h,
        0 <= chan(i) < 4,
        at(w, col(w, i), row(w, i), chan(i)) == i,
{
    assert(w > 0) by (nonlinear_arith)
        requires
            0 <= w,
            0 <= h,
            0 < w * h,
    ;
    let p = i / 4;
    lemma_fundamental_div_mod(p, w);
    let r = row(w, i);
    let c = col(w, i);
    assert(w * r == r * w) by (nonlinear_arith);
    assert(0 <= c < w);
    assert(0 <= r < h) by (nonlinear_arith)
        requires
            p == w * r + c,
            0 <= c < w,
            0 <= p < w * h,
    ;
}

/// What each byte of a drawn picture is.
pub proof fn lemma_drawn(w: u32, h: u32, f: spec_fn(int, int, int) -> u8, x: int, y: int, c: int)
    requires
        0 <= x < w,
        0 <= y < h,
        0 <= c < 4,
    ensures
        drawn(w, h, f).byte(x, y, c) == f(x, y, c),
{
    lemma_at(w as int, h as int, x, y, c);
}

pub proof fn lemma_filled(w: u32, h: u32, v: u8, x: int, y: int, c: int)
    requires
        0 <= x < w,
        0 <= y < h,
        0 <= c < 4,
    ensures
        filled(w, h, v).byte(x, y, c) == v,
{
    lemma_at(w as int, h as int, x, y, c);
}

/// The result of reading an image file: its width, its height, and its pixels, if it
/// can be read.
pub uninterp spec fn decoded(bytes: Seq<u8>) -> Option<(u32, u32, Seq<u8>)>;

/// `image::load_from_memory` and `DynamicImage::to_rgba8`: nothing but the bytes of
/// the file decides whether it can be read, and what its width, height and pixels
/// are. (The crate lets a program register decoders of its own; this one registers
/// none.) What a given file holds is left unsaid.
#[verifier::external_body]
fn decode(bytes: &[u8]) -> (r: Option<(u32, u32, Vec<u8>)>)
    ensures
        match r {
            Some(p) => decoded(bytes@) == Some((p.0, p.1, p.2@)),
            None => decoded(bytes@) is None,
        },
{
    match image::load_from_memory(bytes) {
        Ok(picture) => {
            let rgba = picture.to_rgba8();
            Some((rgba.width(), rgba.height(), rgba.into_raw()))
        },
        Err(_) => None,
    }
}

/// A picture from what was read: nothing when the pixels are not as many as the
/// width and the height say.
pub open spec fn assembled(read: Option<(u32, u32, Seq<u8>)>) -> Option<ImageView> {
    match read {
        Some(p) => if p.2.len() == 4 * (p.0 * p.1) {
            Some(ImageView { width: p.0, height: p.1, rgba: p.2 })
        } else {
            None
        },
        None => None,
    }
}

pub open spec fn seen(image: Option<Image>) -> Option<ImageView> {
    match image {
        Some(i) => Some(i@),
        None => None,
    }
}

pub fn assemble(read: Option<(u32, u32, Vec<u8>)>) -> (r: Option<Image>)
    ensures
        seen(r) == assembled(
            match read {
                Some(p) => Some((p.0, p.1, p.2@)),
                None => None,
            },
        ),
        r matches Some(i) ==> i@.wf(),
{
    let p: (u32, u32, Vec<u8>) = match read {
        Some(p) => p,
        None => {
            return None;
        },
    };
    let (width, height, rgba) = p;
    proof {
        assert(0 <= width * height <= 0xffff_ffff * 0xffff_ffff) by (nonlinear_arith)
            requires
                0 <= width <= 0xffff_ffff,
                0 <= height <= 0xffff_ffff,
        ;
    }
    if rgba.len() as u128 == 4 * (width as u128 * height as u128) {
        Some(Image { width, height, rgba })
    } else {
        None
    }
}

/// Read an image file.
pub fn load(bytes: &[u8]) -> (r: Option<Image>)
    ensures
        seen(r) == assembled(decoded(bytes@)),
        r matches Some(i) ==> i@.wf(),
{
    assemble(decode(bytes))
}

/// A picture of one colour: `v` for each byte.
pub fn fill(w: u32, h: u32, v: u8) -> (r: Image)
    requires
        4 * (w * h) <= usize::MAX,
    ensures
        r@ == filled(w, h, v),
        r@.wf(),
{
    let ghost n = 4 * (w * h);
    proof {
        assert(0 <= w * h) by (nonlinear_arith)
            requires
                0 <= w,
                0 <= h,
        ;
    }
    let len: usize = 4 * (w as usize * h as usize);
    let mut rgba: Vec<u8> = Vec::new();
    while rgba.len() < len
        invariant
            rgba.len() <= len,
            rgba@ =~= Seq::new(rgba.len() as nat, |i: int| v),
        decreases len - rgba.len(),
    {
        rgba.push(v);
    }
    Image { width: w, height: h, rgba }
}

/// A single white pixel.
pub fn white_pixel() -> (r: Image)
    ensures
        r@ == filled(1, 1, 255),
        r@.wf(),
{
    fill(1, 1, 255)
}

/// The part of `w` by `h` pixels at `(x0, y0)`, where the picture is large enough.
pub fn crop(src: &Image, x0: u32, y0: u32, w: u32, h: u32) -> (r: Option<Image>)
    requires
        src@.wf(),
    ensures
        seen(r) == if x0 + w <= src.width && y0 + h <= src.height {
            Some(src@.cropped(x0 as int, y0 as int, w, h))
        } else {
            None
        },
        r matches Some(i) ==> i@.wf(),
{
    if x0 as u64 + w as u64 > src.width as u64 || y0 as u64 + h as u64 > src.height as u64 {
        return None;
    }
    let ghost want = src@.cropped(x0 as int, y0 as int, w, h);
    let have: usize = src.rgba.len();
    proof {
        assert(4 * (w * h) <= 4 * (src.width * src.height)) by (nonlinear_arith)
            requires
                0 <= w <= src.width,
                0 <= h <= src.height,
        ;
        assert(0 <= w * h) by (nonlinear_arith)
            requires
                0 <= w,
                0 <= h,
        ;
    }
    let len: usize = 4 * (w as usize * h as usize);
    let mut rgba: Vec<u8> = Vec::new();
    while rgba.len() < len
        invariant
            rgba.len() <= len,
            len == 4 * (w * h),
            src@.wf(),
            have == src.rgba.len(),
            x0 + w <= src.width,
            y0 + h <= src.height,
            want == src@.cropped(x0 as int, y0 as int, w, h),
            rgba@ =~= want.rgba.take(rgba.len() as int),
        decreases len - rgba.len(),
    {
        let i: usize = rgba.len();
        proof {
            lemma_coords(w as int, h as int, i as int);
        }
        let x: usize = (i / 4) % (w as usize);
        let y: usize = (i / 4) / (w as usize);
        proof {
            lemma_at(
                src.width as int,
                src.height as int,
                x0 + x,
                y0 + y,
                chan(i as int),
            );
            assert((y0 + y) * src.width >= 0) by (nonlinear_arith)
                requires
                    y0 >= 0,
                    y >= 0,
                    src.width >= 0,
            ;
        }
        let from: usize = 4 * ((y0 as usize + y) * src.width as usize + (x0 as usize + x)) + i % 4;
        rgba.push(src.rgba[from]);
        assert(want.rgba.take(i + 1) =~= want.rgba.take(i as int).push(want.rgba[i as int]));
    }
    assert(want.rgba.take(len as int) =~= want.rgba);
    Some(Image { width: w, height: h, rgba })
}

/// The picture after the first `k` bytes of another were laid over it.
spec fn pasting(dst: ImageView, src: ImageView, x0: int, y0: int, k: int, i: int) -> u8 {
    let w = dst.width as int;
    let x = col(w, i) - x0;
    let y = row(w, i) - y0;
    if 0 <= x < src.width && 0 <= y < src.height && at(src.width as int, x, y, chan(i)) < k {
        src.rgba[at(src.width as int, x, y, chan(i))]
    } else {
        dst.rgba[i]
    }
}

/// Lay a picture over another, within it.
pub fn paste(dst: &mut Image, src: &Image, x0: u32, y0: u32)
    requires
        old(dst)@.wf(),
        src@.wf(),
        x0 + src.width <= old(dst).width,
        y0 + src.height <= old(dst).height,
    ensures
        final(dst)@ == old(dst)@.pasted(src@, x0 as int, y0 as int),
        final(dst)@.wf(),
{
    let ghost before = dst@;
    let ghost w = dst.width as int;
    let ghost h = dst.height as int;
    let ghost sw = src.width as int;
    let ghost sh = src.height as int;
    let have: usize = dst.rgba.len();
    let mut k: usize = 0;
    while k < src.rgba.len()
        invariant
            k <= src.rgba.len(),
            src@.wf(),
            before.wf(),
            w == before.width,
            h == before.height,
            sw == src.width,
            sh == src.height,
            x0 + sw <= w,
            y0 + sh <= h,
            dst.width == before.width,
            dst.height == before.height,
            dst.rgba.len() == have,
            have == before.rgba.len(),
            forall|i: int|
                0 <= i < have ==> #[trigger] dst.rgba@[i] == pasting(
                    before,
                    src@,
                    x0 as int,
                    y0 as int,
                    k as int,
                    i,
                ),
        decreases src.rgba.len() - k,
    {
        proof {
            lemma_coords(sw, sh, k as int);
        }
        let x: usize = (k / 4) % (src.width as usize);
        let y: usize = (k / 4) / (src.width as usize);
        let ghost c = chan(k as int);
        let ghost t = at(w, x0 + x, y0 + y, c);
        proof {
            lemma_at(w, h, x0 + x, y0 + y, c);
            assert((y0 + y) * w >= 0) by (nonlinear_arith)
                requires
                    y0 >= 0,
                    y >= 0,
                    w >= 0,
            ;
        }
        let to: usize = 4 * ((y0 as usize + y) * dst.width as usize + (x0 as usize + x)) + k % 4;
        assert(to == t);
        let ghost prior = dst.rgba@;
        dst.rgba.set(to, src.rgba[k]);
        proof {
            assert forall|i: int| 0 <= i < have implies #[trigger] dst.rgba@[i] == pasting(
                before,
                src@,
                x0 as int,
                y0 as int,
                k + 1,
                i,
            ) by {
                assert(i != t ==> dst.rgba@[i] == prior[i]);
                lemma_coords(w, h, i);
                let u = col(w, i) - x0;
                let v = row(w, i) - y0;
                if 0 <= u < sw && 0 <= v < sh {
                    lemma_at(sw, sh, u, v, chan(i));
                }
            }
        }
        k = k + 1;
    }
    proof {
        let want = before.pasted(src@, x0 as int, y0 as int);
        assert forall|i: int| 0 <= i < have implies #[trigger] dst.rgba@[i] == want.rgba[i] by {
            lemma_coords(w, h, i);
            let u = col(w, i) - x0;
            let v = row(w, i) - y0;
            if 0 <= u < sw && 0 <= v < sh {
                lemma_at(sw, sh, u, v, chan(i));
            }
        }
        assert(dst.rgba@ =~= want.rgba);
    }
}

/// Center a smaller sprite (e.g. the 14x14 tree) onto a transparent tile footprint.
pub fn pad_to_tile(src: &Image) -> (r: Image)
    requires
        src@.wf(),
    ensures
        r@ == src@.padded(),
        r@.wf(),
{
    let mut out: Image = fill(TILE, TILE, 0);
    if src.width <= TILE && src.height <= TILE {
        let ox: u32 = (TILE - src.width) / 2;
        let oy: u32 = TILE - src.height;
        paste(&mut out, src, ox, oy);
    }
    out
}

} // verus!
