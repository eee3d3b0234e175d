//! Where sprites go in one image: a shelf packer.

use vstd::prelude::*;

verus! {

/// Pixels left free round every sprite, to avoid bleeding.
pub const PAD: u32 = 1;

pub const ATLAS_W: u32 = 512;

/// The greatest power of two that 32 bits can count.
pub const MAX_HEIGHT: u32 = 0x8000_0000;

/// A sprite's number in the list, and where its top left corner goes.
#[derive(Clone, Copy, PartialEq, Eq, Structural, Debug)]
pub struct Placement {
    pub sprite: usize,
    pub x: u32,
    pub y: u32,
}

/// Where everything goes, and how tall the image is.
pub struct Layout {
    pub placements: Vec<Placement>,
    pub height: u32,
}

/// Where to put a sprite of that height among those already in order: after all
/// that are at least as tall.
pub open spec fn slot_spec(order: Seq<int>, sizes: Seq<(u32, u32)>, h: u32, k: int) -> int
    decreases order.len() - k,
{
    if k < 0 || k >= order.len() {
        order.len() as int
    } else if sizes[order[k]].1 < h {
        k
    } else {
        slot_spec(order, sizes, h, k + 1)
    }
}

/// The first `n` sprites from the tallest to the shortest, those of one height in
/// the order they came.
pub open spec fn order_spec(sizes: Seq<(u32, u32)>, n: int) -> Seq<int>
    decreases n,
{
    if n <= 0 {
        Seq::empty()
    } else {
        let before = order_spec(sizes, n - 1);
        before.insert(slot_spec(before, sizes, sizes[n - 1].1, 0), n - 1)
    }
}

/// A shelf packer at work: what it has placed, and where the next sprite goes.
#[verifier::ext_equal]
pub struct Shelves {
    pub placed: Seq<(int, int, int)>,
    pub x: int,
    pub y: int,
    pub shelf: int,
}

impl Shelves {
    pub open spec fn empty() -> Shelves {
        Shelves { placed: Seq::empty(), x: PAD as int, y: PAD as int, shelf: 0 }
    }

    /// On to the next shelf, when the sprite does not fit on this one.
    pub open spec fn turned(self, w: int) -> Shelves {
        if self.x + w + PAD > ATLAS_W {
            Shelves { x: PAD as int, y: self.y + self.shelf + PAD, shelf: 0, ..self }
        } else {
            self
        }
    }

    pub open spec fn with(self, i: int, w: int, h: int) -> Shelves {
        let s = self.turned(w);
        Shelves {
            placed: s.placed.push((i, s.x, s.y)),
            x: s.x + w + PAD,
            y: s.y,
            shelf: if h > s.shelf {
                h
            } else {
                s.shelf
            },
        }
    }

    pub open spec fn height(self) -> int {
        self.y + self.shelf + PAD
    }
}

pub open spec fn shelved(sizes: Seq<(u32, u32)>, order: Seq<int>, n: int) -> Shelves
    decreases n,
{
    if n <= 0 {
        Shelves::empty()
    } else {
        let i = order[n - 1];
        shelved(sizes, order, n - 1).with(i, sizes[i].0 as int, sizes[i].1 as int)
    }
}

/// The packing of some sprites.
pub open spec fn packed(sizes: Seq<(u32, u32)>) -> Shelves {
    shelved(sizes, order_spec(sizes, sizes.len() as int), sizes.len() as int)
}

/// Every sprite is narrow enough for the atlas, and the atlas not too tall.
pub open spec fn packable(sizes: Seq<(u32, u32)>) -> bool {
    &&& forall|i: int| 0 <= i < sizes.len() ==> (#[trigger] sizes[i]).0 < ATLAS_W
    &&& packed(sizes).height() <= MAX_HEIGHT
}

/// The first power of two, from `p` on, that is enough.
pub open spec fn power_from(v: int, p: int) -> int
    decreases 2 * v - p,
{
    if p >= v || p <= 0 {
        p
    } else {
        power_from(v, 2 * p)
    }
}

fn next_power_of_two(v: u32) -> (r: u32)
    requires
        v <= MAX_HEIGHT,
    ensures
        r == power_from(v as int, 1),
        v <= r <= MAX_HEIGHT,
{
    let mut p: u64 = 1;
    proof {
        vstd::arithmetic::power2::lemma2_to64();
        assert(vstd::arithmetic::power2::pow2(0) == p);
    }
    while p < v as u64
        invariant
            1 <= p <= MAX_HEIGHT,
            v <= MAX_HEIGHT,
            power_from(v as int, p as int) == power_from(v as int, 1),
            exists|k: nat| #[trigger] vstd::arithmetic::power2::pow2(k) == p && k <= 31,
        decreases 0x1_0000_0000 - p,
    {
        proof {
            let k = choose|k: nat| #[trigger] vstd::arithmetic::power2::pow2(k) == p && k <= 31;
            vstd::arithmetic::power2::lemma2_to64();
            vstd::arithmetic::power2::lemma_pow2_unfold((k + 1) as nat);
            assert(vstd::arithmetic::power2::pow2((k + 1) as nat) == 2 * p);
            if k == 31 {
                assert(p == MAX_HEIGHT);
            }
        }
        p = 2 * p;
    }
    p as u32
}

/// The order as numbers.
pub open spec fn as_ints(v: Seq<usize>) -> Seq<int> {
    Seq::new(v.len(), |i: int| v[i] as int)
}

fn in_order(sizes: &Vec<(u32, u32)>) -> (r: Vec<usize>)
    ensures
        as_ints(r@) == order_spec(sizes@, sizes@.len() as int),
        r.len() == sizes.len(),
        forall|k: int| 0 <= k < r.len() ==> (#[trigger] r@[k]) < sizes.len(),
{
    let mut order: Vec<usize> = Vec::new();
    let mut n: usize = 0;
    assert(as_ints(order@) =~= Seq::empty());
    while n < sizes.len()
        invariant
            n <= sizes.len(),
            order.len() == n,
            as_ints(order@) == order_spec(sizes@, n as int),
            forall|k: int| 0 <= k < order.len() ==> (#[trigger] order@[k]) < n,
        decreases sizes.len() - n,
    {
        let h: u32 = sizes[n].1;
        let ghost before = as_ints(order@);
        let mut k: usize = 0;
        while k < order.len() && !(sizes[order[k]].1 < h)
            invariant
                n < sizes.len(),
                order.len() == n,
                k <= order.len(),
                before == as_ints(order@),
                forall|j: int| 0 <= j < order.len() ==> (#[trigger] order@[j]) < n,
                slot_spec(before, sizes@, h, k as int) == slot_spec(before, sizes@, h, 0),
            decreases order.len() - k,
        {
            k = k + 1;
        }
        let ghost prior = order@;
        order.insert(k, n);
        proof {
            assert(as_ints(order@) =~= before.insert(k as int, n as int));
            assert forall|j: int| 0 <= j < order.len() implies (#[trigger] order@[j]) < n + 1 by {
                if j < k {
                    assert(order@[j] == prior[j]);
                } else if j > k {
                    assert(order@[j] == prior[j - 1]);
                }
            }
        }
        n = n + 1;
    }
    order
}

pub open spec fn placed_as_ints(v: Seq<Placement>) -> Seq<(int, int, int)> {
    Seq::new(v.len(), |i: int| (v[i].sprite as int, v[i].x as int, v[i].y as int))
}

proof fn lemma_height_grows(sizes: Seq<(u32, u32)>, order: Seq<int>, n: int, m: int)
    requires
        0 <= n <= m,
    ensures
        shelved(sizes, order, n).height() <= shelved(sizes, order, m).height(),
        shelved(sizes, order, n).y >= 1,
        shelved(sizes, order, n).shelf >= 0,
    decreases m,
{
    if n < m {
        lemma_height_grows(sizes, order, n, m - 1);
        lemma_height_grows(sizes, order, m - 1, m - 1);
    } else if n > 0 {
        lemma_height_grows(sizes, order, n - 1, n - 1);
    }
}

/// Simple shelf packer; nothing when a sprite is too wide for the atlas, or the
/// atlas would grow too tall.
pub fn pack(sizes: &Vec<(u32, u32)>) -> (r: Option<Layout>)
    ensures
        r is Some == packable(sizes@),
        r matches Some(layout) ==> {
            &&& placed_as_ints(layout.placements@) == packed(sizes@).placed
            &&& layout.height == power_from(packed(sizes@).height(), 1)
            &&& packed(sizes@).height() <= layout.height <= MAX_HEIGHT
        },
{
    let mut i: usize = 0;
    while i < sizes.len()
        invariant
            i <= sizes.len(),
            forall|k: int| 0 <= k < i ==> (#[trigger] sizes@[k]).0 < ATLAS_W,
        decreases sizes.len() - i,
    {
        if sizes[i].0 >= ATLAS_W {
            assert(!(sizes@[i as int].0 < ATLAS_W));
            return None;
        }
        i = i + 1;
    }
    let order: Vec<usize> = in_order(sizes);
    let ghost o = as_ints(order@);
    let ghost total = sizes@.len() as int;
    let mut placements: Vec<Placement> = Vec::new();
    let mut x: u64 = 1;
    let mut y: u64 = 1;
    let mut shelf: u64 = 0;
    let mut n: usize = 0;
    assert(placed_as_ints(placements@) =~= Seq::empty());
    while n < order.len()
        invariant
            n <= order.len(),
            order.len() == sizes.len(),
            total == sizes@.len(),
            o == as_ints(order@),
            o == order_spec(sizes@, total),
            forall|k: int| 0 <= k < order.len() ==> (#[trigger] order@[k]) < sizes.len(),
            forall|k: int| 0 <= k < sizes.len() ==> (#[trigger] sizes@[k]).0 < ATLAS_W,
            x <= 1024,
            y + shelf + 1 <= MAX_HEIGHT,
            shelved(sizes@, o, n as int) == (Shelves {
                placed: placed_as_ints(placements@),
                x: x as int,
                y: y as int,
                shelf: shelf as int,
            }),
        decreases order.len() - n,
    {
        let at: usize = order[n];
        assert(o[n as int] == at);
        let w: u64 = sizes[at].0 as u64;
        let h: u64 = sizes[at].1 as u64;
        assert(sizes@[at as int].0 < ATLAS_W);
        if x + w + 1 > 512 {
            x = 1;
            y = y + shelf + 1;
            shelf = 0;
        }
        let taller: u64 = if h > shelf {
            h
        } else {
            shelf
        };
        let ghost before = placed_as_ints(placements@);
        proof {
            lemma_height_grows(sizes@, o, n + 1, total);
        }
        if y + taller + 1 > MAX_HEIGHT as u64 {
            return None;
        }
        placements.push(Placement { sprite: at, x: x as u32, y: y as u32 });
        assert(placed_as_ints(placements@) =~= before.push((at as int, x as int, y as int)));
        x = x + w + 1;
        shelf = taller;
        n = n + 1;
    }
    let height: u32 = next_power_of_two((y + shelf + 1) as u32);
    Some(Layout { placements, height })
}

/// Two sprites in a packing leave a free pixel between them.
pub open spec fn clear_of(
    sizes: Seq<(u32, u32)>,
    a: (int, int, int),
    b: (int, int, int),
) -> bool {
    ||| a.1 + sizes[a.0].0 + PAD <= b.1
    ||| b.1 + sizes[b.0].0 + PAD <= a.1
    ||| a.2 + sizes[a.0].1 + PAD <= b.2
    ||| b.2 + sizes[b.0].1 + PAD <= a.2
}

proof fn lemma_shelved(sizes: Seq<(u32, u32)>, order: Seq<int>, n: int)
    requires
        0 <= n <= order.len(),
        forall|k: int| 0 <= k < order.len() ==> 0 <= #[trigger] order[k] < sizes.len(),
        forall|i: int| 0 <= i < sizes.len() ==> (#[trigger] sizes[i]).0 < ATLAS_W,
    ensures
        ({
            let s = shelved(sizes, order, n);
            &&& s.placed.len() == n
            &&& s.x >= 1 && s.y >= 1 && s.shelf >= 0
            &&& forall|k: int|
                0 <= k < n ==> {
                    let p = #[trigger] s.placed[k];
                    &&& p.0 == order[k]
                    &&& p.1 >= 1 && p.2 >= 1
                    &&& p.1 + sizes[p.0].0 <= ATLAS_W
                    &&& sizes[p.0].0 + 2 * PAD <= ATLAS_W ==> p.1 + sizes[p.0].0 + PAD <= ATLAS_W
                    &&& p.2 + sizes[p.0].1 + PAD <= s.height()
                    &&& (p.2 == s.y && p.1 + sizes[p.0].0 + PAD <= s.x && sizes[p.0].1 <= s.shelf)
                        || p.2 + sizes[p.0].1 + PAD <= s.y
                }
            &&& forall|k: int, l: int|
                0 <= k < l < n ==> clear_of(sizes, #[trigger] s.placed[k], #[trigger] s.placed[l])
        }),
    decreases n,
{
    if n > 0 {
        lemma_shelved(sizes, order, n - 1);
        let before = shelved(sizes, order, n - 1);
        let i = order[n - 1];
        let w = sizes[i].0 as int;
        let h = sizes[i].1 as int;
        let mid = before.turned(w);
        let s = shelved(sizes, order, n);
        assert(s == before.with(i, w, h));
        assert forall|k: int| 0 <= k < n - 1 implies s.placed[k] == before.placed[k] by {}
        assert forall|k: int| 0 <= k < n implies {
            let p = #[trigger] s.placed[k];
            &&& p.0 == order[k]
            &&& p.1 >= 1 && p.2 >= 1
            &&& p.1 + sizes[p.0].0 <= ATLAS_W
            &&& sizes[p.0].0 + 2 * PAD <= ATLAS_W ==> p.1 + sizes[p.0].0 + PAD <= ATLAS_W
            &&& p.2 + sizes[p.0].1 + PAD <= s.height()
            &&& (p.2 == s.y && p.1 + sizes[p.0].0 + PAD <= s.x && sizes[p.0].1 <= s.shelf) || p.2
                + sizes[p.0].1 + PAD <= s.y
        } by {
            if k < n - 1 {
                let p = before.placed[k];
                assert(s.placed[k] == p);
            }
        }
        assert forall|k: int, l: int| 0 <= k < l < n implies clear_of(
            sizes,
            #[trigger] s.placed[k],
            #[trigger] s.placed[l],
        ) by {
            let a = before.placed[k];
            assert(s.placed[k] == a);
            if l < n - 1 {
                let b = before.placed[l];
                assert(s.placed[l] == b);
            }
        }
    }
}

proof fn lemma_order_in_range(sizes: Seq<(u32, u32)>, n: int)
    requires
        0 <= n <= sizes.len(),
    ensures
        order_spec(sizes, n).len() == n,
        forall|k: int| 0 <= k < n ==> 0 <= #[trigger] order_spec(sizes, n)[k] < n,
        forall|i: int| 0 <= i < n ==> #[trigger] order_spec(sizes, n).contains(i),
    decreases n,
{
    if n > 0 {
        lemma_order_in_range(sizes, n - 1);
        let before = order_spec(sizes, n - 1);
        let k = slot_spec(before, sizes, sizes[n - 1].1, 0);
        lemma_slot(before, sizes, sizes[n - 1].1, 0);
        let now = order_spec(sizes, n);
        assert(now == before.insert(k, n - 1));
        assert forall|j: int| 0 <= j < n implies 0 <= #[trigger] now[j] < n by {
            if j < k {
                assert(now[j] == before[j]);
            } else if j > k {
                assert(now[j] == before[j - 1]);
            }
        }
        assert forall|i: int| 0 <= i < n implies #[trigger] now.contains(i) by {
            if i == n - 1 {
                assert(now[k] == i);
            } else {
                assert(before.contains(i));
                let j = before.index_of(i);
                if j < k {
                    assert(now[j] == i);
                } else {
                    assert(now[j + 1] == i);
                }
            }
        }
    }
}

proof fn lemma_slot(order: Seq<int>, sizes: Seq<(u32, u32)>, h: u32, k: int)
    requires
        0 <= k <= order.len(),
    ensures
        k <= slot_spec(order, sizes, h, k) <= order.len(),
        forall|j: int|
            k <= j < slot_spec(order, sizes, h, k) ==> sizes[#[trigger] order[j]].1 >= h,
        slot_spec(order, sizes, h, k) < order.len() ==> sizes[order[slot_spec(
            order,
            sizes,
            h,
            k,
        )]].1 < h,
    decreases order.len() - k,
{
    if k < order.len() && !(sizes[order[k]].1 < h) {
        lemma_slot(order, sizes, h, k + 1);
    }
}

/// The sprite has a place.
pub open spec fn has_place(s: Shelves, i: int) -> bool {
    exists|k: int| 0 <= k < s.placed.len() && (#[trigger] s.placed[k]).0 == i
}

/// In a packing every sprite has a place, within the atlas, and a free pixel
/// between itself and any other, and between itself and the edge. (One that is as wide
/// as the atlas but for a pixel touches the edge on the right.)
pub proof fn law_sprites_do_not_overlap(sizes: Seq<(u32, u32)>)
    requires
        packable(sizes),
    ensures
        ({
            let s = packed(sizes);
            &&& s.placed.len() == sizes.len()
            &&& forall|i: int| 0 <= i < sizes.len() ==> #[trigger] has_place(s, i)
            &&& forall|k: int|
                0 <= k < s.placed.len() ==> {
                    let p = #[trigger] s.placed[k];
                    &&& 0 <= p.0 < sizes.len()
                    &&& 0 < p.1 && p.1 + sizes[p.0].0 <= ATLAS_W
                    &&& sizes[p.0].0 + 2 * PAD <= ATLAS_W ==> p.1 + sizes[p.0].0 + PAD <= ATLAS_W
                    &&& 0 < p.2 && p.2 + sizes[p.0].1 < s.height()
                }
            &&& forall|k: int, l: int|
                0 <= k < l < s.placed.len() ==> clear_of(
                    sizes,
                    #[trigger] s.placed[k],
                    #[trigger] s.placed[l],
                )
        }),
{
    let n = sizes.len() as int;
    let order = order_spec(sizes, n);
    lemma_order_in_range(sizes, n);
    lemma_shelved(sizes, order, n);
    let s = packed(sizes);
    assert forall|i: int| 0 <= i < n implies #[trigger] has_place(s, i) by {
        assert(order.contains(i));
        let k = order.index_of(i);
        assert(s.placed[k].0 == i);
    }
}

/// Sprites are placed from the tallest to the shortest.
pub proof fn law_tallest_first(sizes: Seq<(u32, u32)>, n: int, k: int, l: int)
    requires
        0 <= n <= sizes.len(),
        0 <= k < l < n,
    ensures
        sizes[order_spec(sizes, n)[k]].1 >= sizes[order_spec(sizes, n)[l]].1,
    decreases n,
{
    let before = order_spec(sizes, n - 1);
    let h = sizes[n - 1].1;
    let at = slot_spec(before, sizes, h, 0);
    let now = order_spec(sizes, n);
    lemma_order_in_range(sizes, n - 1);
    lemma_slot(before, sizes, h, 0);
    assert(now == before.insert(at, n - 1));
    let old_k = if k < at {
        k
    } else {
        k - 1
    };
    let old_l = if l < at {
        l
    } else {
        l - 1
    };
    if k != at {
        assert(now[k] == before[old_k]);
    }
    if l != at {
        assert(now[l] == before[old_l]);
    }
    if k != at && l != at {
        law_tallest_first(sizes, n - 1, old_k, old_l);
    } else if l == at {
        assert(sizes[before[k]].1 >= h);
    } else {
        // The one just put in is taller than the next, and so than all after it.
        if old_l > at {
            law_tallest_first(sizes, n - 1, at, old_l);
        }
    }
}

/// The height that is taken is a power of two, enough, and within bounds.
pub proof fn law_height_is_a_power_of_two(sizes: Seq<(u32, u32)>)
    requires
        packable(sizes),
    ensures
        packed(sizes).height() <= power_from(packed(sizes).height(), 1) <= MAX_HEIGHT,
        is_power(power_from(packed(sizes).height(), 1)),
{
    vstd::arithmetic::power2::lemma2_to64();
    lemma_power(packed(sizes).height(), 1, 0);
}

pub open spec fn is_power(p: int) -> bool {
    exists|k: nat| #[trigger] vstd::arithmetic::power2::pow2(k) == p
}

proof fn lemma_power(v: int, p: int, k: nat)
    requires
        v <= MAX_HEIGHT,
        p == vstd::arithmetic::power2::pow2(k),
        k <= 31,
    ensures
        v <= power_from(v, p) <= MAX_HEIGHT,
        is_power(power_from(v, p)),
    decreases 31 - k,
{
    vstd::arithmetic::power2::lemma2_to64();
    vstd::arithmetic::power2::lemma_pow2_pos(k);
    vstd::arithmetic::power2::lemma_pow2_unfold((k + 1) as nat);
    if k < 31 {
        if p < v {
            lemma_power(v, 2 * p, k + 1);
        } else {
            vstd::arithmetic::power2::lemma_pow2_strictly_increases(k, 31);
        }
    }
}

} // verus!
