//! The integer side of the glyph atlas: shelf packing of glyph bitmaps, the
//! atlas's pixels, and the triangle indices of the glyph quads.
use vstd::prelude::*;

use crate::glyph::RasterizedGlyph;

verus! {

/// Where a bitmap was placed in the atlas: its top-left pixel.
#[derive(Debug, Clone, Copy, PartialEq, Eq, Structural)]
pub struct PackedRect {
    pub x: u32,
    pub y: u32,
}

/// A shelf packer: bitmaps go left to right on the current shelf; one that
/// does not fit in the remaining width starts a new shelf below the tallest
/// bitmap of the current one.
pub struct ShelfPacker {
    atlas_width: u32,
    cursor_x: u32,
    cursor_y: u32,
    row_height: u32,
}

/// What a shelf packer is.
pub struct PackerState {
    pub atlas_width: int,
    pub cursor_x: int,
    pub cursor_y: int,
    pub row_height: int,
}

impl View for ShelfPacker {
    type V = PackerState;

    closed spec fn view(&self) -> PackerState {
        PackerState {
            atlas_width: self.atlas_width as int,
            cursor_x: self.cursor_x as int,
            cursor_y: self.cursor_y as int,
            row_height: self.row_height as int,
        }
    }
}

/// A fresh packer for an atlas `atlas_width` pixels wide.
pub open spec fn fresh_packer(atlas_width: int) -> PackerState {
    PackerState { atlas_width, cursor_x: 0, cursor_y: 0, row_height: 0 }
}

/// A bitmap `w` wide does not fit on the current shelf.
pub open spec fn wraps(p: PackerState, w: int) -> bool {
    p.cursor_x + w > p.atlas_width
}

/// Where the next bitmap, `w` wide, goes.
pub open spec fn placed_at(p: PackerState, w: int) -> (int, int) {
    if wraps(p, w) {
        (0, p.cursor_y + p.row_height)
    } else {
        (p.cursor_x, p.cursor_y)
    }
}

pub open spec fn max(a: int, b: int) -> int {
    if a >= b {
        a
    } else {
        b
    }
}

/// The packer after placing a `w` by `h` bitmap.
pub open spec fn after_place(p: PackerState, w: int, h: int) -> PackerState {
    let (x, y) = placed_at(p, w);
    PackerState {
        atlas_width: p.atlas_width,
        cursor_x: x + w,
        cursor_y: y,
        row_height: max(if wraps(p, w) { 0 } else { p.row_height }, h),
    }
}

/// Placing a bitmap `w` wide keeps the packer's counters within `u32`.
pub open spec fn place_fits(p: PackerState, w: int) -> bool {
    &&& p.cursor_x + w <= u32::MAX
    &&& wraps(p, w) ==> p.cursor_y + p.row_height <= u32::MAX
}

/// The packer after placing `sizes` (width, height) in order.
pub open spec fn pack_state(p: PackerState, sizes: Seq<(u32, u32)>) -> PackerState
    decreases sizes.len(),
{
    if sizes.len() == 0 {
        p
    } else {
        after_place(pack_state(p, sizes.drop_last()), sizes.last().0 as int, sizes.last().1 as int)
    }
}

/// Where each of `sizes` is placed, in order.
pub open spec fn pack_places(p: PackerState, sizes: Seq<(u32, u32)>) -> Seq<(int, int)>
    decreases sizes.len(),
{
    if sizes.len() == 0 {
        seq![]
    } else {
        pack_places(p, sizes.drop_last()).push(
            placed_at(pack_state(p, sizes.drop_last()), sizes.last().0 as int),
        )
    }
}

/// Every placement of `sizes` keeps the counters within `u32`.
pub open spec fn pack_fits(p: PackerState, sizes: Seq<(u32, u32)>) -> bool
    decreases sizes.len(),
{
    if sizes.len() == 0 {
        true
    } else {
        pack_fits(p, sizes.drop_last()) && place_fits(
            pack_state(p, sizes.drop_last()),
            sizes.last().0 as int,
        )
    }
}

/// The height of the atlas rows that are used.
pub open spec fn used_height(p: PackerState) -> int {
    p.cursor_y + p.row_height
}

/// Two placed bitmaps share no pixel.
pub open spec fn disjoint(a: (int, int), sa: (u32, u32), b: (int, int), sb: (u32, u32)) -> bool {
    ||| a.0 + sa.0 <= b.0
    ||| b.0 + sb.0 <= a.0
    ||| a.1 + sa.1 <= b.1
    ||| b.1 + sb.1 <= a.1
}

impl ShelfPacker {
    pub fn new(atlas_width: u32) -> (p: Self)
        ensures
            p@ == fresh_packer(atlas_width as int),
    {
        Self { atlas_width, cursor_x: 0, cursor_y: 0, row_height: 0 }
    }

    /// Places a `width` by `height` bitmap.
    pub fn place(&mut self, width: u32, height: u32) -> (r: PackedRect)
        requires
            place_fits(old(self)@, width as int),
        ensures
            final(self)@ == after_place(old(self)@, width as int, height as int),
            (r.x as int, r.y as int) == placed_at(old(self)@, width as int),
    {
        if self.cursor_x + width > self.atlas_width {
            self.cursor_x = 0;
            self.cursor_y = self.cursor_y + self.row_height;
            self.row_height = 0;
        }
        let rect = PackedRect { x: self.cursor_x, y: self.cursor_y };
        self.cursor_x = self.cursor_x + width;
        self.row_height = if self.row_height >= height {
            self.row_height
        } else {
            height
        };
        rect
    }

    /// The height of the rows used so far.
    pub fn used_height(&self) -> (h: u32)
        requires
            used_height(self@) <= u32::MAX,
        ensures
            h == used_height(self@),
    {
        self.cursor_y + self.row_height
    }
}

proof fn lemma_pack(p: PackerState, sizes: Seq<(u32, u32)>)
    requires
        p.cursor_x >= 0,
        p.cursor_y >= 0,
        p.row_height >= 0,
        p.atlas_width >= 0,
    ensures
        pack_places(p, sizes).len() == sizes.len(),
        pack_state(p, sizes).atlas_width == p.atlas_width,
        pack_state(p, sizes).cursor_x >= 0,
        pack_state(p, sizes).cursor_y >= p.cursor_y,
        pack_state(p, sizes).row_height >= 0,
        used_height(pack_state(p, sizes)) >= used_height(p),
        forall|k: int|
            0 <= k < sizes.len() ==> {
                let (x, y) = #[trigger] pack_places(p, sizes)[k];
                let (w, h) = sizes[k];
                let st = pack_state(p, sizes);
                &&& x >= 0
                &&& y >= p.cursor_y
                &&& (y + h <= st.cursor_y || (y == st.cursor_y && h <= st.row_height && x + w
                    <= st.cursor_x))
                &&& (w <= p.atlas_width ==> x + w <= p.atlas_width)
                &&& (x == 0 || y == p.cursor_y || x + w <= p.atlas_width)
            },
        forall|i: int, j: int|
            0 <= i < j < sizes.len() ==> disjoint(
                #[trigger] pack_places(p, sizes)[i],
                sizes[i],
                #[trigger] pack_places(p, sizes)[j],
                sizes[j],
            ),
    decreases sizes.len(),
{
    if sizes.len() > 0 {
        let prev = sizes.drop_last();
        lemma_pack(p, prev);
        let st = pack_state(p, prev);
        let places = pack_places(p, sizes);
        assert(places.drop_last() =~= pack_places(p, prev));
        let (w, h) = sizes.last();
        assert forall|k: int| 0 <= k < prev.len() implies #[trigger] sizes[k] == prev[k] by {}
        assert forall|k: int|
            0 <= k < sizes.len() implies {
                let (x, y) = #[trigger] pack_places(p, sizes)[k];
                let (w, h) = sizes[k];
                let st = pack_state(p, sizes);
                &&& x >= 0
                &&& y >= p.cursor_y
                &&& (y + h <= st.cursor_y || (y == st.cursor_y && h <= st.row_height && x + w
                    <= st.cursor_x))
                &&& (w <= p.atlas_width ==> x + w <= p.atlas_width)
                &&& (x == 0 || y == p.cursor_y || x + w <= p.atlas_width)
            } by {
            if k < prev.len() {
                assert(places[k] == pack_places(p, prev)[k]);
                assert(sizes[k] == prev[k]);
            }
        }
        assert forall|i: int, j: int| 0 <= i < j < sizes.len() implies disjoint(
            #[trigger] pack_places(p, sizes)[i],
            sizes[i],
            #[trigger] pack_places(p, sizes)[j],
            sizes[j],
        ) by {
            assert(places[i] == pack_places(p, prev)[i]);
            assert(sizes[i] == prev[i]);
            if j < prev.len() {
                assert(places[j] == pack_places(p, prev)[j]);
                assert(sizes[j] == prev[j]);
            }
        }
    }
}

proof fn lemma_pack_rows(p: PackerState, sizes: Seq<(u32, u32)>)
    requires
        p.cursor_x >= 0,
        p.cursor_y >= 0,
        p.row_height == 0,
        p.atlas_width >= 0,
    ensures
        forall|k: int|
            0 <= k < sizes.len() ==> (#[trigger] pack_places(p, sizes)[k]).1 <= pack_state(
                p,
                sizes,
            ).cursor_y,
        forall|i: int, j: int|
            0 <= i < j < sizes.len() ==> (#[trigger] pack_places(p, sizes)[i]).1 <= (
            #[trigger] pack_places(p, sizes)[j]).1,
        sizes.len() > 0 ==> exists|k: int|
            0 <= k < sizes.len() && (#[trigger] pack_places(p, sizes)[k]).1 + sizes[k].1
                == used_height(pack_state(p, sizes)),
        sizes.len() == 0 ==> used_height(pack_state(p, sizes)) == p.cursor_y,
    decreases sizes.len(),
{
    lemma_pack(p, sizes);
    if sizes.len() > 0 {
        let prev = sizes.drop_last();
        lemma_pack(p, prev);
        lemma_pack_rows(p, prev);
        let st = pack_state(p, prev);
        let places = pack_places(p, sizes);
        let n = prev.len() as int;
        assert(places.drop_last() =~= pack_places(p, prev));
        assert forall|k: int| 0 <= k < prev.len() implies #[trigger] sizes[k] == prev[k] by {}
        assert forall|k: int| 0 <= k < sizes.len() implies (#[trigger] pack_places(
            p,
            sizes,
        )[k]).1 <= pack_state(p, sizes).cursor_y by {
            let (w, h) = sizes[k];
            assert(h >= 0);
        }
        assert forall|i: int, j: int| 0 <= i < j < sizes.len() implies (
        #[trigger] pack_places(p, sizes)[i]).1 <= (#[trigger] pack_places(p, sizes)[j]).1 by {
            assert(places[i] == pack_places(p, prev)[i]);
            if j < n {
                assert(places[j] == pack_places(p, prev)[j]);
            }
        }
        let (w, h) = sizes.last();
        let y = places[n].1;
        if y + h == used_height(pack_state(p, sizes)) {
            assert(places[n].1 + sizes[n].1 == used_height(pack_state(p, sizes)));
        } else {
            assert(!wraps(st, w as int));
            assert(used_height(pack_state(p, sizes)) == used_height(st));
            if n == 0 {
                assert(false);
            } else {
                let k = choose|k: int|
                    0 <= k < prev.len() && (#[trigger] pack_places(p, prev)[k]).1 + prev[k].1
                        == used_height(st);
                assert(places[k] == pack_places(p, prev)[k]);
                assert(places[k].1 + sizes[k].1 == used_height(pack_state(p, sizes)));
            }
        }
    }
}

/// A bitmap that fits in the width left on the current shelf goes there, at
/// the shelf's cursor, and the cursor moves past it; only one that does not
/// fit starts a new shelf, at the left edge right below the current one.
/// Placing keeps the counters within `u32` exactly when the cursor's end
/// fits, and, for a new shelf, the used height fits.
pub proof fn law_place_fills_shelf_first(p: PackerState, w: int, h: int)
    requires
        h >= 0,
        p.row_height >= 0,
    ensures
        p.cursor_x + w <= p.atlas_width ==> {
            &&& placed_at(p, w) == (p.cursor_x, p.cursor_y)
            &&& after_place(p, w, h).cursor_x == p.cursor_x + w
            &&& after_place(p, w, h).cursor_y == p.cursor_y
            &&& after_place(p, w, h).row_height == (if h > p.row_height { h } else { p.row_height })
        },
        p.cursor_x + w > p.atlas_width ==> {
            &&& placed_at(p, w) == (0int, p.cursor_y + p.row_height)
            &&& after_place(p, w, h).cursor_x == w
            &&& after_place(p, w, h).cursor_y == p.cursor_y + p.row_height
            &&& after_place(p, w, h).row_height == h
        },
        after_place(p, w, h).atlas_width == p.atlas_width,
        place_fits(p, w) <==> (p.cursor_x + w <= u32::MAX && (p.cursor_x + w > p.atlas_width
            ==> p.cursor_y + p.row_height <= u32::MAX)),
{
}

/// Placing a bitmap never lowers the used height.
pub proof fn law_used_height_grows(p: PackerState, w: int, h: int)
    requires
        p.row_height >= 0,
        h >= 0,
    ensures
        used_height(after_place(p, w, h)) >= used_height(p),
{
}

/// Later bitmaps never sit on a higher shelf than earlier ones, and the
/// used height is the least height holding all of them: 0 with none, else
/// the bottom of the lowest one.
pub proof fn law_packing_rows(atlas_width: u32, sizes: Seq<(u32, u32)>)
    ensures
        forall|i: int, j: int|
            0 <= i < j < sizes.len() ==> (#[trigger] pack_places(
                fresh_packer(atlas_width as int),
                sizes,
            )[i]).1 <= (#[trigger] pack_places(fresh_packer(atlas_width as int), sizes)[j]).1,
        sizes.len() == 0 ==> used_height(pack_state(fresh_packer(atlas_width as int), sizes)) == 0,
        sizes.len() > 0 ==> exists|k: int|
            0 <= k < sizes.len() && (#[trigger] pack_places(
                fresh_packer(atlas_width as int),
                sizes,
            )[k]).1 + sizes[k].1 == used_height(pack_state(fresh_packer(atlas_width as int), sizes)),
{
    lemma_pack_rows(fresh_packer(atlas_width as int), sizes);
}

/// Shelf packing never overlaps two bitmaps; a bitmap no wider than the
/// atlas lies within its width; every bitmap lies within the used height.
pub proof fn law_packing_disjoint(atlas_width: u32, sizes: Seq<(u32, u32)>)
    ensures
        pack_places(fresh_packer(atlas_width as int), sizes).len() == sizes.len(),
        forall|i: int, j: int|
            0 <= i < j < sizes.len() ==> disjoint(
                #[trigger] pack_places(fresh_packer(atlas_width as int), sizes)[i],
                sizes[i],
                #[trigger] pack_places(fresh_packer(atlas_width as int), sizes)[j],
                sizes[j],
            ),
        forall|k: int|
            0 <= k < sizes.len() ==> {
                let (x, y) = #[trigger] pack_places(fresh_packer(atlas_width as int), sizes)[k];
                let (w, h) = sizes[k];
                &&& x >= 0 && y >= 0
                &&& (w <= atlas_width ==> x + w <= atlas_width)
                &&& y + h <= used_height(pack_state(fresh_packer(atlas_width as int), sizes))
            },
{
    let p = fresh_packer(atlas_width as int);
    lemma_pack(p, sizes);
    assert forall|k: int| 0 <= k < sizes.len() implies {
        let (x, y) = #[trigger] pack_places(p, sizes)[k];
        let (w, h) = sizes[k];
        &&& x >= 0 && y >= 0
        &&& (w <= atlas_width ==> x + w <= atlas_width)
        &&& y + h <= used_height(pack_state(p, sizes))
    } by {
        let (x, y) = pack_places(p, sizes)[k];
    }
}

/// Packs bitmaps of the given (width, height) sizes, in order, into an atlas
/// `atlas_width` wide; returns their places and the atlas height: the used
/// height, but at least 1. Returns `None` when a packer counter or the used
/// height would overflow `u32`.
pub fn pack_glyphs(atlas_width: u32, sizes: &Vec<(u32, u32)>) -> (r: Option<(Vec<PackedRect>, u32)>)
    ensures
        r is Some <==> (pack_fits(fresh_packer(atlas_width as int), sizes@) && used_height(
            pack_state(fresh_packer(atlas_width as int), sizes@),
        ) <= u32::MAX),
        r matches Some(r) ==> {
            &&& r.0@.len() == sizes@.len()
            &&& forall|k: int|
                0 <= k < sizes@.len() ==> (#[trigger] r.0@[k].x as int, r.0@[k].y as int)
                    == pack_places(fresh_packer(atlas_width as int), sizes@)[k]
            &&& r.1 == max(used_height(pack_state(fresh_packer(atlas_width as int), sizes@)), 1)
        },
{
    let ghost p0 = fresh_packer(atlas_width as int);
    let mut packer = ShelfPacker::new(atlas_width);
    let mut placements: Vec<PackedRect> = Vec::with_capacity(sizes.len());
    let mut i: usize = 0;
    while i < sizes.len()
        invariant
            i <= sizes@.len(),
            packer@ == pack_state(p0, sizes@.take(i as int)),
            placements@.len() == i,
            forall|k: int|
                0 <= k < i ==> (#[trigger] placements@[k].x as int, placements@[k].y as int)
                    == pack_places(p0, sizes@.take(i as int))[k],
            pack_fits(p0, sizes@.take(i as int)),
            p0 == fresh_packer(atlas_width as int),
        decreases sizes@.len() - i,
    {
        let (w, h) = sizes[i];
        let ghost t = sizes@.take(i + 1);
        proof {
            assert(t.drop_last() =~= sizes@.take(i as int));
            assert(t.last() == sizes@[i as int]);
        }
        let fits = match packer.cursor_x.checked_add(w) {
            None => false,
            Some(end) => end <= packer.atlas_width || packer.cursor_y.checked_add(
                packer.row_height,
            ).is_some(),
        };
        if !fits {
            proof {
                assert(!pack_fits(p0, t));
                if pack_fits(p0, sizes@) {
                    lemma_pack_fits_prefix(p0, sizes@, (i + 1) as nat);
                }
            }
            return None;
        }
        let rect = packer.place(w, h);
        placements.push(rect);
        proof {
            lemma_pack(p0, sizes@.take(i as int));
            assert forall|k: int| 0 <= k < i + 1 implies (
            #[trigger] placements@[k].x as int, placements@[k].y as int)
                == pack_places(p0, t)[k] by {
                if k < i {
                    assert(pack_places(p0, t)[k] == pack_places(p0, sizes@.take(i as int))[k]);
                }
            }
        }
        i = i + 1;
    }
    assert(sizes@.take(i as int) =~= sizes@);
    if packer.cursor_y.checked_add(packer.row_height).is_none() {
        return None;
    }
    let used = packer.used_height();
    let atlas_height = if used >= 1 {
        used
    } else {
        1
    };
    Some((placements, atlas_height))
}

proof fn lemma_pack_fits_prefix(p: PackerState, sizes: Seq<(u32, u32)>, n: nat)
    requires
        pack_fits(p, sizes),
        n <= sizes.len(),
    ensures
        pack_fits(p, sizes.take(n as int)),
    decreases sizes.len(),
{
    if n < sizes.len() {
        assert(sizes.drop_last().take(n as int) =~= sizes.take(n as int));
        lemma_pack_fits_prefix(p, sizes.drop_last(), n);
    } else {
        assert(sizes.take(n as int) =~= sizes);
    }
}

/// `src` written over `dst` from index `at` on.
pub open spec fn copy_into(dst: Seq<u8>, at: int, src: Seq<u8>) -> Seq<u8> {
    dst.take(at) + src + dst.skip(at + src.len())
}

/// The atlas byte index at which row `r` of a bitmap placed at `rect` starts.
pub open spec fn row_dst(atlas_width: int, rect: PackedRect, r: int) -> int {
    ((rect.y + r) * atlas_width + rect.x) * 4
}

/// The RGBA bytes of row `r` of `g`.
pub open spec fn row_src(g: RasterizedGlyph, r: int) -> Seq<u8> {
    g.pixels@.subrange(r * g.width * 4, r * g.width * 4 + g.width * 4)
}

/// `dst` with the first `n` rows of `g` copied in at `rect`.
pub open spec fn blit_rows(
    dst: Seq<u8>,
    atlas_width: int,
    g: RasterizedGlyph,
    rect: PackedRect,
    n: nat,
) -> Seq<u8>
    decreases n,
{
    if n == 0 {
        dst
    } else {
        copy_into(
            blit_rows(dst, atlas_width, g, rect, (n - 1) as nat),
            row_dst(atlas_width, rect, n - 1),
            row_src(g, n - 1),
        )
    }
}

/// `dst` with the first `n` glyphs copied in at their places, in order.
pub open spec fn blit_glyphs(
    dst: Seq<u8>,
    atlas_width: int,
    glyphs: Seq<RasterizedGlyph>,
    rects: Seq<PackedRect>,
    n: nat,
) -> Seq<u8>
    decreases n,
{
    if n == 0 {
        dst
    } else {
        let i = n - 1;
        blit_rows(
            blit_glyphs(dst, atlas_width, glyphs, rects, (n - 1) as nat),
            atlas_width,
            glyphs[i],
            rects[i],
            glyphs[i].height as nat,
        )
    }
}

/// The atlas: `atlas_width` by `atlas_height` RGBA pixels, zero but where
/// the glyphs are copied in at their places.
pub open spec fn atlas_pixels(
    atlas_width: int,
    atlas_height: int,
    glyphs: Seq<RasterizedGlyph>,
    rects: Seq<PackedRect>,
) -> Seq<u8> {
    blit_glyphs(
        Seq::new((atlas_width * atlas_height * 4) as nat, |i: int| 0u8),
        atlas_width,
        glyphs,
        rects,
        glyphs.len(),
    )
}

/// Copying `g` in at `rect` reads only its pixels, writes only within an
/// atlas of `total` bytes, and keeps every offset within `u32`.
pub open spec fn glyph_fits(atlas_width: int, total: int, g: RasterizedGlyph, rect: PackedRect) -> bool {
    g.height > 0 ==> {
        &&& g.width * 4 <= u32::MAX
        &&& (g.height - 1) * g.width * 4 <= u32::MAX
        &&& g.height * g.width * 4 <= g.pixels@.len()
        &&& row_dst(atlas_width, rect, g.height - 1) + g.width * 4 <= total
    }
}

proof fn lemma_row_bounds(aw: int, total: int, w: int, h: int, x: int, y: int, r: int, len: int)
    requires
        aw > 0,
        w >= 0,
        x >= 0,
        y >= 0,
        0 <= r < h,
        w * 4 <= u32::MAX,
        (h - 1) * w * 4 <= u32::MAX,
        h * w * 4 <= len,
        ((y + h - 1) * aw + x) * 4 + w * 4 <= total,
        total <= u32::MAX,
    ensures
        0 <= r * w,
        r * w * 4 <= u32::MAX,
        r * w * 4 + w * 4 <= len,
        y + r <= u32::MAX,
        (y + r) * aw <= u32::MAX,
        (y + r) * aw + x <= u32::MAX,
        0 <= ((y + r) * aw + x) * 4,
        ((y + r) * aw + x) * 4 + w * 4 <= total,
{
    assert(0 <= r * w) by (nonlinear_arith)
        requires
            r >= 0,
            w >= 0,
    ;
    assert(r * w <= (h - 1) * w) by (nonlinear_arith)
        requires
            r <= h - 1,
            w >= 0,
    ;
    assert(r * w * 4 + w * 4 == (r + 1) * w * 4) by (nonlinear_arith);
    assert((r + 1) * w <= h * w) by (nonlinear_arith)
        requires
            r + 1 <= h,
            w >= 0,
    ;
    assert((y + r) * aw <= (y + h - 1) * aw) by (nonlinear_arith)
        requires
            y + r <= y + h - 1,
            aw >= 0,
    ;
    assert(y + r <= (y + r) * aw) by (nonlinear_arith)
        requires
            y + r >= 0,
            aw >= 1,
    ;
    assert(0 <= (y + r) * aw) by (nonlinear_arith)
        requires
            y + r >= 0,
            aw >= 0,
    ;
}

/// The atlas byte of channel `c` of pixel (`j`, `r`) of a bitmap placed at
/// `rect`.
pub open spec fn texel_index(atlas_width: int, rect: PackedRect, r: int, j: int, c: int) -> int {
    ((rect.y + r) * atlas_width + rect.x + j) * 4 + c
}

/// Channel `c` of pixel (`j`, `r`) of `g`.
pub open spec fn glyph_byte(g: RasterizedGlyph, r: int, j: int, c: int) -> u8 {
    g.pixels@[(r * g.width + j) * 4 + c]
}

/// (`j`, `r`, `c`) names a channel of a pixel of `g`.
pub open spec fn in_glyph(g: RasterizedGlyph, r: int, j: int, c: int) -> bool {
    0 <= r < g.height && 0 <= j < g.width && 0 <= c < 4
}

/// No two glyphs at their places share a pixel.
pub open spec fn rects_disjoint(glyphs: Seq<RasterizedGlyph>, rects: Seq<PackedRect>) -> bool {
    forall|a: int, b: int|
        0 <= a < b < glyphs.len() ==> disjoint(
            (rects[a].x as int, rects[a].y as int),
            (glyphs[a].width, glyphs[a].height),
            (rects[b].x as int, rects[b].y as int),
            (glyphs[b].width, glyphs[b].height),
        )
}

proof fn lemma_row_before(aw: int, y: int, r: int, rr: int, x: int, j: int, c: int)
    requires
        aw > 0,
        0 <= r < rr,
        0 <= x,
        0 <= j,
        x + j < aw,
        0 <= c < 4,
    ensures
        ((y + r) * aw + x + j) * 4 + c < ((y + rr) * aw + x) * 4,
{
    assert((y + r) * aw + aw <= (y + rr) * aw) by (nonlinear_arith)
        requires
            r < rr,
            aw > 0,
    ;
}

proof fn lemma_place_unique(aw: int, ya: int, xa: int, yb: int, xb: int)
    requires
        aw > 0,
        0 <= xa < aw,
        0 <= xb < aw,
        ya * aw + xa == yb * aw + xb,
    ensures
        ya == yb,
        xa == xb,
{
    assert(ya == yb) by (nonlinear_arith)
        requires
            aw > 0,
            0 <= xa < aw,
            0 <= xb < aw,
            ya * aw + xa == yb * aw + xb,
    {
        if ya < yb {
            assert(ya * aw + aw <= yb * aw);
        } else if yb < ya {
            assert(yb * aw + aw <= ya * aw);
        }
    }
}

proof fn lemma_blit_rows(d: Seq<u8>, aw: int, g: RasterizedGlyph, rect: PackedRect, n: nat)
    requires
        aw > 0,
        d.len() <= u32::MAX,
        rect.x + g.width <= aw,
        n <= g.height,
        glyph_fits(aw, d.len() as int, g, rect),
    ensures
        blit_rows(d, aw, g, rect, n).len() == d.len(),
        forall|r: int, j: int, c: int|
            in_glyph(g, r, j, c) && r < n ==> blit_rows(d, aw, g, rect, n)[#[trigger] texel_index(
                aw,
                rect,
                r,
                j,
                c,
            )] == glyph_byte(g, r, j, c),
        forall|k: int|
            0 <= k < d.len() && (forall|r: int, j: int, c: int|
                in_glyph(g, r, j, c) && r < n ==> k != #[trigger] texel_index(aw, rect, r, j, c))
                ==> #[trigger] blit_rows(d, aw, g, rect, n)[k] == d[k],
    decreases n,
{
    if n > 0 {
        let rr = n - 1;
        lemma_blit_rows(d, aw, g, rect, (n - 1) as nat);
        let prev = blit_rows(d, aw, g, rect, (n - 1) as nat);
        let w = g.width as int;
        lemma_row_bounds(
            aw,
            d.len() as int,
            w,
            g.height as int,
            rect.x as int,
            rect.y as int,
            rr,
            g.pixels@.len() as int,
        );
        let at = row_dst(aw, rect, rr);
        let src = row_src(g, rr);
        assert(src.len() == w * 4);
        let cur = blit_rows(d, aw, g, rect, n);
        assert(cur == copy_into(prev, at, src));
        assert forall|r: int, j: int, c: int| in_glyph(g, r, j, c) && r < n implies cur[
            #[trigger] texel_index(aw, rect, r, j, c)] == glyph_byte(g, r, j, c) by {
            if r == rr {
                assert(texel_index(aw, rect, r, j, c) == at + j * 4 + c);
                assert((r * w + j) * 4 + c == r * w * 4 + (j * 4 + c));
            } else {
                lemma_row_before(aw, rect.y as int, r, rr, rect.x as int, j, c);
                assert(texel_index(aw, rect, r, j, c) >= 0) by (nonlinear_arith)
                    requires
                        aw > 0,
                        r >= 0,
                        j >= 0,
                        c >= 0,
                        rect.y >= 0,
                        rect.x >= 0,
                ;
            }
        }
        assert forall|k: int|
            0 <= k < d.len() && (forall|r: int, j: int, c: int|
                in_glyph(g, r, j, c) && r < n ==> k != #[trigger] texel_index(aw, rect, r, j, c))
                implies #[trigger] cur[k] == d[k] by {
            if at <= k < at + w * 4 {
                let j = (k - at) / 4;
                let c = (k - at) % 4;
                assert(texel_index(aw, rect, rr, j, c) == k);
                assert(in_glyph(g, rr, j, c));
            }
            assert forall|r: int, j: int, c: int| in_glyph(g, r, j, c) && r < n - 1 implies k
                != #[trigger] texel_index(aw, rect, r, j, c) by {}
        }
    }
}

proof fn lemma_glyphs_apart(
    aw: int,
    ga: RasterizedGlyph,
    ra: PackedRect,
    gb: RasterizedGlyph,
    rb: PackedRect,
    r: int,
    j: int,
    c: int,
    r2: int,
    j2: int,
    c2: int,
)
    requires
        aw > 0,
        ra.x + ga.width <= aw,
        rb.x + gb.width <= aw,
        disjoint((ra.x as int, ra.y as int), (ga.width, ga.height), (rb.x as int, rb.y as int), (gb.width, gb.height))
            || disjoint((rb.x as int, rb.y as int), (gb.width, gb.height), (ra.x as int, ra.y as int), (ga.width, ga.height)),
        in_glyph(ga, r, j, c),
        in_glyph(gb, r2, j2, c2),
    ensures
        texel_index(aw, ra, r, j, c) != texel_index(aw, rb, r2, j2, c2),
{
    let a = (ra.y + r) * aw + ra.x + j;
    let b = (rb.y + r2) * aw + rb.x + j2;
    if texel_index(aw, ra, r, j, c) == texel_index(aw, rb, r2, j2, c2) {
        assert(a * 4 + c == b * 4 + c2);
        assert(a == b);
        lemma_place_unique(aw, ra.y + r, ra.x + j, rb.y + r2, rb.x + j2);
    }
}

proof fn lemma_blit_glyphs(
    d: Seq<u8>,
    aw: int,
    glyphs: Seq<RasterizedGlyph>,
    rects: Seq<PackedRect>,
    n: nat,
)
    requires
        aw > 0,
        d.len() <= u32::MAX,
        n <= glyphs.len(),
        glyphs.len() == rects.len(),
        forall|i: int|
            0 <= i < glyphs.len() ==> glyph_fits(aw, d.len() as int, #[trigger] glyphs[i], rects[i])
                && rects[i].x + glyphs[i].width <= aw,
        rects_disjoint(glyphs, rects),
    ensures
        blit_glyphs(d, aw, glyphs, rects, n).len() == d.len(),
        forall|i: int, r: int, j: int, c: int|
            0 <= i < n && in_glyph(glyphs[i], r, j, c) ==> blit_glyphs(d, aw, glyphs, rects, n)[
            #[trigger] texel_index(aw, rects[i], r, j, c)] == glyph_byte(glyphs[i], r, j, c),
        forall|k: int|
            0 <= k < d.len() && (forall|i: int, r: int, j: int, c: int|
                0 <= i < n && in_glyph(glyphs[i], r, j, c) ==> k != #[trigger] texel_index(
                    aw,
                    rects[i],
                    r,
                    j,
                    c,
                )) ==> #[trigger] blit_glyphs(d, aw, glyphs, rects, n)[k] == d[k],
    decreases n,
{
    if n > 0 {
        let last = n - 1;
        lemma_blit_glyphs(d, aw, glyphs, rects, (n - 1) as nat);
        let prev = blit_glyphs(d, aw, glyphs, rects, (n - 1) as nat);
        let g = glyphs[last];
        let rect = rects[last];
        assert(glyph_fits(aw, d.len() as int, g, rect) && rect.x + g.width <= aw);
        lemma_blit_rows(prev, aw, g, rect, g.height as nat);
        let cur = blit_glyphs(d, aw, glyphs, rects, n);
        assert(cur == blit_rows(prev, aw, g, rect, g.height as nat));
        assert forall|i: int, r: int, j: int, c: int|
            0 <= i < n && in_glyph(glyphs[i], r, j, c) implies cur[#[trigger] texel_index(
                aw,
                rects[i],
                r,
                j,
                c,
            )] == glyph_byte(glyphs[i], r, j, c) by {
            if i < last {
                assert(glyph_fits(aw, d.len() as int, glyphs[i], rects[i]) && rects[i].x
                    + glyphs[i].width <= aw);
                assert forall|r2: int, j2: int, c2: int|
                    in_glyph(g, r2, j2, c2) && r2 < g.height implies texel_index(
                    aw,
                    rects[i],
                    r,
                    j,
                    c,
                ) != #[trigger] texel_index(aw, rect, r2, j2, c2) by {
                    lemma_glyphs_apart(aw, glyphs[i], rects[i], g, rect, r, j, c, r2, j2, c2);
                }
                lemma_row_bounds(
                    aw,
                    d.len() as int,
                    glyphs[i].width as int,
                    glyphs[i].height as int,
                    rects[i].x as int,
                    rects[i].y as int,
                    r,
                    glyphs[i].pixels@.len() as int,
                );
                assert(0 <= texel_index(aw, rects[i], r, j, c) < d.len());
            }
        }
        assert forall|k: int|
            0 <= k < d.len() && (forall|i: int, r: int, j: int, c: int|
                0 <= i < n && in_glyph(glyphs[i], r, j, c) ==> k != #[trigger] texel_index(
                    aw,
                    rects[i],
                    r,
                    j,
                    c,
                )) implies #[trigger] cur[k] == d[k] by {
            assert forall|r: int, j: int, c: int|
                in_glyph(g, r, j, c) && r < g.height implies k != #[trigger] texel_index(
                aw,
                rect,
                r,
                j,
                c,
            ) by {
                assert(k != texel_index(aw, rects[last], r, j, c));
            }
            assert(cur[k] == prev[k]);
            assert forall|i: int, r: int, j: int, c: int|
                0 <= i < n - 1 && in_glyph(glyphs[i], r, j, c) implies k != #[trigger] texel_index(
                aw,
                rects[i],
                r,
                j,
                c,
            ) by {}
        }
    }
}

/// In the atlas, each byte of a placed glyph's rectangle holds that glyph's
/// pixel byte, and every other byte is zero; given glyphs within the atlas
/// width whose places share no pixel.
pub proof fn law_atlas_texels(
    atlas_width: u32,
    atlas_height: u32,
    glyphs: Seq<RasterizedGlyph>,
    rects: Seq<PackedRect>,
)
    requires
        atlas_width > 0,
        atlas_width * atlas_height * 4 <= u32::MAX,
        glyphs.len() == rects.len(),
        forall|i: int|
            0 <= i < glyphs.len() ==> glyph_fits(
                atlas_width as int,
                atlas_width * atlas_height * 4,
                #[trigger] glyphs[i],
                rects[i],
            ) && rects[i].x + glyphs[i].width <= atlas_width,
        rects_disjoint(glyphs, rects),
    ensures
        atlas_pixels(atlas_width as int, atlas_height as int, glyphs, rects).len() == atlas_width
            * atlas_height * 4,
        forall|i: int, r: int, j: int, c: int|
            0 <= i < glyphs.len() && in_glyph(glyphs[i], r, j, c) ==> atlas_pixels(
                atlas_width as int,
                atlas_height as int,
                glyphs,
                rects,
            )[#[trigger] texel_index(atlas_width as int, rects[i], r, j, c)] == glyph_byte(
                glyphs[i],
                r,
                j,
                c,
            ),
        forall|k: int|
            0 <= k < atlas_width * atlas_height * 4 && (forall|i: int, r: int, j: int, c: int|
                0 <= i < glyphs.len() && in_glyph(glyphs[i], r, j, c) ==> k
                    != #[trigger] texel_index(atlas_width as int, rects[i], r, j, c)) ==> #[trigger] atlas_pixels(
                atlas_width as int,
                atlas_height as int,
                glyphs,
                rects,
            )[k] == 0,
{
    let aw = atlas_width as int;
    let total = atlas_width * atlas_height * 4;
    let zero = Seq::new(total as nat, |i: int| 0u8);
    lemma_blit_glyphs(zero, aw, glyphs, rects, glyphs.len());
}

/// The atlas pixels: an `atlas_width` by `atlas_height` RGBA image, zero
/// but where each glyph's rows are copied in at its place, in order.
pub fn build_atlas(
    atlas_width: u32,
    atlas_height: u32,
    glyphs: &Vec<RasterizedGlyph>,
    rects: &Vec<PackedRect>,
) -> (atlas: Vec<u8>)
    requires
        atlas_width > 0,
        atlas_width * atlas_height * 4 <= u32::MAX,
        glyphs@.len() == rects@.len(),
        forall|i: int|
            0 <= i < glyphs@.len() ==> glyph_fits(
                atlas_width as int,
                atlas_width * atlas_height * 4,
                #[trigger] glyphs@[i],
                rects@[i],
            ),
    ensures
        atlas@ == atlas_pixels(atlas_width as int, atlas_height as int, glyphs@, rects@),
{
    let total = (atlas_width * atlas_height * 4) as usize;
    let ghost zero = Seq::new(total as nat, |i: int| 0u8);
    let mut atlas: Vec<u8> = Vec::with_capacity(total);
    let mut k: usize = 0;
    while k < total
        invariant
            k <= total,
            atlas@ =~= Seq::new(k as nat, |i: int| 0u8),
        decreases total - k,
    {
        atlas.push(0);
        k = k + 1;
    }
    let mut i: usize = 0;
    while i < glyphs.len()
        invariant
            i <= glyphs@.len(),
            glyphs@.len() == rects@.len(),
            total == atlas_width * atlas_height * 4,
            total <= u32::MAX,
            atlas_width > 0,
            atlas@.len() == total,
            atlas@ == blit_glyphs(zero, atlas_width as int, glyphs@, rects@, i as nat),
            forall|j: int|
                0 <= j < glyphs@.len() ==> glyph_fits(
                    atlas_width as int,
                    total as int,
                    #[trigger] glyphs@[j],
                    rects@[j],
                ),
        decreases glyphs@.len() - i,
    {
        let g = &glyphs[i];
        let rect = rects[i];
        assert(glyph_fits(atlas_width as int, total as int, glyphs@[i as int], rects@[i as int]));
        let ghost base = atlas@;
        let mut row: u32 = 0;
        while row < g.height
            invariant
                row <= g.height,
                g == glyphs@[i as int],
                rect == rects@[i as int],
                total <= u32::MAX,
                atlas_width > 0,
                atlas@.len() == total,
                atlas@ == blit_rows(base, atlas_width as int, *g, rect, row as nat),
                glyph_fits(atlas_width as int, total as int, *g, rect),
            decreases g.height - row,
        {
            proof {
                lemma_row_bounds(
                    atlas_width as int,
                    total as int,
                    g.width as int,
                    g.height as int,
                    rect.x as int,
                    rect.y as int,
                    row as int,
                    g.pixels@.len() as int,
                );
            }
            let w4 = g.width * 4;
            let src_start = (row * g.width * 4) as usize;
            let dst_y = rect.y + row;
            let dst_start = ((dst_y * atlas_width + rect.x) * 4) as usize;
            let ghost before = atlas@;
            let ghost src = row_src(*g, row as int);
            let pixels_len = g.pixels.len();
            let mut j: usize = 0;
            while j < w4 as usize
                invariant
                    j <= w4,
                    w4 == g.width * 4,
                    src_start == row * g.width * 4,
                    src_start + w4 <= g.pixels@.len(),
                    pixels_len == g.pixels@.len(),
                    dst_start + w4 <= total,
                    atlas@.len() == total,
                    before.len() == total,
                    src == g.pixels@.subrange(src_start as int, src_start + w4),
                    atlas@ =~= before.take(dst_start as int) + src.take(j as int) + before.skip(
                        dst_start + j,
                    ),
                decreases w4 - j,
            {
                let b = g.pixels[src_start + j];
                assert(b == src[j as int]);
                atlas.set(dst_start + j, b);
                assert(src.take(j + 1) =~= src.take(j as int).push(b));
                j = j + 1;
            }
            assert(src.take(w4 as int) =~= src);
            assert(dst_start as int == row_dst(atlas_width as int, rect, row as int));
            row = row + 1;
        }
        i = i + 1;
    }
    atlas
}

/// The triangle indices of `n` glyph quads: quad `i` uses the four vertices
/// from `4 * i` on (counted in `u16`, so modulo 65536), as the triangles
/// (0, 1, 2) and (0, 2, 3).
pub open spec fn quad_index(i: int, k: int) -> u16 {
    let base = (4 * i) % 65536;
    let offsets = seq![0int, 1, 2, 0, 2, 3];
    (base + offsets[k]) as u16
}

/// The index buffer of `n` glyph quads.
pub fn quad_indices(n: usize) -> (indices: Vec<u16>)
    requires
        n * 6 <= usize::MAX,
    ensures
        indices@.len() == n * 6,
        forall|k: int| 0 <= k < n * 6 ==> #[trigger] indices@[k] == quad_index(k / 6, k % 6),
{
    let mut indices: Vec<u16> = Vec::with_capacity(n * 6);
    let mut i: usize = 0;
    while i < n
        invariant
            i <= n,
            n * 6 <= usize::MAX,
            indices@.len() == i * 6,
            forall|k: int| 0 <= k < i * 6 ==> #[trigger] indices@[k] == quad_index(k / 6, k % 6),
        decreases n - i,
    {
        let base: u16 = ((i % 16384) * 4) as u16;
        assert(base as int == (4 * i) % 65536) by (nonlinear_arith)
            requires
                base as int == (i % 16384) * 4,
                i >= 0,
        ;
        indices.push(base);
        indices.push(base + 1);
        indices.push(base + 2);
        indices.push(base);
        indices.push(base + 2);
        indices.push(base + 3);
        assert forall|k: int| 0 <= k < (i + 1) * 6 implies #[trigger] indices@[k] == quad_index(
            k / 6,
            k % 6,
        ) by {
            if k >= i * 6 {
                assert(k / 6 == i);
            }
        }
        i = i + 1;
    }
    indices
}

} // verus!
