//! The shelf packing strategy: items are appended left to right on an
//! open horizontal shelf; when one does not fit the shelf is closed and
//! a new one opens below. Constant space, no backtracking: the cursor
//! only advances and closed shelves are never revisited.

use vstd::prelude::*;

use crate::buffer2d::{patch, patch_rotated, patched, patched_rotated, Buffer2d};
use crate::rect::{all_within, padded, pairwise_disjoint, Rect};

verus! {

/// Packs items onto horizontal shelves with a cursor `(x, y)` and the
/// height of the tallest item on the open shelf.
pub struct ShelfPacker<B: Buffer2d> {
    buf: B,
    width: u32,
    height: u32,
    x: u32,
    y: u32,
    opening_shelf_max_y: u32,
    margin: u32,
    placed: Ghost<Seq<Rect>>,
}

impl<B: Buffer2d> ShelfPacker<B> {
    /// Current logical packing width.
    pub closed spec fn spec_width(&self) -> u32 {
        self.width
    }

    /// Current logical packing height.
    pub closed spec fn spec_height(&self) -> u32 {
        self.height
    }

    /// The margin reserved around every subsequent item.
    pub closed spec fn margin(&self) -> u32 {
        self.margin
    }

    /// The wrapped canvas.
    pub closed spec fn canvas(&self) -> B {
        self.buf
    }

    /// The cursor column on the open shelf.
    pub closed spec fn pos_x(&self) -> u32 {
        self.x
    }

    /// The top row of the open shelf.
    pub closed spec fn pos_y(&self) -> u32 {
        self.y
    }

    /// The tallest footprint placed on the open shelf so far.
    pub closed spec fn shelf_max(&self) -> u32 {
        self.opening_shelf_max_y
    }

    /// The footprints (margin included) of all successful packs so far.
    pub closed spec fn placements(&self) -> Seq<Rect> {
        self.placed@
    }

    /// The packer's invariant: the cursor lies inside the extent, every
    /// placement lies within it and either sits fully above the open
    /// shelf or on the open shelf left of the cursor, and placements
    /// never overlap one another.
    pub open spec fn wf(&self) -> bool {
        &&& self.pos_x() <= self.spec_width()
        &&& self.pos_y() + self.shelf_max() <= self.spec_height()
        &&& all_within(self.placements(), self.spec_width(), self.spec_height())
        &&& pairwise_disjoint(self.placements())
        &&& forall|q: int|
            0 <= q < self.placements().len() ==> {
                let p = #[trigger] self.placements()[q];
                ||| p.bottom() <= self.pos_y()
                ||| (p.y == self.pos_y() && p.right() <= self.pos_x() && p.bottom() <= self.pos_y()
                    + self.shelf_max())
            }
    }

    /// Whether placing a footprint of extent `(w, h)` closes the open
    /// shelf first: the cursor is mid-shelf and the footprint fits the
    /// remaining shelf width in neither orientation worth taking.
    pub open spec fn closes_shelf(self, w: int, h: int) -> bool {
        &&& self.pos_x() != 0
        &&& !(w > h && self.pos_x() + h <= self.spec_width())
        &&& self.pos_x() + w > self.spec_width()
    }

    /// Whether a footprint of extent `(w, h)` is stored rotated a
    /// quarter turn: sideways on a fresh shelf when taller than wide, or
    /// mid-shelf when wider than tall and the height fits the remaining
    /// width.
    pub open spec fn stores_rotated(self, w: int, h: int) -> bool {
        if self.pos_x() == 0 {
            h > w && h <= self.spec_width()
        } else if w > h && self.pos_x() + h <= self.spec_width() {
            true
        } else if self.pos_x() + w <= self.spec_width() {
            false
        } else {
            // the shelf closes; on the fresh shelf the sideways rule applies
            h > w && h <= self.spec_width()
        }
    }

    /// The cursor column a footprint of extent `(w, h)` is placed at.
    pub open spec fn place_x(self, w: int, h: int) -> int {
        if self.closes_shelf(w, h) {
            0
        } else {
            self.pos_x() as int
        }
    }

    /// The shelf row a footprint of extent `(w, h)` is placed at.
    pub open spec fn place_y(self, w: int, h: int) -> int {
        if self.closes_shelf(w, h) {
            self.pos_y() + self.shelf_max()
        } else {
            self.pos_y() as int
        }
    }

    /// The placed width of a footprint of extent `(w, h)`.
    pub open spec fn place_w(self, w: int, h: int) -> int {
        if self.stores_rotated(w, h) {
            h
        } else {
            w
        }
    }

    /// The placed height of a footprint of extent `(w, h)`.
    pub open spec fn place_h(self, w: int, h: int) -> int {
        if self.stores_rotated(w, h) {
            w
        } else {
            h
        }
    }

    /// Whether a footprint of extent `(w, h)` fits at its placement.
    pub open spec fn shelf_fits(self, w: int, h: int) -> bool {
        &&& self.place_x(w, h) + self.place_w(w, h) <= self.spec_width()
        &&& self.place_y(w, h) + self.place_h(w, h) <= self.spec_height()
    }

    /// Takes ownership of `buf`; the cursor starts at the top left.
    pub fn new(buf: B) -> (p: Self)
        ensures
            p.wf(),
            p.spec_width() == buf.spec_width(),
            p.spec_height() == buf.spec_height(),
            p.margin() == 0,
            p.canvas() == buf,
            p.pos_x() == 0,
            p.pos_y() == 0,
            p.shelf_max() == 0,
            p.placements() == Seq::<Rect>::empty(),
    {
        let (w, h) = buf.dimensions();
        ShelfPacker {
            buf,
            width: w,
            height: h,
            x: 0,
            y: 0,
            opening_shelf_max_y: 0,
            margin: 0,
            placed: Ghost(Seq::empty()),
        }
    }

    /// Placements returned by successful packs never overlap one
    /// another, and each lies within the packing extent.
    pub proof fn lemma_placements_valid(&self)
        requires
            self.wf(),
        ensures
            pairwise_disjoint(self.placements()),
            all_within(self.placements(), self.spec_width(), self.spec_height()),
    {
    }

    /// An item larger than the packing extent in every orientation fits
    /// at no shelf position, so packing it always fails.
    pub proof fn lemma_oversized_never_fits(&self, w: int, h: int)
        requires
            self.wf(),
            w > self.spec_width() || h > self.spec_height(),
            h > self.spec_width() || w > self.spec_height(),
        ensures
            !self.shelf_fits(w, h),
    {
    }

    /// The current logical packing extent.
    pub fn dimensions(&self) -> (r: (u32, u32))
        ensures
            r.0 == self.spec_width(),
            r.1 == self.spec_height(),
    {
        (self.width, self.height)
    }

    /// Grows the logical packing extent; the cursor and the open shelf
    /// are kept as they are.
    pub fn set_dimensions(&mut self, w: u32, h: u32)
        requires
            old(self).wf(),
            w >= old(self).spec_width(),
            h >= old(self).spec_height(),
        ensures
            final(self).wf(),
            final(self).spec_width() == w,
            final(self).spec_height() == h,
            final(self).margin() == old(self).margin(),
            final(self).canvas() == old(self).canvas(),
            final(self).pos_x() == old(self).pos_x(),
            final(self).pos_y() == old(self).pos_y(),
            final(self).shelf_max() == old(self).shelf_max(),
            final(self).placements() == old(self).placements(),
    {
        self.width = w;
        self.height = h;
    }

    /// Reserves `val` extra cells in each dimension around every
    /// subsequent item.
    pub fn set_margin(&mut self, val: u32)
        ensures
            final(self).margin() == val,
            final(self).spec_width() == old(self).spec_width(),
            final(self).spec_height() == old(self).spec_height(),
            final(self).canvas() == old(self).canvas(),
            final(self).pos_x() == old(self).pos_x(),
            final(self).pos_y() == old(self).pos_y(),
            final(self).shelf_max() == old(self).shelf_max(),
            final(self).placements() == old(self).placements(),
            old(self).wf() ==> final(self).wf(),
    {
        self.margin = val;
    }

    /// Read-only access to the wrapped canvas.
    pub fn buf(&self) -> (r: &B)
        ensures
            *r == self.canvas(),
    {
        &self.buf
    }

    /// Mutable access to the wrapped canvas.
    pub fn buf_mut(&mut self) -> (r: &mut B)
        ensures
            *r == old(self).canvas(),
            final(self).canvas() == *final(r),
            final(self).spec_width() == old(self).spec_width(),
            final(self).spec_height() == old(self).spec_height(),
            final(self).margin() == old(self).margin(),
            final(self).pos_x() == old(self).pos_x(),
            final(self).pos_y() == old(self).pos_y(),
            final(self).shelf_max() == old(self).shelf_max(),
            final(self).placements() == old(self).placements(),
    {
        &mut self.buf
    }

    /// Reclaims the wrapped canvas, consuming the packer.
    pub fn into_buf(self) -> (r: B)
        ensures
            r == self.canvas(),
    {
        self.buf
    }

    /// Attempts to append `item` (margin added) to the open shelf,
    /// rotated a quarter turn clockwise where the shelf rules say so,
    /// closing the shelf first when the footprint no longer fits its
    /// remaining width; copies the pixels and returns the placement with
    /// the margin excluded. Returns nothing exactly when the footprint
    /// does not fit at its placement; a shelf closed on the way stays
    /// closed.
    pub fn pack<O: Buffer2d<Pixel = B::Pixel>>(&mut self, item: &O) -> (r: Option<Rect>)
        requires
            old(self).wf(),
            item.spec_width() + old(self).margin() <= u32::MAX,
            item.spec_height() + old(self).margin() <= u32::MAX,
        ensures
            final(self).wf(),
            final(self).spec_width() == old(self).spec_width(),
            final(self).spec_height() == old(self).spec_height(),
            final(self).margin() == old(self).margin(),
            ({
                let w = item.spec_width() + old(self).margin();
                let h = item.spec_height() + old(self).margin();
                let cx = old(self).place_x(w, h);
                let cy = old(self).place_y(w, h);
                let pw = old(self).place_w(w, h);
                let ph = old(self).place_h(w, h);
                &&& ((r is Some) <==> old(self).shelf_fits(w, h))
                &&& final(self).pos_y() == cy
                &&& match r {
                    Some(rect) => {
                        &&& rect.x == cx
                        &&& rect.y == cy
                        &&& (if old(self).stores_rotated(w, h) {
                            rect.w == item.spec_height() && rect.h == item.spec_width()
                        } else {
                            rect.w == item.spec_width() && rect.h == item.spec_height()
                        })
                        &&& final(self).placements() == old(self).placements().push(
                            padded(rect, old(self).margin()),
                        )
                        &&& padded(rect, old(self).margin()) == (Rect {
                            x: cx as u32,
                            y: cy as u32,
                            w: pw as u32,
                            h: ph as u32,
                        })
                        &&& final(self).pos_x() == cx + pw
                        &&& final(self).shelf_max() == (if old(self).closes_shelf(w, h) {
                            ph
                        } else if ph > old(self).shelf_max() {
                            ph
                        } else {
                            old(self).shelf_max() as int
                        })
                        &&& (rect.w == item.spec_width() && rect.h == item.spec_height()) || (
                        rect.w == item.spec_height() && rect.h == item.spec_width())
                        &&& (if old(self).stores_rotated(w, h) {
                            patched_rotated(
                                old(self).canvas(),
                                final(self).canvas(),
                                rect.x,
                                rect.y,
                                *item,
                            )
                        } else {
                            patched(old(self).canvas(), final(self).canvas(), rect.x, rect.y, *item)
                        })
                    },
                    None => {
                        &&& final(self).canvas() == old(self).canvas()
                        &&& final(self).placements() == old(self).placements()
                        &&& final(self).pos_x() == cx
                        &&& final(self).shelf_max() == (if old(self).closes_shelf(w, h) {
                            0int
                        } else {
                            old(self).shelf_max() as int
                        })
                    },
                }
            }),
    {
        let (buf_width, buf_height) = item.dimensions();
        let w = buf_width + self.margin;
        let h = buf_height + self.margin;

        let mut patched_width = w;
        let mut patched_height = h;
        let mut rotated = false;

        if self.x == 0 {
            // First footprint on a fresh shelf: store a tall one
            // sideways to keep the new shelf low.
            if h > w && h <= self.width {
                patched_width = h;
                patched_height = w;
                rotated = true;
            }
        } else {
            if w > h && (self.x as u64) + (h as u64) <= (self.width as u64) {
                // Mid-shelf a wide footprint goes sideways when that
                // still fits the remaining width.
                patched_width = h;
                patched_height = w;
                rotated = true;
            } else if (self.x as u64) + (w as u64) > (self.width as u64) {
                // Close the shelf and reconsider the sideways rule on
                // the fresh one.
                self.x = 0;
                self.y = self.y + self.opening_shelf_max_y;
                self.opening_shelf_max_y = 0;
                if h > w && h <= self.width {
                    patched_width = h;
                    patched_height = w;
                    rotated = true;
                }
            }
        }

        if (self.x as u64) + (patched_width as u64) <= (self.width as u64) && (self.y as u64) + (
        patched_height as u64) <= (self.height as u64) {
            let px = self.x;
            let py = self.y;
            if rotated {
                patch_rotated(&mut self.buf, px, py, item);
            } else {
                patch(&mut self.buf, px, py, item);
            }

            self.x = px + patched_width;
            if self.opening_shelf_max_y < patched_height {
                self.opening_shelf_max_y = patched_height;
            }
            let footprint = Rect { x: px, y: py, w: patched_width, h: patched_height };
            proof {
                self.placed@ = self.placed@.push(footprint);
                assert forall|q: int|
                    0 <= q < old(self).placements().len() implies !footprint.overlaps(
                    #[trigger] old(self).placements()[q],
                ) by {}
            }
            Some(
                Rect {
                    x: px,
                    y: py,
                    w: patched_width - self.margin,
                    h: patched_height - self.margin,
                },
            )
        } else {
            None
        }
    }
}

} // verus!
