//! The guillotine packing strategy: best-area-fit search over a list of
//! disjoint free rectangles, shorter-axis split of the consumed one, no
//! merge pass.

use vstd::prelude::*;

use crate::buffer2d::{patch, patch_rotated, patched, patched_rotated, Buffer2d};
use crate::rect::{
    all_disjoint_from, all_within, fits_in, fits_upright, padded, pairwise_disjoint, seq_covers,
    Rect,
};

verus! {

/// Index `i` names the free area a best-area-fit search for an item of
/// extent `(w, h)` settles on: the item fits it, no fitting area has a
/// smaller area, and every earlier fitting area is strictly larger.
pub open spec fn best_area_choice(free: Seq<Rect>, w: int, h: int, i: int) -> bool {
    &&& 0 <= i < free.len()
    &&& fits_in(free[i], w, h)
    &&& forall|j: int|
        0 <= j < free.len() && fits_in(#[trigger] free[j], w, h)
            ==> free[i].spec_area() <= free[j].spec_area()
    &&& forall|j: int|
        0 <= j < i && fits_in(#[trigger] free[j], w, h) ==> free[i].spec_area()
            < free[j].spec_area()
}

/// The fragment pair shorter-axis split leaves of the free area `a`
/// after a placement of `rect` at its top left corner. When `a` is
/// narrower than tall the cut is horizontal: a right fragment spanning
/// the placed height, then a bottom fragment spanning the full original
/// width. Otherwise the cut is vertical, symmetrically: a bottom
/// fragment spanning the placed width, then a right fragment spanning
/// the full original height.
pub open spec fn split_fragments(a: Rect, rect: Rect) -> Seq<Rect> {
    if a.w < a.h {
        seq![
            Rect { x: (a.x + rect.w) as u32, y: a.y, w: (a.w - rect.w) as u32, h: rect.h },
            Rect { x: a.x, y: (a.y + rect.h) as u32, w: a.w, h: (a.h - rect.h) as u32 },
        ]
    } else {
        seq![
            Rect { x: a.x, y: (a.y + rect.h) as u32, w: rect.w, h: (a.h - rect.h) as u32 },
            Rect { x: (a.x + rect.w) as u32, y: a.y, w: (a.w - rect.w) as u32, h: a.h },
        ]
    }
}

/// Packs items into a canvas by keeping a list of pairwise disjoint free
/// rectangles, choosing the smallest fitting one, and splitting its
/// remainder along its shorter axis.
pub struct GuillotinePacker<B: Buffer2d> {
    width: u32,
    height: u32,
    buf: B,
    free_areas: Vec<Rect>,
    margin: u32,
    placed: Ghost<Seq<Rect>>,
}

impl<B: Buffer2d> GuillotinePacker<B> {
    /// Current logical packing width.
    pub closed spec fn spec_width(&self) -> u32 {
        self.width
    }

    /// Current logical packing height.
    pub closed spec fn spec_height(&self) -> u32 {
        self.height
    }

    /// The margin reserved around every subsequent item.
    pub closed spec fn margin(&self) -> u32 {
        self.margin
    }

    /// The wrapped canvas.
    pub closed spec fn canvas(&self) -> B {
        self.buf
    }

    /// The free areas still open for placement.
    pub closed spec fn free_list(&self) -> Seq<Rect> {
        self.free_areas@
    }

    /// The footprints (margin included) of all successful packs so far.
    pub closed spec fn placements(&self) -> Seq<Rect> {
        self.placed@
    }

    /// The packer's invariant: free areas and placements lie within the
    /// packing extent, free areas are pairwise disjoint and clear of
    /// every placement, and placements never overlap one another.
    pub open spec fn wf(&self) -> bool {
        &&& all_within(self.free_list(), self.spec_width(), self.spec_height())
        &&& all_within(self.placements(), self.spec_width(), self.spec_height())
        &&& pairwise_disjoint(self.free_list())
        &&& pairwise_disjoint(self.placements())
        &&& all_disjoint_from(self.free_list(), self.placements())
    }

    /// Takes ownership of `buf`; the whole canvas starts free.
    pub fn new(buf: B) -> (p: Self)
        ensures
            p.wf(),
            p.spec_width() == buf.spec_width(),
            p.spec_height() == buf.spec_height(),
            p.margin() == 0,
            p.canvas() == buf,
            p.placements() == Seq::<Rect>::empty(),
            p.free_list() == seq![
                Rect { x: 0, y: 0, w: buf.spec_width(), h: buf.spec_height() },
            ],
    {
        let (width, height) = buf.dimensions();
        let mut free_areas: Vec<Rect> = Vec::new();
        free_areas.push(Rect { x: 0, y: 0, w: width, h: height });
        let p = GuillotinePacker {
            buf,
            free_areas,
            margin: 0,
            width,
            height,
            placed: Ghost(Seq::empty()),
        };
        proof {
            assert(p.free_list() == seq![Rect { x: 0, y: 0, w: width, h: height }]);
        }
        p
    }

    /// Best-area-fit search: the smallest free area the item fits,
    /// upright or rotated, ties kept in scan order; `rect` carries the
    /// chosen position and the placed extent.
    fn find_free_area(&self, w: u32, h: u32) -> (r: Option<(usize, Rect)>)
        ensures
            match r {
                Some((i, rect)) => {
                    &&& best_area_choice(self.free_list(), w as int, h as int, i as int)
                    &&& rect.x == self.free_list()[i as int].x
                    &&& rect.y == self.free_list()[i as int].y
                    &&& (if fits_upright(self.free_list()[i as int], w as int, h as int) {
                        rect.w == w && rect.h == h
                    } else {
                        rect.w == h && rect.h == w
                    })
                },
                None => forall|j: int|
                    0 <= j < self.free_list().len()
                        ==> !fits_in(#[trigger] self.free_list()[j], w as int, h as int),
            },
    {
        let ghost free = self.free_list();
        let mut index: Option<usize> = None;
        let mut min_area: u64 = 0;
        let mut rect = Rect::new(0, 0, 0, 0);

        let n = self.free_areas.len();
        let mut i: usize = 0;
        while i < n
            invariant
                i <= n,
                n == free.len(),
                free == self.free_list(),
                match index {
                    Some(bi) => {
                        &&& bi < i
                        &&& fits_in(free[bi as int], w as int, h as int)
                        &&& min_area == free[bi as int].spec_area()
                        &&& rect.x == free[bi as int].x
                        &&& rect.y == free[bi as int].y
                        &&& (if fits_upright(free[bi as int], w as int, h as int) {
                            rect.w == w && rect.h == h
                        } else {
                            rect.w == h && rect.h == w
                        })
                        &&& forall|j: int|
                            0 <= j < i && fits_in(#[trigger] free[j], w as int, h as int)
                                ==> free[bi as int].spec_area() <= free[j].spec_area()
                        &&& forall|j: int|
                            0 <= j < bi && fits_in(#[trigger] free[j], w as int, h as int)
                                ==> free[bi as int].spec_area() < free[j].spec_area()
                    },
                    None => forall|j: int|
                        0 <= j < i ==> !fits_in(#[trigger] free[j], w as int, h as int),
                },
            decreases n - i,
        {
            let area = self.free_areas[i];
            let a = area.area();

            if w <= area.w && h <= area.h {
                let better = match index {
                    None => true,
                    Some(_) => a < min_area,
                };
                if better {
                    index = Some(i);
                    min_area = a;
                    rect.x = area.x;
                    rect.y = area.y;
                    rect.w = w;
                    rect.h = h;
                }
            } else if h <= area.w && w <= area.h {
                let better = match index {
                    None => true,
                    Some(_) => a < min_area,
                };
                if better {
                    index = Some(i);
                    min_area = a;
                    rect.x = area.x;
                    rect.y = area.y;
                    rect.w = h;
                    rect.h = w;
                }
            }
            i = i + 1;
        }

        match index {
            Some(bi) => Some((bi, rect)),
            None => None,
        }
    }

    /// Shorter-axis split: consumes the free area at `index` and replaces
    /// it with the two fragments that exactly tile the part of it not
    /// taken by `rect`.
    fn split(&mut self, index: usize, rect: &Rect)
        requires
            index < old(self).free_list().len(),
            pairwise_disjoint(old(self).free_list()),
            old(self).free_list()[index as int].right() <= u32::MAX,
            old(self).free_list()[index as int].bottom() <= u32::MAX,
            rect.x == old(self).free_list()[index as int].x,
            rect.y == old(self).free_list()[index as int].y,
            rect.w <= old(self).free_list()[index as int].w,
            rect.h <= old(self).free_list()[index as int].h,
        ensures
            final(self).spec_width() == old(self).spec_width(),
            final(self).spec_height() == old(self).spec_height(),
            final(self).margin() == old(self).margin(),
            final(self).canvas() == old(self).canvas(),
            final(self).placements() == old(self).placements(),
            final(self).free_list() == old(self).free_list().remove(index as int)
                + split_fragments(old(self).free_list()[index as int], *rect),
            pairwise_disjoint(final(self).free_list()),
            forall|k: int|
                0 <= k < final(self).free_list().len() ==> {
                    let f = #[trigger] final(self).free_list()[k];
                    ||| exists|j: int|
                        0 <= j < old(self).free_list().len() && j != index && f == old(
                            self,
                        ).free_list()[j]
                    ||| (old(self).free_list()[index as int].spec_contains(f) && !f.overlaps(
                        *rect,
                    ))
                },
            forall|px: int, py: int| #![auto]
                seq_covers(final(self).free_list(), px, py) <==> (seq_covers(
                    old(self).free_list(),
                    px,
                    py,
                ) && !rect.covers(px, py)),
    {
        let ghost old_free = self.free_list();
        let area = self.free_areas.remove(index);

        if area.w < area.h {
            // Split horizontally: right fragment spans the placed height,
            // bottom fragment spans the full original width.
            self.free_areas.push(Rect {
                x: area.x + rect.w,
                y: area.y,
                w: area.w - rect.w,
                h: rect.h,
            });
            self.free_areas.push(Rect {
                x: area.x,
                y: area.y + rect.h,
                w: area.w,
                h: area.h - rect.h,
            });
        } else {
            // Split vertically: bottom fragment spans the placed width,
            // right fragment spans the full original height.
            self.free_areas.push(Rect {
                x: area.x,
                y: area.y + rect.h,
                w: rect.w,
                h: area.h - rect.h,
            });
            self.free_areas.push(Rect {
                x: area.x + rect.w,
                y: area.y,
                w: area.w - rect.w,
                h: area.h,
            });
        }

        proof {
            let new_free = self.free_list();
            let n = old_free.len() as int;
            assert(new_free.len() == n + 1);
            assert(new_free =~= old_free.remove(index as int) + split_fragments(
                old_free[index as int],
                *rect,
            ));
            assert forall|k: int| 0 <= k < n - 1 implies new_free[k] == old_free[
                if k < index { k } else { k + 1 }
            ] by {}

            // Every entry is an untouched old area or a fragment of the
            // consumed one, clear of `rect`.
            assert forall|k: int| #![trigger new_free[k]] 0 <= k < new_free.len() implies {
                let f = new_free[k];
                ||| exists|j: int| 0 <= j < n && j != index && f == old_free[j]
                ||| (old_free[index as int].spec_contains(f) && !f.overlaps(*rect))
            } by {
                if k < n - 1 {
                    let j = if k < index { k } else { k + 1 };
                    assert(new_free[k] == old_free[j] && j != index);
                }
            }

            // The fragments tile the consumed area outside `rect`.
            assert forall|px: int, py: int|
                seq_covers(new_free, px, py) <==> (seq_covers(old_free, px, py) && !rect.covers(
                    px,
                    py,
                )) by {
                if seq_covers(new_free, px, py) {
                    let k = choose|k: int|
                        0 <= k < new_free.len() && (#[trigger] new_free[k]).covers(px, py);
                    if k < n - 1 {
                        let j = if k < index { k } else { k + 1 };
                        assert(old_free[j].covers(px, py));
                        assert(!old_free[j].overlaps(old_free[index as int]));
                        assert(!rect.covers(px, py));
                    } else {
                        assert(old_free[index as int].covers(px, py));
                    }
                }
                if seq_covers(old_free, px, py) && !rect.covers(px, py) {
                    let j = choose|j: int|
                        0 <= j < old_free.len() && (#[trigger] old_free[j]).covers(px, py);
                    if j == index {
                        if area.w < area.h {
                            if py >= area.y + rect.h {
                                assert(new_free[n].covers(px, py));
                            } else {
                                assert(new_free[n - 1].covers(px, py));
                            }
                        } else {
                            if px >= area.x + rect.w {
                                assert(new_free[n].covers(px, py));
                            } else {
                                assert(new_free[n - 1].covers(px, py));
                            }
                        }
                    } else {
                        let k = if j < index { j } else { j - 1 };
                        assert(new_free[k].covers(px, py));
                    }
                }
            }
        }
    }

    /// Placements returned by successful packs never overlap one
    /// another, and each lies within the packing extent.
    pub proof fn lemma_placements_valid(&self)
        requires
            self.wf(),
        ensures
            pairwise_disjoint(self.placements()),
            all_within(self.placements(), self.spec_width(), self.spec_height()),
    {
    }

    /// An item larger than the packing extent in every orientation fits
    /// no free area, so packing it always fails.
    pub proof fn lemma_oversized_never_fits(&self, w: int, h: int)
        requires
            self.wf(),
            w > self.spec_width() || h > self.spec_height(),
            h > self.spec_width() || w > self.spec_height(),
        ensures
            forall|i: int|
                0 <= i < self.free_list().len() ==> !fits_in(#[trigger] self.free_list()[i], w, h),
    {
        assert forall|i: int|
            0 <= i < self.free_list().len() implies !fits_in(
            #[trigger] self.free_list()[i],
            w,
            h,
        ) by {
            assert(self.free_list()[i].within(self.spec_width(), self.spec_height()));
        }
    }

    /// The current logical packing extent.
    pub fn dimensions(&self) -> (r: (u32, u32))
        ensures
            r.0 == self.spec_width(),
            r.1 == self.spec_height(),
    {
        (self.width, self.height)
    }

    /// Grows the logical packing extent; the newly exposed L-shaped
    /// region becomes free as a right strip of full new height and a
    /// bottom strip of the old width.
    pub fn set_dimensions(&mut self, w: u32, h: u32)
        requires
            old(self).wf(),
            w >= old(self).spec_width(),
            h >= old(self).spec_height(),
        ensures
            final(self).wf(),
            final(self).spec_width() == w,
            final(self).spec_height() == h,
            final(self).margin() == old(self).margin(),
            final(self).canvas() == old(self).canvas(),
            forall|px: int, py: int|
                #![trigger seq_covers(final(self).free_list(), px, py)]
                #![trigger seq_covers(old(self).free_list(), px, py)]
                seq_covers(final(self).free_list(), px, py) <==> (seq_covers(
                    old(self).free_list(),
                    px,
                    py,
                ) || (Rect {
                    x: old(self).spec_width(),
                    y: 0,
                    w: (w - old(self).spec_width()) as u32,
                    h,
                }).covers(px, py) || (Rect {
                    x: 0,
                    y: old(self).spec_height(),
                    w: old(self).spec_width(),
                    h: (h - old(self).spec_height()) as u32,
                }).covers(px, py)),
            final(self).placements() == old(self).placements(),
            forall|j: int|
                0 <= j < old(self).free_list().len() ==> final(self).free_list().contains(
                    #[trigger] old(self).free_list()[j],
                ),
            w > old(self).spec_width() ==> final(self).free_list().contains(
                Rect {
                    x: old(self).spec_width(),
                    y: 0,
                    w: (w - old(self).spec_width()) as u32,
                    h,
                },
            ),
            h > old(self).spec_height() ==> final(self).free_list().contains(
                Rect {
                    x: 0,
                    y: old(self).spec_height(),
                    w: old(self).spec_width(),
                    h: (h - old(self).spec_height()) as u32,
                },
            ),
    {
        let ghost old_free = self.free_list();
        let old_w = self.width;
        let old_h = self.height;
        self.width = w;
        self.height = h;
        if w > old_w {
            let strip = Rect { x: old_w, y: 0, w: w - old_w, h };
            self.free_areas.push(strip);
        }
        if h > old_h {
            let strip = Rect { x: 0, y: old_h, w: old_w, h: h - old_h };
            self.free_areas.push(strip);
        }
        proof {
            let fl = self.free_list();
            assert forall|j: int| 0 <= j < old_free.len() implies fl.contains(
                #[trigger] old_free[j],
            ) by {
                assert(fl[j] == old_free[j]);
            }
            let rs = Rect { x: old_w, y: 0, w: (w - old_w) as u32, h };
            let bs = Rect { x: 0, y: old_h, w: old_w, h: (h - old_h) as u32 };
            assert forall|px: int, py: int|
                #![trigger seq_covers(fl, px, py)]
                #![trigger seq_covers(old_free, px, py)]
                seq_covers(fl, px, py) <==> (seq_covers(old_free, px, py) || rs.covers(px, py)
                || bs.covers(px, py)) by {
                if seq_covers(fl, px, py) {
                    let k = choose|k: int| 0 <= k < fl.len() && (#[trigger] fl[k]).covers(px, py);
                    if k < old_free.len() {
                        assert(old_free[k].covers(px, py));
                    }
                }
                if seq_covers(old_free, px, py) {
                    let j = choose|j: int|
                        0 <= j < old_free.len() && (#[trigger] old_free[j]).covers(px, py);
                    assert(fl[j].covers(px, py));
                }
                if rs.covers(px, py) {
                    assert(fl[old_free.len() as int].covers(px, py));
                }
                if bs.covers(px, py) {
                    assert(fl[fl.len() - 1].covers(px, py));
                }
            }

            if w > old_w {
                let strip = Rect { x: old_w, y: 0, w: (w - old_w) as u32, h };
                assert(fl[old_free.len() as int] == strip);
                assert(fl.contains(strip));
            }
            if h > old_h {
                let strip = Rect { x: 0, y: old_h, w: old_w, h: (h - old_h) as u32 };
                assert(fl[fl.len() - 1] == strip);
                assert(fl.contains(strip));
            }
        }
    }

    /// Reserves `val` extra cells in each dimension around every
    /// subsequent item.
    pub fn set_margin(&mut self, val: u32)
        ensures
            final(self).margin() == val,
            final(self).spec_width() == old(self).spec_width(),
            final(self).spec_height() == old(self).spec_height(),
            final(self).canvas() == old(self).canvas(),
            final(self).free_list() == old(self).free_list(),
            final(self).placements() == old(self).placements(),
            old(self).wf() ==> final(self).wf(),
    {
        self.margin = val;
    }

    /// Read-only access to the wrapped canvas.
    pub fn buf(&self) -> (r: &B)
        ensures
            *r == self.canvas(),
    {
        &self.buf
    }

    /// Mutable access to the wrapped canvas.
    pub fn buf_mut(&mut self) -> (r: &mut B)
        ensures
            *r == old(self).canvas(),
            final(self).canvas() == *final(r),
            final(self).spec_width() == old(self).spec_width(),
            final(self).spec_height() == old(self).spec_height(),
            final(self).margin() == old(self).margin(),
            final(self).free_list() == old(self).free_list(),
            final(self).placements() == old(self).placements(),
    {
        &mut self.buf
    }

    /// Reclaims the wrapped canvas, consuming the packer.
    pub fn into_buf(self) -> (r: B)
        ensures
            r == self.canvas(),
    {
        self.buf
    }

    /// Attempts to place `item` (margin added) in the smallest fitting
    /// free area, upright or rotated a quarter turn clockwise, copies its
    /// pixels there, and returns the placement with the margin excluded;
    /// returns nothing exactly when no free area fits the padded item.
    pub fn pack<O: Buffer2d<Pixel = B::Pixel>>(&mut self, item: &O) -> (r: Option<Rect>)
        requires
            old(self).wf(),
            item.spec_width() + old(self).margin() <= u32::MAX,
            item.spec_height() + old(self).margin() <= u32::MAX,
        ensures
            final(self).wf(),
            final(self).spec_width() == old(self).spec_width(),
            final(self).spec_height() == old(self).spec_height(),
            final(self).margin() == old(self).margin(),
            (r is Some) <==> exists|i: int|
                0 <= i < old(self).free_list().len() && fits_in(
                    #[trigger] old(self).free_list()[i],
                    item.spec_width() + old(self).margin(),
                    item.spec_height() + old(self).margin(),
                ),
            match r {
                Some(rect) => {
                    &&& exists|i: int|
                        {
                            &&& best_area_choice(
                                old(self).free_list(),
                                item.spec_width() + old(self).margin(),
                                item.spec_height() + old(self).margin(),
                                i,
                            )
                            &&& rect.x == (#[trigger] old(self).free_list()[i]).x
                            &&& rect.y == old(self).free_list()[i].y
                            &&& (if fits_upright(
                                old(self).free_list()[i],
                                item.spec_width() + old(self).margin(),
                                item.spec_height() + old(self).margin(),
                            ) {
                                rect.w == item.spec_width() && rect.h == item.spec_height()
                            } else {
                                rect.w == item.spec_height() && rect.h == item.spec_width()
                            })
                            &&& final(self).free_list() == old(self).free_list().remove(i)
                                + split_fragments(
                                old(self).free_list()[i],
                                padded(rect, old(self).margin()),
                            )
                        }
                    &&& final(self).placements() == old(self).placements().push(
                        padded(rect, old(self).margin()),
                    )
                    &&& padded(rect, old(self).margin()).within(
                        old(self).spec_width(),
                        old(self).spec_height(),
                    )
                    &&& forall|px: int, py: int| #![auto]
                        seq_covers(final(self).free_list(), px, py) <==> (seq_covers(
                            old(self).free_list(),
                            px,
                            py,
                        ) && !padded(rect, old(self).margin()).covers(px, py))
                    &&& (rect.w == item.spec_width() && rect.h == item.spec_height())
                        || (rect.w == item.spec_height() && rect.h == item.spec_width())
                    &&& (rect.w == item.spec_width() ==> patched(
                        old(self).canvas(),
                        final(self).canvas(),
                        rect.x,
                        rect.y,
                        *item,
                    ))
                    &&& (rect.w != item.spec_width() ==> patched_rotated(
                        old(self).canvas(),
                        final(self).canvas(),
                        rect.x,
                        rect.y,
                        *item,
                    ))
                },
                None => *final(self) == *old(self),
            },
    {
        let (mut width, mut height) = item.dimensions();
        width = width + self.margin;
        height = height + self.margin;

        match self.find_free_area(width, height) {
            Some((i, rect)) => {
                if width == rect.w {
                    patch(&mut self.buf, rect.x, rect.y, item);
                } else {
                    patch_rotated(&mut self.buf, rect.x, rect.y, item);
                }

                proof {
                    let area = self.free_list()[i as int];
                    assert(area.within(self.spec_width(), self.spec_height()));
                }
                self.split(i, &rect);
                proof {
                    self.placed@ = self.placed@.push(rect);
                }

                let result = Rect {
                    x: rect.x,
                    y: rect.y,
                    w: rect.w - self.margin,
                    h: rect.h - self.margin,
                };
                proof {
                    assert(padded(result, self.margin()) == rect);
                    let of = old(self).free_list();
                    let area = of[i as int];
                    assert(rect.x == area.x && rect.y == area.y && rect.w <= area.w && rect.h
                        <= area.h);
                    // the new footprint stays inside the consumed area,
                    // hence inside the extent and clear of older work
                    assert(area.spec_contains(rect));
                    assert(rect.within(old(self).spec_width(), old(self).spec_height()));
                    assert forall|q: int|
                        0 <= q < old(self).placements().len() implies !rect.overlaps(
                        #[trigger] old(self).placements()[q],
                    ) by {
                        assert(!area.overlaps(old(self).placements()[q]));
                    }
                    assert(all_within(
                        self.placements(),
                        self.spec_width(),
                        self.spec_height(),
                    ));
                    assert(pairwise_disjoint(self.placements()));
                    assert forall|k: int| 0 <= k < self.free_list().len() implies (
                    #[trigger] self.free_list()[k]).within(
                        self.spec_width(),
                        self.spec_height(),
                    ) by {
                        let f = self.free_list()[k];
                        if !exists|j: int| 0 <= j < of.len() && j != i && f == of[j] {
                            assert(area.spec_contains(f) && !f.overlaps(rect));
                        } else {
                            let j = choose|j: int| 0 <= j < of.len() && j != i && f == of[j];
                            assert(of[j].within(self.spec_width(), self.spec_height()));
                        }
                    }
                    assert forall|k: int, q: int|
                        0 <= k < self.free_list().len() && 0 <= q < self.placements().len() implies
                        !(#[trigger] self.free_list()[k]).overlaps(
                        #[trigger] self.placements()[q],
                    ) by {
                        let f = self.free_list()[k];
                        let p = self.placements()[q];
                        if exists|j: int| 0 <= j < of.len() && j != i && f == of[j] {
                            let j = choose|j: int| 0 <= j < of.len() && j != i && f == of[j];
                            if q < old(self).placements().len() {
                                assert(!of[j].overlaps(old(self).placements()[q]));
                            } else {
                                assert(p == rect);
                                assert(!of[j].overlaps(area));
                                assert(area.spec_contains(rect));
                            }
                        } else {
                            assert(area.spec_contains(f) && !f.overlaps(rect));
                            if q < old(self).placements().len() {
                                assert(!area.overlaps(old(self).placements()[q]));
                            }
                        }
                    }
                }
                Some(result)
            },
            None => None,
        }
    }
}

} // verus!
