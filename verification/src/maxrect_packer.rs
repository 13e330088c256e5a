//! The maximal-rectangles packing strategy: top-then-left search over a
//! list of free rectangles that may overlap, split plus a full overlap
//! trim after every placement, and a containment cleanup pass.

use vstd::prelude::*;

use crate::buffer2d::{patch, patch_rotated, patched, patched_rotated, Buffer2d};
use crate::rect::{
    all_disjoint_from, all_positive, all_within, fits_in, fits_upright, no_containment, padded,
    pairwise_disjoint, seq_covers, Rect,
};

verus! {

/// Index `i` names the free area a top-then-left search for an item of
/// extent `(w, h)` settles on: the item fits it, no fitting area starts
/// higher or equally high and further left, and every earlier fitting
/// area starts strictly lower or equally high and further right.
pub open spec fn top_left_choice(free: Seq<Rect>, w: int, h: int, i: int) -> bool {
    &&& 0 <= i < free.len()
    &&& fits_in(free[i], w, h)
    &&& forall|j: int|
        0 <= j < free.len() && fits_in(#[trigger] free[j], w, h) ==> (free[i].y < free[j].y || (
        free[i].y == free[j].y && free[i].x <= free[j].x))
    &&& forall|j: int|
        0 <= j < i && fits_in(#[trigger] free[j], w, h) ==> (free[i].y < free[j].y || (free[i].y
            == free[j].y && free[i].x < free[j].x))
}

/// Packs items into a canvas by keeping possibly overlapping maximal
/// free rectangles: every placement is subtracted from the whole list,
/// and rectangles fully contained in another are pruned.
pub struct MaxrectPacker<B: Buffer2d> {
    buf: B,
    free_areas: Vec<Rect>,
    margin: u32,
    width: u32,
    height: u32,
    placed: Ghost<Seq<Rect>>,
}

impl<B: Buffer2d> MaxrectPacker<B> {
    /// Current logical packing width.
    pub closed spec fn spec_width(&self) -> u32 {
        self.width
    }

    /// Current logical packing height.
    pub closed spec fn spec_height(&self) -> u32 {
        self.height
    }

    /// The margin reserved around every subsequent item.
    pub closed spec fn margin(&self) -> u32 {
        self.margin
    }

    /// The wrapped canvas.
    pub closed spec fn canvas(&self) -> B {
        self.buf
    }

    /// The free areas still open for placement.
    pub closed spec fn free_list(&self) -> Seq<Rect> {
        self.free_areas@
    }

    /// The footprints (margin included) of all successful packs so far.
    pub closed spec fn placements(&self) -> Seq<Rect> {
        self.placed@
    }

    /// The packer's invariant: free areas and placements lie within the
    /// packing extent, every free area has extent and is clear of every
    /// placement, no free area is fully contained in another, and
    /// placements never overlap one another.
    pub open spec fn wf(&self) -> bool {
        &&& all_within(self.free_list(), self.spec_width(), self.spec_height())
        &&& all_within(self.placements(), self.spec_width(), self.spec_height())
        &&& all_positive(self.free_list())
        &&& no_containment(self.free_list())
        &&& pairwise_disjoint(self.placements())
        &&& all_disjoint_from(self.free_list(), self.placements())
    }

    /// Takes ownership of `buf`; the whole canvas starts free.
    pub fn new(buf: B) -> (p: Self)
        ensures
            p.wf(),
            p.spec_width() == buf.spec_width(),
            p.spec_height() == buf.spec_height(),
            p.margin() == 0,
            p.canvas() == buf,
            p.placements() == Seq::<Rect>::empty(),
            p.free_list() == (if buf.spec_width() > 0 && buf.spec_height() > 0 {
                seq![Rect { x: 0, y: 0, w: buf.spec_width(), h: buf.spec_height() }]
            } else {
                Seq::<Rect>::empty()
            }),
    {
        let (width, height) = buf.dimensions();
        let mut free_areas: Vec<Rect> = Vec::new();
        if width > 0 && height > 0 {
            free_areas.push(Rect { x: 0, y: 0, w: width, h: height });
        }
        let p = MaxrectPacker {
            width,
            height,
            buf,
            free_areas,
            margin: 0,
            placed: Ghost(Seq::empty()),
        };
        proof {
            if width > 0 && height > 0 {
                assert(p.free_list() == seq![Rect { x: 0, y: 0, w: width, h: height }]);
            }
        }
        p
    }

    /// Top-then-left search: among the free areas the item fits, upright
    /// or rotated, the one starting highest, ties broken leftmost, then
    /// by scan order; `rect` carries the chosen position and extent.
    fn find_free_area(&self, w: u32, h: u32) -> (r: Option<(usize, Rect)>)
        ensures
            match r {
                Some((i, rect)) => {
                    &&& top_left_choice(self.free_list(), w as int, h as int, i as int)
                    &&& rect.x == self.free_list()[i as int].x
                    &&& rect.y == self.free_list()[i as int].y
                    &&& (if fits_upright(self.free_list()[i as int], w as int, h as int) {
                        rect.w == w && rect.h == h
                    } else {
                        rect.w == h && rect.h == w
                    })
                },
                None => forall|j: int|
                    0 <= j < self.free_list().len()
                        ==> !fits_in(#[trigger] self.free_list()[j], w as int, h as int),
            },
    {
        let ghost free = self.free_list();
        let mut index: Option<usize> = None;
        let mut min_x: u32 = 0;
        let mut min_y: u32 = 0;
        let mut rect = Rect::new(0, 0, 0, 0);

        let n = self.free_areas.len();
        let mut i: usize = 0;
        while i < n
            invariant
                i <= n,
                n == free.len(),
                free == self.free_list(),
                match index {
                    Some(bi) => {
                        &&& bi < i
                        &&& fits_in(free[bi as int], w as int, h as int)
                        &&& min_x == free[bi as int].x
                        &&& min_y == free[bi as int].y
                        &&& rect.x == free[bi as int].x
                        &&& rect.y == free[bi as int].y
                        &&& (if fits_upright(free[bi as int], w as int, h as int) {
                            rect.w == w && rect.h == h
                        } else {
                            rect.w == h && rect.h == w
                        })
                        &&& forall|j: int|
                            0 <= j < i && fits_in(#[trigger] free[j], w as int, h as int) ==> (
                            free[bi as int].y < free[j].y || (free[bi as int].y == free[j].y
                                && free[bi as int].x <= free[j].x))
                        &&& forall|j: int|
                            0 <= j < bi && fits_in(#[trigger] free[j], w as int, h as int) ==> (
                            free[bi as int].y < free[j].y || (free[bi as int].y == free[j].y
                                && free[bi as int].x < free[j].x))
                    },
                    None => forall|j: int|
                        0 <= j < i ==> !fits_in(#[trigger] free[j], w as int, h as int),
                },
            decreases n - i,
        {
            let area = self.free_areas[i];

            if w <= area.w && h <= area.h {
                let better = match index {
                    None => true,
                    Some(_) => area.y < min_y || (area.y == min_y && area.x < min_x),
                };
                if better {
                    index = Some(i);
                    min_x = area.x;
                    min_y = area.y;
                    rect.x = area.x;
                    rect.y = area.y;
                    rect.w = w;
                    rect.h = h;
                }
            } else if h <= area.w && w <= area.h {
                let better = match index {
                    None => true,
                    Some(_) => area.y < min_y || (area.y == min_y && area.x < min_x),
                };
                if better {
                    index = Some(i);
                    min_x = area.x;
                    min_y = area.y;
                    rect.x = area.x;
                    rect.y = area.y;
                    rect.w = h;
                    rect.h = w;
                }
            }
            i = i + 1;
        }

        match index {
            Some(bi) => Some((bi, rect)),
            None => None,
        }
    }

    /// Consumes the free area at `index`, replaces it with its two
    /// split fragments, and subtracts `rect` from every free area in
    /// the list, since the areas may overlap it.
    fn split(&mut self, index: usize, rect: &Rect)
        requires
            index < old(self).free_list().len(),
            all_within(old(self).free_list(), old(self).spec_width(), old(self).spec_height()),
            rect.x == old(self).free_list()[index as int].x,
            rect.y == old(self).free_list()[index as int].y,
            rect.w <= old(self).free_list()[index as int].w,
            rect.h <= old(self).free_list()[index as int].h,
        ensures
            final(self).spec_width() == old(self).spec_width(),
            final(self).spec_height() == old(self).spec_height(),
            final(self).margin() == old(self).margin(),
            final(self).canvas() == old(self).canvas(),
            final(self).placements() == old(self).placements(),
            all_positive(final(self).free_list()),
            forall|k: int|
                0 <= k < final(self).free_list().len() ==> !(#[trigger] final(self).free_list()[k]).overlaps(*rect),
            forall|k: int| #![trigger final(self).free_list()[k]]
                0 <= k < final(self).free_list().len() ==> exists|j: int|
                    0 <= j < old(self).free_list().len() && (#[trigger] old(self).free_list()[j]).spec_contains(final(self).free_list()[k]),
            forall|px: int, py: int| #![auto]
                seq_covers(final(self).free_list(), px, py) <==> (seq_covers(
                    old(self).free_list(),
                    px,
                    py,
                ) && !rect.covers(px, py)),
    {
        let ghost old_free = self.free_list();
        let area = self.free_areas.remove(index);
        self.free_areas.push(Rect {
            x: area.x + rect.w,
            y: area.y,
            w: area.w - rect.w,
            h: area.h,
        });
        self.free_areas.push(Rect {
            x: area.x,
            y: area.y + rect.h,
            w: area.w,
            h: area.h - rect.h,
        });

        let ghost mid = self.free_list();
        proof {
            // Each intermediate area lies inside some original one, and
            // together they cover the original cells outside `rect`.
            assert forall|k: int| #![trigger mid[k]] 0 <= k < mid.len() implies exists|j: int|
                0 <= j < old_free.len() && (#[trigger] old_free[j]).spec_contains(mid[k]) by {
                if k < mid.len() - 2 {
                    let j = if k < index { k } else { k + 1 };
                    assert(mid[k] == old_free[j]);
                    assert(old_free[j].spec_contains(mid[k]));
                } else {
                    assert(old_free[index as int].spec_contains(mid[k]));
                }
            }
            assert forall|px: int, py: int|
                (seq_covers(old_free, px, py) && !rect.covers(px, py)) implies seq_covers(
                mid,
                px,
                py,
            ) by {
                let j = choose|j: int|
                    0 <= j < old_free.len() && (#[trigger] old_free[j]).covers(px, py);
                let n = old_free.len() as int;
                if j == index {
                    if px >= area.x + rect.w {
                        assert(mid[n - 1].covers(px, py));
                    } else {
                        assert(mid[n].covers(px, py));
                    }
                } else {
                    let k = if j < index { j } else { j - 1 };
                    assert(mid[k].covers(px, py));
                }
            }
            assert forall|px: int, py: int| seq_covers(mid, px, py) implies seq_covers(
                old_free,
                px,
                py,
            ) by {
                let k = choose|k: int| 0 <= k < mid.len() && (#[trigger] mid[k]).covers(px, py);
                let j = choose|j: int|
                    0 <= j < old_free.len() && (#[trigger] old_free[j]).spec_contains(mid[k]);
                assert(old_free[j].covers(px, py));
            }
        }

        let mut trimmed: Vec<Rect> = Vec::new();
        let n = self.free_areas.len();
        let mut i: usize = 0;
        while i < n
            invariant
                i <= n,
                n == mid.len(),
                mid == self.free_list(),
                all_within(old_free, old(self).spec_width(), old(self).spec_height()),
                forall|k: int| #![trigger mid[k]]
                    0 <= k < mid.len() ==> exists|j: int|
                        0 <= j < old_free.len() && (#[trigger] old_free[j]).spec_contains(mid[k]),
                all_positive(trimmed@),
                forall|t: int|
                    0 <= t < trimmed@.len() ==> !(#[trigger] trimmed@[t]).overlaps(*rect),
                forall|t: int| #![trigger trimmed@[t]]
                    0 <= t < trimmed@.len() ==> exists|j: int|
                        0 <= j < old_free.len() && (#[trigger] old_free[j]).spec_contains(
                            trimmed@[t],
                        ),
                forall|px: int, py: int|
                    #![trigger seq_covers(trimmed@, px, py)]
                    #![trigger rect.covers(px, py)]
                    seq_covers(trimmed@, px, py) <==> ((exists|k: int|
                        0 <= k < i && (#[trigger] mid[k]).covers(px, py)) && !rect.covers(px, py)),
            decreases n - i,
        {
            let ghost trimmed_before = trimmed@;
            let cur = self.free_areas[i];
            proof {
                let j = choose|j: int|
                    0 <= j < old_free.len() && (#[trigger] old_free[j]).spec_contains(
                        mid[i as int],
                    );
                assert(old_free[j].within(old(self).spec_width(), old(self).spec_height()));
            }
            let mut pieces = cur.crop(rect);
            let ghost pieces_view = pieces@;
            trimmed.append(&mut pieces);
            proof {
                let j = choose|j: int|
                    0 <= j < old_free.len() && (#[trigger] old_free[j]).spec_contains(
                        mid[i as int],
                    );
                assert forall|t: int| #![trigger trimmed@[t]] 0 <= t < trimmed@.len() implies {
                    &&& trimmed@[t].positive()
                    &&& !trimmed@[t].overlaps(*rect)
                    &&& exists|q: int|
                        0 <= q < old_free.len() && (#[trigger] old_free[q]).spec_contains(
                            trimmed@[t],
                        )
                } by {
                    if t < trimmed_before.len() {
                        assert(trimmed@[t] == trimmed_before[t]);
                    } else {
                        let p = trimmed@[t];
                        assert(p == pieces_view[t - trimmed_before.len()]);
                        assert(cur.spec_contains(p));
                        assert(old_free[j].spec_contains(p));
                    }
                }
                assert(trimmed@ == trimmed_before + pieces_view);
                assert forall|px: int, py: int|
                    #![trigger seq_covers(trimmed@, px, py)]
                    #![trigger rect.covers(px, py)]
                    seq_covers(trimmed@, px, py) <==> ((exists|k: int|
                    0 <= k < i + 1 && (#[trigger] mid[k]).covers(px, py)) && !rect.covers(
                    px,
                    py,
                )) by {
                    if seq_covers(trimmed@, px, py) {
                        let t = choose|t: int|
                            0 <= t < trimmed@.len() && (#[trigger] trimmed@[t]).covers(px, py);
                        if t < trimmed_before.len() {
                            assert(trimmed_before[t].covers(px, py));
                            assert(seq_covers(trimmed_before, px, py));
                            assert((exists|k: int|
                                0 <= k < i && (#[trigger] mid[k]).covers(px, py)) && !rect.covers(
                                px,
                                py,
                            ));
                            let k0 = choose|k: int|
                                0 <= k < i && (#[trigger] mid[k]).covers(px, py);
                            assert(0 <= k0 < i + 1 && mid[k0].covers(px, py));
                        } else {
                            assert(pieces_view[t - trimmed_before.len()].covers(px, py));
                            assert(seq_covers(pieces_view, px, py));
                            assert(cur.covers(px, py) && !rect.covers(px, py));
                            assert(mid[i as int].covers(px, py));
                        }
                    }
                    if (exists|k: int| 0 <= k < i + 1 && (#[trigger] mid[k]).covers(px, py))
                        && !rect.covers(px, py) {
                        let k = choose|k: int|
                            0 <= k < i + 1 && (#[trigger] mid[k]).covers(px, py);
                        if k < i {
                            assert(seq_covers(trimmed_before, px, py));
                            let t = choose|t: int|
                                0 <= t < trimmed_before.len() && (#[trigger] trimmed_before[t]).covers(
                                    px,
                                    py,
                                );
                            assert(trimmed@[t].covers(px, py));
                        } else {
                            assert(seq_covers(pieces_view, px, py));
                            let t = choose|t: int|
                                0 <= t < pieces_view.len() && (#[trigger] pieces_view[t]).covers(
                                    px,
                                    py,
                                );
                            assert(trimmed@[trimmed_before.len() + t].covers(px, py));
                        }
                    }
                }
            }
            i = i + 1;
        }
        self.free_areas = trimmed;
    }

    /// Containment cleanup: removes every free area fully contained in
    /// another, keeping the survivors in scan order; every removed area
    /// stays covered by a survivor.
    fn merge(&mut self)
        ensures
            final(self).spec_width() == old(self).spec_width(),
            final(self).spec_height() == old(self).spec_height(),
            final(self).margin() == old(self).margin(),
            final(self).canvas() == old(self).canvas(),
            final(self).placements() == old(self).placements(),
            no_containment(final(self).free_list()),
            forall|k: int|
                0 <= k < final(self).free_list().len() ==> old(self).free_list().contains(
                    #[trigger] final(self).free_list()[k],
                ),
            forall|px: int, py: int|
                #![trigger seq_covers(final(self).free_list(), px, py)]
                #![trigger seq_covers(old(self).free_list(), px, py)]
                seq_covers(final(self).free_list(), px, py) <==> seq_covers(
                    old(self).free_list(),
                    px,
                    py,
                ),
    {
        let ghost old_free = self.free_list();
        let mut kept: Vec<Rect> = Vec::new();
        let n = self.free_areas.len();
        let mut i: usize = 0;
        while i < n
            invariant
                i <= n,
                n == old_free.len(),
                old_free == self.free_list(),
                no_containment(kept@),
                forall|t: int|
                    0 <= t < kept@.len() ==> old_free.contains(#[trigger] kept@[t]),
                forall|j: int| #![trigger old_free[j]]
                    0 <= j < i ==> exists|t: int|
                        0 <= t < kept@.len() && (#[trigger] kept@[t]).spec_contains(old_free[j]),
            decreases n - i,
        {
            let cand = self.free_areas[i];
            proof {
                assert(old_free[i as int] == cand);
                assert(old_free.contains(cand));
            }

            // Is the candidate already covered by a kept area?
            let mut covered = false;
            let m = kept.len();
            let mut q: usize = 0;
            while q < m
                invariant
                    q <= m,
                    m == kept@.len(),
                    covered ==> exists|t: int|
                        0 <= t < kept@.len() && (#[trigger] kept@[t]).spec_contains(cand),
                    !covered ==> forall|t: int|
                        0 <= t < q ==> !(#[trigger] kept@[t]).spec_contains(cand),
                decreases m - q,
            {
                if kept[q].contains(&cand) {
                    covered = true;
                }
                q = q + 1;
            }

            if covered {
                proof {
                    let t = choose|t: int|
                        0 <= t < kept@.len() && (#[trigger] kept@[t]).spec_contains(cand);
                    assert forall|j: int| #![trigger old_free[j]] 0 <= j < i + 1 implies exists|
                        t2: int,
                    |
                        0 <= t2 < kept@.len() && (#[trigger] kept@[t2]).spec_contains(
                            old_free[j],
                        ) by {
                        if j == i {
                            assert(kept@[t].spec_contains(old_free[j]));
                        }
                    }
                }
            } else {
                // Drop every kept area the candidate swallows, then keep it.
                let ghost kept_before = kept@;
                let mut survivors: Vec<Rect> = Vec::new();
                let mut q2: usize = 0;
                while q2 < m
                    invariant
                        q2 <= m,
                        m == kept_before.len(),
                        kept_before == kept@,
                        no_containment(kept_before),
                        no_containment(survivors@),
                        forall|t: int| #![trigger survivors@[t]]
                            0 <= t < survivors@.len() ==> exists|u: int|
                                0 <= u < q2 && survivors@[t] == kept_before[u],
                        forall|t: int|
                            0 <= t < survivors@.len() ==> !cand.spec_contains(
                                #[trigger] survivors@[t],
                            ),
                        forall|u: int| #![trigger kept_before[u]]
                            0 <= u < q2 ==> (cand.spec_contains(kept_before[u]) || exists|t: int|
                                0 <= t < survivors@.len() && survivors@[t] == kept_before[u]),
                    decreases m - q2,
                {
                    let ghost sv_before = survivors@;
                    let keep_it = !cand.contains(&kept[q2]);
                    if keep_it {
                        survivors.push(kept[q2]);
                        proof {
                            let sv = survivors@;
                            let last = sv.len() - 1;
                            assert(sv[last] == kept_before[q2 as int]);
                            assert forall|t1: int, t2: int|
                                0 <= t1 < sv.len() && 0 <= t2 < sv.len() && t1 != t2 implies !(
                            #[trigger] sv[t1]).spec_contains(#[trigger] sv[t2]) by {
                                if t1 < last && t2 < last {
                                    assert(sv[t1] == sv_before[t1] && sv[t2] == sv_before[t2]);
                                } else if t1 == last && t2 < last {
                                    let u = choose|u: int|
                                        0 <= u < q2 && sv_before[t2] == kept_before[u];
                                    assert(sv[t2] == sv_before[t2]);
                                    assert(!kept_before[q2 as int].spec_contains(kept_before[u]));
                                } else if t2 == last && t1 < last {
                                    let u = choose|u: int|
                                        0 <= u < q2 && sv_before[t1] == kept_before[u];
                                    assert(sv[t1] == sv_before[t1]);
                                    assert(!kept_before[u].spec_contains(kept_before[q2 as int]));
                                }
                            }
                            assert forall|u: int| #![trigger kept_before[u]]
                                0 <= u < q2 + 1 implies (cand.spec_contains(kept_before[u])
                                || exists|t: int|
                                0 <= t < sv.len() && sv[t] == kept_before[u]) by {
                                if u == q2 {
                                    assert(sv[last] == kept_before[u]);
                                } else if !cand.spec_contains(kept_before[u]) {
                                    let t = choose|t: int|
                                        0 <= t < sv_before.len() && sv_before[t] == kept_before[u];
                                    assert(sv[t] == kept_before[u]);
                                }
                            }
                        }
                    }
                    q2 = q2 + 1;
                }
                let ghost sv_trimmed = survivors@;
                survivors.push(cand);
                proof {
                    let sv = survivors@;
                    let last = sv.len() - 1;
                    assert(sv[last] == cand);
                    // survivors stay free of mutual containment
                    assert forall|t1: int, t2: int|
                        0 <= t1 < sv.len() && 0 <= t2 < sv.len() && t1 != t2 implies !(
                        #[trigger] sv[t1]).spec_contains(#[trigger] sv[t2]) by {
                        if t1 < last && t2 < last {
                            assert(sv[t1] == sv_trimmed[t1] && sv[t2] == sv_trimmed[t2]);
                        } else if t1 == last && t2 < last {
                            assert(!cand.spec_contains(sv_trimmed[t2]));
                        } else if t2 == last && t1 < last {
                            let u = choose|u: int|
                                0 <= u < m && sv_trimmed[t1] == kept_before[u];
                            assert(!kept_before[u].spec_contains(cand));
                        }
                    }
                    // all old areas up to i stay covered
                    assert forall|j: int| #![trigger old_free[j]] 0 <= j < i + 1 implies exists|
                        t: int,
                    |
                        0 <= t < sv.len() && (#[trigger] sv[t]).spec_contains(old_free[j]) by {
                        if j == i {
                            assert(sv[last].spec_contains(old_free[j]));
                        } else {
                            let t0 = choose|t: int|
                                0 <= t < kept_before.len() && (#[trigger] kept_before[t]).spec_contains(
                                    old_free[j],
                                );
                            if cand.spec_contains(kept_before[t0]) {
                                assert(cand.spec_contains(old_free[j]));
                                assert(sv[last].spec_contains(old_free[j]));
                            } else {
                                let t1 = choose|t: int|
                                    0 <= t < sv_trimmed.len() && sv_trimmed[t] == kept_before[t0];
                                assert(sv[t1] == kept_before[t0]);
                                assert(sv[t1].spec_contains(old_free[j]));
                            }
                        }
                    }
                    assert forall|t: int| 0 <= t < sv.len() implies old_free.contains(
                        #[trigger] sv[t],
                    ) by {
                        if t < last {
                            let u = choose|u: int| 0 <= u < m && sv[t] == kept_before[u];
                            assert(old_free.contains(kept_before[u]));
                        }
                    }
                }
                kept = survivors;
            }
            i = i + 1;
        }
        let ghost kept_view = kept@;
        self.free_areas = kept;
        proof {
            assert(self.free_list() == kept_view);
            assert forall|px: int, py: int|
                #![trigger seq_covers(self.free_list(), px, py)]
                #![trigger seq_covers(old_free, px, py)]
                seq_covers(self.free_list(), px, py) <==> seq_covers(old_free, px, py) by {
                if seq_covers(self.free_list(), px, py) {
                    let t = choose|t: int|
                        0 <= t < self.free_list().len() && (#[trigger] self.free_list()[t]).covers(
                            px,
                            py,
                        );
                    assert(old_free.contains(self.free_list()[t]));
                    let j = choose|j: int|
                        0 <= j < old_free.len() && old_free[j] == self.free_list()[t];
                    assert(old_free[j].covers(px, py));
                }
                if seq_covers(old_free, px, py) {
                    let j = choose|j: int|
                        0 <= j < old_free.len() && (#[trigger] old_free[j]).covers(px, py);
                    let t = choose|t: int|
                        0 <= t < kept_view.len() && (#[trigger] kept_view[t]).spec_contains(
                            old_free[j],
                        );
                    assert(self.free_list()[t].covers(px, py));
                }
            }
        }
    }

    /// Placements returned by successful packs never overlap one
    /// another, and each lies within the packing extent.
    pub proof fn lemma_placements_valid(&self)
        requires
            self.wf(),
        ensures
            pairwise_disjoint(self.placements()),
            all_within(self.placements(), self.spec_width(), self.spec_height()),
    {
    }

    /// After every operation the cleanup pass's guarantee stands: no
    /// free area is fully contained in another.
    pub proof fn lemma_free_areas_uncontained(&self)
        requires
            self.wf(),
        ensures
            no_containment(self.free_list()),
    {
    }

    /// An item larger than the packing extent in every orientation fits
    /// no free area, so packing it always fails.
    pub proof fn lemma_oversized_never_fits(&self, w: int, h: int)
        requires
            self.wf(),
            w > self.spec_width() || h > self.spec_height(),
            h > self.spec_width() || w > self.spec_height(),
        ensures
            forall|i: int|
                0 <= i < self.free_list().len() ==> !fits_in(#[trigger] self.free_list()[i], w, h),
    {
        assert forall|i: int|
            0 <= i < self.free_list().len() implies !fits_in(
            #[trigger] self.free_list()[i],
            w,
            h,
        ) by {
            assert(self.free_list()[i].within(self.spec_width(), self.spec_height()));
        }
    }

    /// The current logical packing extent.
    pub fn dimensions(&self) -> (r: (u32, u32))
        ensures
            r.0 == self.spec_width(),
            r.1 == self.spec_height(),
    {
        (self.width, self.height)
    }

    /// Grows the logical packing extent; the newly exposed L-shaped
    /// region becomes free as a right strip of full new height and a
    /// bottom strip of the old width.
    pub fn set_dimensions(&mut self, w: u32, h: u32)
        requires
            old(self).wf(),
            w >= old(self).spec_width(),
            h >= old(self).spec_height(),
        ensures
            final(self).wf(),
            final(self).spec_width() == w,
            final(self).spec_height() == h,
            final(self).margin() == old(self).margin(),
            final(self).canvas() == old(self).canvas(),
            forall|px: int, py: int|
                #![trigger seq_covers(final(self).free_list(), px, py)]
                #![trigger seq_covers(old(self).free_list(), px, py)]
                seq_covers(final(self).free_list(), px, py) <==> (seq_covers(
                    old(self).free_list(),
                    px,
                    py,
                ) || (Rect {
                    x: old(self).spec_width(),
                    y: 0,
                    w: (w - old(self).spec_width()) as u32,
                    h,
                }).covers(px, py) || (Rect {
                    x: 0,
                    y: old(self).spec_height(),
                    w: old(self).spec_width(),
                    h: (h - old(self).spec_height()) as u32,
                }).covers(px, py)),
            final(self).placements() == old(self).placements(),
            forall|j: int|
                0 <= j < old(self).free_list().len() ==> final(self).free_list().contains(
                    #[trigger] old(self).free_list()[j],
                ),
            w > old(self).spec_width() && h > 0 ==> final(self).free_list().contains(
                Rect { x: old(self).spec_width(), y: 0, w: (w - old(self).spec_width()) as u32, h },
            ),
            h > old(self).spec_height() && old(self).spec_width() > 0 ==> final(self).free_list().contains(
                Rect {
                    x: 0,
                    y: old(self).spec_height(),
                    w: old(self).spec_width(),
                    h: (h - old(self).spec_height()) as u32,
                },
            ),
    {
        let ghost old_free = self.free_list();
        let old_w = self.width;
        let old_h = self.height;
        self.width = w;
        self.height = h;
        if w > old_w && h > 0 {
            let strip = Rect { x: old_w, y: 0, w: w - old_w, h };
            self.free_areas.push(strip);
        }
        if h > old_h && old_w > 0 {
            let strip = Rect { x: 0, y: old_h, w: old_w, h: h - old_h };
            self.free_areas.push(strip);
        }
        proof {
            let fl = self.free_list();
            assert forall|j: int| 0 <= j < old_free.len() implies fl.contains(
                #[trigger] old_free[j],
            ) by {
                assert(fl[j] == old_free[j]);
            }
            let rs = Rect { x: old_w, y: 0, w: (w - old_w) as u32, h };
            let bs = Rect { x: 0, y: old_h, w: old_w, h: (h - old_h) as u32 };
            assert forall|px: int, py: int|
                #![trigger seq_covers(fl, px, py)]
                #![trigger seq_covers(old_free, px, py)]
                seq_covers(fl, px, py) <==> (seq_covers(old_free, px, py) || rs.covers(px, py)
                || bs.covers(px, py)) by {
                if seq_covers(fl, px, py) {
                    let k = choose|k: int| 0 <= k < fl.len() && (#[trigger] fl[k]).covers(px, py);
                    if k < old_free.len() {
                        assert(old_free[k].covers(px, py));
                    }
                }
                if seq_covers(old_free, px, py) {
                    let j = choose|j: int|
                        0 <= j < old_free.len() && (#[trigger] old_free[j]).covers(px, py);
                    assert(fl[j].covers(px, py));
                }
                if rs.covers(px, py) {
                    assert(fl[old_free.len() as int].covers(px, py));
                }
                if bs.covers(px, py) {
                    assert(fl[fl.len() - 1].covers(px, py));
                }
            }

            if w > old_w && h > 0 {
                let strip = Rect { x: old_w, y: 0, w: (w - old_w) as u32, h };
                assert(fl[old_free.len() as int] == strip);
                assert(fl.contains(strip));
            }
            if h > old_h && old_w > 0 {
                let strip = Rect { x: 0, y: old_h, w: old_w, h: (h - old_h) as u32 };
                assert(fl[fl.len() - 1] == strip);
                assert(fl.contains(strip));
            }
            assert forall|i: int, j: int|
                0 <= i < fl.len() && 0 <= j < fl.len() && i != j implies !(
            #[trigger] fl[i]).spec_contains(#[trigger] fl[j]) by {
                let n = old_free.len() as int;
                if i < n && j < n {
                    assert(fl[i] == old_free[i] && fl[j] == old_free[j]);
                } else if i < n {
                    // a new strip reaches beyond the old extent, an old
                    // area cannot contain it
                    assert(old_free[i].within(old_w, old_h));
                } else if j < n {
                    // an old area has extent inside the old bounds, a
                    // strip starts at them
                    assert(old_free[j].within(old_w, old_h));
                    assert(old_free[j].positive());
                }
            }
        }
    }

    /// Reserves `val` extra cells in each dimension around every
    /// subsequent item.
    pub fn set_margin(&mut self, val: u32)
        ensures
            final(self).margin() == val,
            final(self).spec_width() == old(self).spec_width(),
            final(self).spec_height() == old(self).spec_height(),
            final(self).canvas() == old(self).canvas(),
            final(self).free_list() == old(self).free_list(),
            final(self).placements() == old(self).placements(),
            old(self).wf() ==> final(self).wf(),
    {
        self.margin = val;
    }

    /// Read-only access to the wrapped canvas.
    pub fn buf(&self) -> (r: &B)
        ensures
            *r == self.canvas(),
    {
        &self.buf
    }

    /// Mutable access to the wrapped canvas.
    pub fn buf_mut(&mut self) -> (r: &mut B)
        ensures
            *r == old(self).canvas(),
            final(self).canvas() == *final(r),
            final(self).spec_width() == old(self).spec_width(),
            final(self).spec_height() == old(self).spec_height(),
            final(self).margin() == old(self).margin(),
            final(self).free_list() == old(self).free_list(),
            final(self).placements() == old(self).placements(),
    {
        &mut self.buf
    }

    /// Reclaims the wrapped canvas, consuming the packer.
    pub fn into_buf(self) -> (r: B)
        ensures
            r == self.canvas(),
    {
        self.buf
    }

    /// Attempts to place `item` (margin added) in the highest, then
    /// leftmost fitting free area, upright or rotated a quarter turn
    /// clockwise, copies its pixels there, subtracts the placement from
    /// every free area and prunes contained ones, and returns the
    /// placement with the margin excluded; returns nothing exactly when
    /// no free area fits the padded item.
    pub fn pack<O: Buffer2d<Pixel = B::Pixel>>(&mut self, item: &O) -> (r: Option<Rect>)
        requires
            old(self).wf(),
            item.spec_width() + old(self).margin() <= u32::MAX,
            item.spec_height() + old(self).margin() <= u32::MAX,
        ensures
            final(self).wf(),
            final(self).spec_width() == old(self).spec_width(),
            final(self).spec_height() == old(self).spec_height(),
            final(self).margin() == old(self).margin(),
            (r is Some) <==> exists|i: int|
                0 <= i < old(self).free_list().len() && fits_in(
                    #[trigger] old(self).free_list()[i],
                    item.spec_width() + old(self).margin(),
                    item.spec_height() + old(self).margin(),
                ),
            match r {
                Some(rect) => {
                    &&& exists|i: int|
                        {
                            &&& top_left_choice(
                                old(self).free_list(),
                                item.spec_width() + old(self).margin(),
                                item.spec_height() + old(self).margin(),
                                i,
                            )
                            &&& rect.x == (#[trigger] old(self).free_list()[i]).x
                            &&& rect.y == old(self).free_list()[i].y
                            &&& (if fits_upright(
                                old(self).free_list()[i],
                                item.spec_width() + old(self).margin(),
                                item.spec_height() + old(self).margin(),
                            ) {
                                rect.w == item.spec_width() && rect.h == item.spec_height()
                            } else {
                                rect.w == item.spec_height() && rect.h == item.spec_width()
                            })
                        }
                    &&& final(self).placements() == old(self).placements().push(
                        padded(rect, old(self).margin()),
                    )
                    &&& padded(rect, old(self).margin()).within(
                        old(self).spec_width(),
                        old(self).spec_height(),
                    )
                    &&& forall|px: int, py: int| #![auto]
                        seq_covers(final(self).free_list(), px, py) <==> (seq_covers(
                            old(self).free_list(),
                            px,
                            py,
                        ) && !padded(rect, old(self).margin()).covers(px, py))
                    &&& (rect.w == item.spec_width() && rect.h == item.spec_height())
                        || (rect.w == item.spec_height() && rect.h == item.spec_width())
                    &&& (rect.w == item.spec_width() ==> patched(
                        old(self).canvas(),
                        final(self).canvas(),
                        rect.x,
                        rect.y,
                        *item,
                    ))
                    &&& (rect.w != item.spec_width() ==> patched_rotated(
                        old(self).canvas(),
                        final(self).canvas(),
                        rect.x,
                        rect.y,
                        *item,
                    ))
                },
                None => *final(self) == *old(self),
            },
    {
        let (mut width, mut height) = item.dimensions();
        width = width + self.margin;
        height = height + self.margin;

        match self.find_free_area(width, height) {
            Some((i, rect)) => {
                if width == rect.w {
                    patch(&mut self.buf, rect.x, rect.y, item);
                } else {
                    patch_rotated(&mut self.buf, rect.x, rect.y, item);
                }

                let ghost s0_free = old(self).free_list();
                let ghost area = s0_free[i as int];
                proof {
                    assert(area.within(self.spec_width(), self.spec_height()));
                    assert(area.spec_contains(rect));
                }
                self.split(i, &rect);
                let ghost s2_free = self.free_list();
                self.merge();
                proof {
                    self.placed@ = self.placed@.push(rect);
                }

                let result = Rect {
                    x: rect.x,
                    y: rect.y,
                    w: rect.w - self.margin,
                    h: rect.h - self.margin,
                };
                proof {
                    assert(padded(result, self.margin()) == rect);
                    let fl = self.free_list();
                    assert(rect.within(old(self).spec_width(), old(self).spec_height()));
                    assert forall|q: int|
                        0 <= q < old(self).placements().len() implies !rect.overlaps(
                        #[trigger] old(self).placements()[q],
                    ) by {
                        assert(!area.overlaps(old(self).placements()[q]));
                    }
                    // every remaining free area descends from an original
                    // one and stays clear of the new footprint
                    assert forall|k: int| 0 <= k < fl.len() implies {
                        &&& (#[trigger] fl[k]).positive()
                        &&& !fl[k].overlaps(rect)
                        &&& exists|j: int|
                            0 <= j < s0_free.len() && (#[trigger] s0_free[j]).spec_contains(fl[k])
                    } by {
                        assert(s2_free.contains(fl[k]));
                        let k2 = choose|k2: int| 0 <= k2 < s2_free.len() && s2_free[k2] == fl[k];
                        assert(s2_free[k2].positive());
                        assert(!s2_free[k2].overlaps(rect));
                        let j = choose|j: int|
                            0 <= j < s0_free.len() && (#[trigger] s0_free[j]).spec_contains(
                                s2_free[k2],
                            );
                        assert(s0_free[j].spec_contains(fl[k]));
                    }
                    assert forall|k: int| 0 <= k < fl.len() implies (#[trigger] fl[k]).within(
                        self.spec_width(),
                        self.spec_height(),
                    ) by {
                        let j = choose|j: int|
                            0 <= j < s0_free.len() && (#[trigger] s0_free[j]).spec_contains(fl[k]);
                        assert(s0_free[j].within(self.spec_width(), self.spec_height()));
                    }
                    assert forall|k: int, q: int|
                        0 <= k < fl.len() && 0 <= q < self.placements().len() implies !(
                    #[trigger] fl[k]).overlaps(#[trigger] self.placements()[q]) by {
                        let j = choose|j: int|
                            0 <= j < s0_free.len() && (#[trigger] s0_free[j]).spec_contains(fl[k]);
                        if q < old(self).placements().len() {
                            assert(!s0_free[j].overlaps(old(self).placements()[q]));
                        } else {
                            assert(self.placements()[q] == rect);
                            assert(!fl[k].overlaps(rect));
                        }
                    }
                    assert(all_within(self.placements(), self.spec_width(), self.spec_height()));
                    assert(pairwise_disjoint(self.placements()));
                }
                Some(result)
            },
            None => None,
        }
    }
}

} // verus!
