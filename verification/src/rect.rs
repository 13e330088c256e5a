//! Axis-aligned integer rectangles and the geometric predicates the
//! packing strategies are specified with.

use vstd::prelude::*;

verus! {

/// An axis-aligned rectangle with non-negative integer position and extents.
#[derive(Clone, Copy, Debug, PartialEq, Eq, Structural)]
pub struct Rect {
    pub x: u32,
    pub y: u32,
    pub w: u32,
    pub h: u32,
}

impl Rect {
    /// One past the right edge.
    pub open spec fn right(self) -> int {
        self.x + self.w
    }

    /// One past the bottom edge.
    pub open spec fn bottom(self) -> int {
        self.y + self.h
    }

    /// Number of unit cells inside the rectangle.
    pub open spec fn spec_area(self) -> int {
        self.w * self.h
    }

    /// Whether the unit cell at `(px, py)` lies inside the rectangle.
    pub open spec fn covers(self, px: int, py: int) -> bool {
        &&& self.x <= px < self.right()
        &&& self.y <= py < self.bottom()
    }

    /// Whether `other`'s bounds lie fully inside `self`'s bounds.
    pub open spec fn spec_contains(self, other: Rect) -> bool {
        &&& self.x <= other.x
        &&& self.y <= other.y
        &&& other.right() <= self.right()
        &&& other.bottom() <= self.bottom()
    }

    /// Whether the two rectangles share at least one unit cell.
    pub open spec fn overlaps(self, other: Rect) -> bool {
        &&& self.w > 0 && self.h > 0
        &&& other.w > 0 && other.h > 0
        &&& self.x < other.right()
        &&& other.x < self.right()
        &&& self.y < other.bottom()
        &&& other.y < self.bottom()
    }

    /// Whether the rectangle covers at least one unit cell.
    pub open spec fn positive(self) -> bool {
        self.w > 0 && self.h > 0
    }

    /// Whether the rectangle lies inside a canvas of the given extent.
    pub open spec fn within(self, w: u32, h: u32) -> bool {
        self.right() <= w && self.bottom() <= h
    }

    /// Two rectangles overlap exactly when some unit cell is in both.
    pub proof fn lemma_overlaps_iff_common_cell(self, other: Rect)
        ensures
            self.overlaps(other) <==> exists|px: int, py: int|
                self.covers(px, py) && other.covers(px, py),
    {
        if self.overlaps(other) {
            let px = if self.x >= other.x { self.x as int } else { other.x as int };
            let py = if self.y >= other.y { self.y as int } else { other.y as int };
            assert(self.covers(px, py) && other.covers(px, py));
        }
    }

    pub fn new(x: u32, y: u32, w: u32, h: u32) -> (r: Rect)
        ensures
            r == (Rect { x, y, w, h }),
    {
        Rect { x, y, w, h }
    }

    /// The rectangle's area, exact even when `w * h` exceeds `u32`.
    pub fn area(&self) -> (r: u64)
        ensures
            r == self.spec_area(),
    {
        proof {
            assert((self.w as u64) * (self.h as u64) <= 0xffff_ffffu64 * 0xffff_ffffu64)
                by (nonlinear_arith)
                requires
                    self.w <= 0xffff_ffffu64,
                    self.h <= 0xffff_ffffu64,
            ;
        }
        (self.w as u64) * (self.h as u64)
    }

    /// Whether `other` lies fully inside `self`.
    pub fn contains(&self, other: &Rect) -> (r: bool)
        ensures
            r == self.spec_contains(*other),
    {
        self.x <= other.x && self.y <= other.y
            && (other.x as u64) + (other.w as u64) <= (self.x as u64) + (self.w as u64)
            && (other.y as u64) + (other.h as u64) <= (self.y as u64) + (self.h as u64)
    }

    /// The parts of `self` that remain after removing the region shared
    /// with `other`: zero, one or several sub-rectangles of `self`, none
    /// of them overlapping `other`, together covering exactly the cells
    /// of `self` outside `other`.
    pub fn crop(&self, other: &Rect) -> (out: Vec<Rect>)
        requires
            self.right() <= u32::MAX,
            self.bottom() <= u32::MAX,
        ensures
            forall|k: int| 0 <= k < out@.len() ==> {
                &&& (#[trigger] out@[k]).positive()
                &&& self.spec_contains(out@[k])
                &&& !out@[k].overlaps(*other)
            },
            forall|px: int, py: int|
                seq_covers(out@, px, py) <==> self.covers(px, py) && !other.covers(px, py),
    {
        let sx1: u64 = self.x as u64;
        let sy1: u64 = self.y as u64;
        let sx2: u64 = self.x as u64 + self.w as u64;
        let sy2: u64 = self.y as u64 + self.h as u64;
        let ox1: u64 = other.x as u64;
        let oy1: u64 = other.y as u64;
        let ox2: u64 = other.x as u64 + other.w as u64;
        let oy2: u64 = other.y as u64 + other.h as u64;

        let ix1: u64 = if sx1 >= ox1 { sx1 } else { ox1 };
        let iy1: u64 = if sy1 >= oy1 { sy1 } else { oy1 };
        let ix2: u64 = if sx2 <= ox2 { sx2 } else { ox2 };
        let iy2: u64 = if sy2 <= oy2 { sy2 } else { oy2 };

        let mut out: Vec<Rect> = Vec::new();
        if ix1 >= ix2 || iy1 >= iy2 {
            // No shared cell: all of `self` remains.
            if self.w > 0 && self.h > 0 {
                out.push(*self);
            }
            proof {
                assert forall|px: int, py: int|
                    seq_covers(out@, px, py) <==> self.covers(px, py) && !other.covers(px, py)
                by {
                    if self.covers(px, py) {
                        assert(!other.covers(px, py));
                        assert(out@[0].covers(px, py));
                    }
                }
            }
        } else {
            // Strip to the left of the shared region, full height.
            if ix1 > sx1 {
                out.push(Rect {
                    x: self.x,
                    y: self.y,
                    w: (ix1 - sx1) as u32,
                    h: self.h,
                });
            }
            // Strip to the right of the shared region, full height.
            if ix2 < sx2 {
                out.push(Rect {
                    x: ix2 as u32,
                    y: self.y,
                    w: (sx2 - ix2) as u32,
                    h: self.h,
                });
            }
            // Strip above the shared region, its width only.
            if iy1 > sy1 {
                out.push(Rect {
                    x: ix1 as u32,
                    y: self.y,
                    w: (ix2 - ix1) as u32,
                    h: (iy1 - sy1) as u32,
                });
            }
            // Strip below the shared region, its width only.
            if iy2 < sy2 {
                out.push(Rect {
                    x: ix1 as u32,
                    y: iy2 as u32,
                    w: (ix2 - ix1) as u32,
                    h: (sy2 - iy2) as u32,
                });
            }
            proof {
                assert forall|px: int, py: int|
                    seq_covers(out@, px, py) <==> self.covers(px, py) && !other.covers(px, py)
                by {
                    if self.covers(px, py) && !other.covers(px, py) {
                        if px < ix1 {
                            assert(seq_covers(out@, px, py)) by {
                                assert(out@[0].covers(px, py));
                            }
                        } else if px >= ix2 {
                            let k = if ix1 > sx1 { 1int } else { 0int };
                            assert(out@[k].covers(px, py));
                        } else if py < iy1 {
                            let k = (if ix1 > sx1 { 1int } else { 0int })
                                + (if ix2 < sx2 { 1int } else { 0int });
                            assert(out@[k].covers(px, py));
                        } else if py >= iy2 {
                            let k = out@.len() - 1;
                            assert(out@[k].covers(px, py));
                        } else {
                            assert(other.covers(px, py));
                        }
                    }
                }
            }
        }
        out
    }
}

/// Whether some rectangle of the sequence covers the unit cell at `(px, py)`.
pub open spec fn seq_covers(rs: Seq<Rect>, px: int, py: int) -> bool {
    exists|i: int| 0 <= i < rs.len() && (#[trigger] rs[i]).covers(px, py)
}

/// Every rectangle of the sequence lies inside a canvas of extent `(w, h)`.
pub open spec fn all_within(rs: Seq<Rect>, w: u32, h: u32) -> bool {
    forall|i: int| 0 <= i < rs.len() ==> (#[trigger] rs[i]).within(w, h)
}

/// Every rectangle of the sequence covers at least one cell.
pub open spec fn all_positive(rs: Seq<Rect>) -> bool {
    forall|i: int| 0 <= i < rs.len() ==> (#[trigger] rs[i]).positive()
}

/// No two distinct rectangles of the sequence share a cell.
pub open spec fn pairwise_disjoint(rs: Seq<Rect>) -> bool {
    forall|i: int, j: int|
        0 <= i < rs.len() && 0 <= j < rs.len() && i != j
            ==> !(#[trigger] rs[i]).overlaps(#[trigger] rs[j])
}

/// No rectangle of the first sequence shares a cell with one of the second.
pub open spec fn all_disjoint_from(rs: Seq<Rect>, ps: Seq<Rect>) -> bool {
    forall|i: int, j: int|
        0 <= i < rs.len() && 0 <= j < ps.len()
            ==> !(#[trigger] rs[i]).overlaps(#[trigger] ps[j])
}

/// No rectangle of the sequence lies fully inside another one of it.
pub open spec fn no_containment(rs: Seq<Rect>) -> bool {
    forall|i: int, j: int|
        0 <= i < rs.len() && 0 <= j < rs.len() && i != j
            ==> !(#[trigger] rs[i]).spec_contains(#[trigger] rs[j])
}

/// `r` widened by `m` cells to the right and below: the free-space
/// footprint a placement of `r` reserves under margin `m`.
pub open spec fn padded(r: Rect, m: u32) -> Rect {
    Rect { x: r.x, y: r.y, w: (r.w + m) as u32, h: (r.h + m) as u32 }
}

/// Whether an item of extent `(w, h)` fits the free area `a`, upright or
/// rotated a quarter turn.
pub open spec fn fits_in(a: Rect, w: int, h: int) -> bool {
    (w <= a.w && h <= a.h) || (h <= a.w && w <= a.h)
}

/// Whether an item of extent `(w, h)` fits the free area `a` upright.
pub open spec fn fits_upright(a: Rect, w: int, h: int) -> bool {
    w <= a.w && h <= a.h
}

} // verus!
