//! The pixel-addressable canvas the packing strategies draw on: a trait
//! for rasters with block copy (upright and quarter-turn rotated), and a
//! concrete growable raster backed by vectors.

use vstd::prelude::*;

verus! {

/// `new_dst` is `old_dst` with the block `src` copied in at offset
/// `(x, y)` upright; source pixels falling outside `new_dst` are skipped.
pub open spec fn patched<A: Buffer2d, O: Buffer2d<Pixel = A::Pixel>>(
    old_dst: A,
    new_dst: A,
    x: u32,
    y: u32,
    src: O,
) -> bool {
    &&& new_dst.spec_width() == old_dst.spec_width()
    &&& new_dst.spec_height() == old_dst.spec_height()
    &&& forall|i: int, j: int|
        0 <= i < new_dst.spec_width() && 0 <= j < new_dst.spec_height()
            ==> #[trigger] new_dst.spec_at(i, j) == (
                if x <= i < x + src.spec_width() && y <= j < y + src.spec_height() {
                    src.spec_at(i - x, j - y)
                } else {
                    old_dst.spec_at(i, j)
                })
}

/// `new_dst` is `old_dst` with the block `src` copied in at offset
/// `(x, y)` rotated a quarter turn clockwise: source pixel `(sx, sy)`
/// lands on `(x + src_height - sy - 1, y + sx)`; pixels falling outside
/// `new_dst` are skipped.
pub open spec fn patched_rotated<A: Buffer2d, O: Buffer2d<Pixel = A::Pixel>>(
    old_dst: A,
    new_dst: A,
    x: u32,
    y: u32,
    src: O,
) -> bool {
    &&& new_dst.spec_width() == old_dst.spec_width()
    &&& new_dst.spec_height() == old_dst.spec_height()
    &&& forall|i: int, j: int|
        0 <= i < new_dst.spec_width() && 0 <= j < new_dst.spec_height()
            ==> #[trigger] new_dst.spec_at(i, j) == (
                if x <= i < x + src.spec_height() && y <= j < y + src.spec_width() {
                    src.spec_at(j - y, x + src.spec_height() - 1 - i)
                } else {
                    old_dst.spec_at(i, j)
                })
}

/// A raster of pixels, addressed by column `x` and row `y` from the top
/// left corner.
pub trait Buffer2d: Sized {
    type Pixel;

    /// Number of pixel columns.
    spec fn spec_width(&self) -> u32;

    /// Number of pixel rows.
    spec fn spec_height(&self) -> u32;

    /// The pixel at column `x`, row `y` (meaningful inside the bounds).
    spec fn spec_at(&self, x: int, y: int) -> Self::Pixel;

    fn width(&self) -> (r: u32)
        ensures
            r == self.spec_width(),
    ;

    fn height(&self) -> (r: u32)
        ensures
            r == self.spec_height(),
    ;

    /// The pixel at `(x, y)`, or nothing when the position lies outside
    /// the raster; never an error.
    fn get(&self, x: u32, y: u32) -> (r: Option<Self::Pixel>)
        ensures
            x < self.spec_width() && y < self.spec_height()
                ==> r == Some(self.spec_at(x as int, y as int)),
            !(x < self.spec_width() && y < self.spec_height()) ==> r is None,
    ;

    /// Writes the pixel at `(x, y)`, which must lie inside the raster.
    fn set(&mut self, x: u32, y: u32, val: Self::Pixel)
        requires
            x < old(self).spec_width(),
            y < old(self).spec_height(),
        ensures
            final(self).spec_width() == old(self).spec_width(),
            final(self).spec_height() == old(self).spec_height(),
            final(self).spec_at(x as int, y as int) == val,
            forall|i: int, j: int|
                0 <= i < old(self).spec_width() && 0 <= j < old(self).spec_height()
                    && !(i == x && j == y)
                    ==> #[trigger] final(self).spec_at(i, j) == old(self).spec_at(i, j),
    ;

    fn dimensions(&self) -> (r: (u32, u32))
        ensures
            r.0 == self.spec_width(),
            r.1 == self.spec_height(),
    {
        (self.width(), self.height())
    }

}

/// Copies every pixel of `buf` into `dst` at offset `(x, y)`; source
/// pixels that land outside `dst` are silently skipped.
pub fn patch<A: Buffer2d, O: Buffer2d<Pixel = A::Pixel>>(dst: &mut A, x: u32, y: u32, buf: &O)
    ensures
        patched(*old(dst), *final(dst), x, y, *buf),
{
    let (w, h) = buf.dimensions();
    let dw = dst.width();
    let dh = dst.height();

        let mut sy: u32 = 0;
        while sy < h
            invariant
                sy <= h,
                w == buf.spec_width(),
                h == buf.spec_height(),
                dw == dst.spec_width(),
                dh == dst.spec_height(),
                dst.spec_width() == old(dst).spec_width(),
                dst.spec_height() == old(dst).spec_height(),
                forall|i: int, j: int|
                    0 <= i < dw && 0 <= j < dh
                        ==> #[trigger] dst.spec_at(i, j) == (
                            if x <= i < x + w && y <= j < y + sy {
                                buf.spec_at(i - x, j - y)
                            } else {
                                old(dst).spec_at(i, j)
                            }),
            decreases h - sy,
        {
            let mut sx: u32 = 0;
            while sx < w
                invariant
                    sx <= w,
                    sy < h,
                    w == buf.spec_width(),
                    h == buf.spec_height(),
                    dw == dst.spec_width(),
                    dh == dst.spec_height(),
                    dst.spec_width() == old(dst).spec_width(),
                    dst.spec_height() == old(dst).spec_height(),
                    forall|i: int, j: int|
                        0 <= i < dw && 0 <= j < dh
                            ==> #[trigger] dst.spec_at(i, j) == (
                                if (x <= i < x + w && y <= j < y + sy)
                                    || (j == y + sy && x <= i < x + sx) {
                                    buf.spec_at(i - x, j - y)
                                } else {
                                    old(dst).spec_at(i, j)
                                }),
                decreases w - sx,
            {
                match buf.get(sx, sy) {
                    Some(val) => {
                        let dx: u64 = x as u64 + sx as u64;
                        let dy: u64 = y as u64 + sy as u64;
                        if dx < dw as u64 && dy < dh as u64 {
                            dst.set(dx as u32, dy as u32, val);
                        }
                    },
                    None => {},
                }
                sx = sx + 1;
            }
            sy = sy + 1;
        }
    }

/// Copies `buf` rotated a quarter turn clockwise into `dst`: source
/// pixel `(sx, sy)` lands on `(x + h - sy - 1, y + sx)` for a source
/// of height `h`; pixels that land outside `dst` are skipped.
pub fn patch_rotated<A: Buffer2d, O: Buffer2d<Pixel = A::Pixel>>(dst: &mut A, x: u32, y: u32, buf: &O)
    ensures
        patched_rotated(*old(dst), *final(dst), x, y, *buf),
{
    let (w, h) = buf.dimensions();
    let dw = dst.width();
    let dh = dst.height();

        let mut sy: u32 = 0;
        while sy < h
            invariant
                sy <= h,
                w == buf.spec_width(),
                h == buf.spec_height(),
                dw == dst.spec_width(),
                dh == dst.spec_height(),
                dst.spec_width() == old(dst).spec_width(),
                dst.spec_height() == old(dst).spec_height(),
                forall|i: int, j: int|
                    0 <= i < dw && 0 <= j < dh
                        ==> #[trigger] dst.spec_at(i, j) == (
                            if x + h - sy <= i < x + h && y <= j < y + w {
                                buf.spec_at(j - y, x + h - 1 - i)
                            } else {
                                old(dst).spec_at(i, j)
                            }),
            decreases h - sy,
        {
            let mut sx: u32 = 0;
            while sx < w
                invariant
                    sx <= w,
                    sy < h,
                    w == buf.spec_width(),
                    h == buf.spec_height(),
                    dw == dst.spec_width(),
                    dh == dst.spec_height(),
                    dst.spec_width() == old(dst).spec_width(),
                    dst.spec_height() == old(dst).spec_height(),
                    forall|i: int, j: int|
                        0 <= i < dw && 0 <= j < dh
                            ==> #[trigger] dst.spec_at(i, j) == (
                                if (x + h - sy <= i < x + h && y <= j < y + w)
                                    || (i == x + h - sy - 1 && y <= j < y + sx) {
                                    buf.spec_at(j - y, x + h - 1 - i)
                                } else {
                                    old(dst).spec_at(i, j)
                                }),
                decreases w - sx,
            {
                match buf.get(sx, sy) {
                    Some(val) => {
                        let dx: u64 = x as u64 + h as u64 - sy as u64 - 1;
                        let dy: u64 = y as u64 + sx as u64;
                        if dx < dw as u64 && dy < dh as u64 {
                            dst.set(dx as u32, dy as u32, val);
                        }
                    },
                    None => {},
                }
                sx = sx + 1;
            }
            sy = sy + 1;
        }
    }

/// Rotation correctness: after a quarter-turn copy whose whole landing
/// block lies inside the destination, each source pixel `(sx, sy)` is
/// found at `(x + src_height - sy - 1, y + sx)`.
pub proof fn lemma_rotated_pixel<A: Buffer2d, O: Buffer2d<Pixel = A::Pixel>>(
    old_dst: A,
    new_dst: A,
    x: u32,
    y: u32,
    src: O,
    sx: int,
    sy: int,
)
    requires
        patched_rotated(old_dst, new_dst, x, y, src),
        0 <= sx < src.spec_width(),
        0 <= sy < src.spec_height(),
        x + src.spec_height() <= new_dst.spec_width(),
        y + src.spec_width() <= new_dst.spec_height(),
    ensures
        new_dst.spec_at(x + src.spec_height() - sy - 1, y + sx) == src.spec_at(sx, sy),
{
}

/// A raster that can grow in place.
pub trait ResizeBuffer: Buffer2d {
    /// Replaces the raster with one of the given extent, keeping the
    /// content of the cells present in both extents bit for bit.
    fn resize(&mut self, width: u32, height: u32)
        ensures
            final(self).spec_width() == width,
            final(self).spec_height() == height,
            forall|i: int, j: int|
                0 <= i < width && 0 <= j < height
                    && i < old(self).spec_width() && j < old(self).spec_height()
                    ==> #[trigger] final(self).spec_at(i, j) == old(self).spec_at(i, j),
    ;
}

/// A concrete raster: rows of pixels, with a fill value that newly
/// exposed cells take when the raster grows.
pub struct PixelBuffer<P> {
    width: u32,
    height: u32,
    fill: P,
    rows: Vec<Vec<P>>,
}

impl<P> PixelBuffer<P> {
    #[verifier::type_invariant]
    spec fn inv(self) -> bool {
        &&& self.rows@.len() == self.height
        &&& forall|j: int|
            0 <= j < self.rows@.len() ==> (#[trigger] self.rows@[j])@.len() == self.width
    }

    /// The pixel value newly exposed cells take.
    pub closed spec fn spec_fill(&self) -> P {
        self.fill
    }
}

impl<P: Copy> PixelBuffer<P> {
    /// A raster of the given extent with every pixel set to `fill`.
    pub fn new(width: u32, height: u32, fill: P) -> (r: Self)
        ensures
            r.spec_width() == width,
            r.spec_height() == height,
            r.spec_fill() == fill,
            forall|i: int, j: int|
                0 <= i < width && 0 <= j < height ==> #[trigger] r.spec_at(i, j) == fill,
    {
        let mut rows: Vec<Vec<P>> = Vec::new();
        let mut j: u32 = 0;
        while j < height
            invariant
                j <= height,
                rows@.len() == j,
                forall|q: int| 0 <= q < j ==> (#[trigger] rows@[q])@.len() == width,
                forall|q: int, i: int|
                    0 <= q < j && 0 <= i < width ==> #[trigger] rows@[q]@[i] == fill,
            decreases height - j,
        {
            let mut row: Vec<P> = Vec::new();
            let mut i: u32 = 0;
            while i < width
                invariant
                    i <= width,
                    row@.len() == i,
                    forall|q: int| 0 <= q < i ==> #[trigger] row@[q] == fill,
                decreases width - i,
            {
                row.push(fill);
                i = i + 1;
            }
            rows.push(row);
            j = j + 1;
        }
        PixelBuffer { width, height, fill, rows }
    }
}

impl<P: Copy> Buffer2d for PixelBuffer<P> {
    type Pixel = P;

    closed spec fn spec_width(&self) -> u32 {
        self.width
    }

    closed spec fn spec_height(&self) -> u32 {
        self.height
    }

    closed spec fn spec_at(&self, x: int, y: int) -> P {
        self.rows@[y]@[x]
    }

    fn width(&self) -> u32 {
        self.width
    }

    fn height(&self) -> u32 {
        self.height
    }

    fn get(&self, x: u32, y: u32) -> Option<P> {
        proof {
            use_type_invariant(&*self);
        }
        if x < self.width && y < self.height {
            Some(self.rows[y as usize][x as usize])
        } else {
            None
        }
    }

    fn set(&mut self, x: u32, y: u32, val: P) {
        proof {
            use_type_invariant(&*self);
        }
        row_put(&mut self.rows, x as usize, y as usize, val);
    }
}

/// Writes one element of a row of a row-major pixel grid.
fn row_put<P>(rows: &mut Vec<Vec<P>>, x: usize, y: usize, val: P)
    requires
        y < old(rows)@.len(),
        x < old(rows)@[y as int]@.len(),
    ensures
        final(rows)@.len() == old(rows)@.len(),
        final(rows)@[y as int]@ == old(rows)@[y as int]@.update(x as int, val),
        forall|q: int|
            0 <= q < old(rows)@.len() && q != y ==> final(rows)@[q] == old(rows)@[q],
    no_unwind
{
    let row: &mut Vec<P> = &mut rows[y];
    let cell: &mut P = &mut row[x];
    *cell = val;
}

impl<P: Copy> ResizeBuffer for PixelBuffer<P> {
    fn resize(&mut self, width: u32, height: u32)
        ensures
            final(self).spec_fill() == old(self).spec_fill(),
            forall|i: int, j: int|
                0 <= i < width && 0 <= j < height
                    && !(i < old(self).spec_width() && j < old(self).spec_height())
                    ==> #[trigger] final(self).spec_at(i, j) == old(self).spec_fill(),
    {
        let fill = self.fill;
        let mut grown = PixelBuffer::new(width, height, fill);
        patch(&mut grown, 0, 0, &*self);
        proof {
            use_type_invariant(&grown);
        }
        let ghost snapshot = grown;
        *self = PixelBuffer { width, height, fill, rows: grown.rows };
        proof {
            assert forall|i: int, j: int| 0 <= i < width && 0 <= j < height implies
                #[trigger] self.spec_at(i, j) == snapshot.spec_at(i, j) by {}
        }
    }
}

} // verus!
