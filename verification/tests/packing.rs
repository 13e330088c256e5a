use atlas_packer::{
    Buffer2d, GuillotinePacker, MaxrectPacker, PixelBuffer, Rect, ResizeBuffer, ShelfPacker,
};

fn blank(w: u32, h: u32) -> PixelBuffer<u16> {
    PixelBuffer::new(w, h, 0u16)
}

fn numbered(w: u32, h: u32) -> PixelBuffer<u16> {
    let mut b = PixelBuffer::new(w, h, 0u16);
    for sy in 0..h {
        for sx in 0..w {
            b.set(sx, sy, (100 * sx + sy + 1) as u16);
        }
    }
    b
}

fn overlaps(a: &Rect, b: &Rect) -> bool {
    a.w > 0 && a.h > 0 && b.w > 0 && b.h > 0
        && (a.x as u64) < (b.x as u64) + (b.w as u64)
        && (b.x as u64) < (a.x as u64) + (a.w as u64)
        && (a.y as u64) < (b.y as u64) + (b.h as u64)
        && (b.y as u64) < (a.y as u64) + (a.h as u64)
}

fn assert_disjoint_within(placed: &[Rect], w: u32, h: u32) {
    for (i, a) in placed.iter().enumerate() {
        assert!(a.x + a.w <= w && a.y + a.h <= h, "placement {:?} leaves {}x{}", a, w, h);
        for b in placed.iter().skip(i + 1) {
            assert!(!overlaps(a, b), "{:?} overlaps {:?}", a, b);
        }
    }
}

#[test]
fn guillotine_quadrants_fill_and_exhaust() {
    let mut p = GuillotinePacker::new(blank(100, 100));
    let item = blank(50, 50);
    let mut placed = Vec::new();
    for _ in 0..4 {
        placed.push(p.pack(&item).expect("quadrant must fit"));
    }
    assert_eq!(
        placed,
        vec![
            Rect::new(0, 0, 50, 50),
            Rect::new(0, 50, 50, 50),
            Rect::new(50, 0, 50, 50),
            Rect::new(50, 50, 50, 50),
        ]
    );
    assert_disjoint_within(&placed, 100, 100);
    assert_eq!(p.pack(&blank(1, 1)), None);
}

#[test]
fn maxrects_quadrants_fill_and_exhaust() {
    let mut p = MaxrectPacker::new(blank(100, 100));
    let item = blank(50, 50);
    let mut placed = Vec::new();
    for _ in 0..4 {
        placed.push(p.pack(&item).expect("quadrant must fit"));
    }
    assert_eq!(
        placed,
        vec![
            Rect::new(0, 0, 50, 50),
            Rect::new(50, 0, 50, 50),
            Rect::new(0, 50, 50, 50),
            Rect::new(50, 50, 50, 50),
        ]
    );
    assert_disjoint_within(&placed, 100, 100);
    assert_eq!(p.pack(&blank(1, 1)), None);
}

#[test]
fn oversized_item_always_fails() {
    let item = blank(150, 120);
    assert_eq!(GuillotinePacker::new(blank(100, 100)).pack(&item), None);
    assert_eq!(MaxrectPacker::new(blank(100, 100)).pack(&item), None);
    assert_eq!(ShelfPacker::new(blank(100, 100)).pack(&item), None);
    // too large in the rotated orientation as well
    let tall = blank(120, 150);
    assert_eq!(GuillotinePacker::new(blank(100, 100)).pack(&tall), None);
    assert_eq!(MaxrectPacker::new(blank(100, 100)).pack(&tall), None);
    assert_eq!(ShelfPacker::new(blank(100, 100)).pack(&tall), None);
}

#[test]
fn margin_reserves_but_reports_true_size() {
    let mut p = GuillotinePacker::new(blank(100, 100));
    p.set_margin(2);
    let first = p.pack(&blank(10, 5)).expect("fits");
    assert_eq!(first, Rect::new(0, 0, 10, 5));
    // the reserved footprint was 12x7, so the next item starts below it
    let second = p.pack(&blank(10, 5)).expect("fits");
    assert_eq!(second, Rect::new(0, 7, 10, 5));
}

#[test]
fn maxrects_sequence_reuses_merged_space() {
    let mut p = MaxrectPacker::new(blank(100, 100));
    assert_eq!(p.pack(&blank(50, 50)), Some(Rect::new(0, 0, 50, 50)));
    // top-then-left: the strip right of the first item wins over the one below
    assert_eq!(p.pack(&blank(50, 50)), Some(Rect::new(50, 0, 50, 50)));
    assert_eq!(p.pack(&blank(100, 50)), Some(Rect::new(0, 50, 100, 50)));
    assert_eq!(p.pack(&blank(1, 1)), None);
}

#[test]
fn maxrects_zero_canvas_rejects_everything() {
    let mut p = MaxrectPacker::new(blank(0, 0));
    assert_eq!(p.pack(&blank(0, 0)), None);
    assert_eq!(p.pack(&blank(1, 1)), None);
}

#[test]
fn guillotine_zero_item_keeps_space() {
    let mut p = GuillotinePacker::new(blank(10, 10));
    assert_eq!(p.pack(&blank(0, 0)), Some(Rect::new(0, 0, 0, 0)));
    assert_eq!(p.pack(&blank(10, 10)), Some(Rect::new(0, 0, 10, 10)));
}

#[test]
fn shelf_fills_one_shelf_then_advances() {
    let mut p = ShelfPacker::new(blank(100, 60));
    let item = blank(25, 25);
    for k in 0..4 {
        assert_eq!(p.pack(&item), Some(Rect::new(25 * k, 0, 25, 25)));
    }
    // the shelf is full: the next item opens a new shelf one item-height down
    assert_eq!(p.pack(&item), Some(Rect::new(0, 25, 25, 25)));
}

#[test]
fn shelf_stores_sideways_by_its_rules() {
    let mut p = ShelfPacker::new(blank(100, 100));
    // fresh shelf, taller than wide: stored sideways to keep the shelf low
    assert_eq!(p.pack(&blank(10, 40)), Some(Rect::new(0, 0, 40, 10)));
    // mid shelf, wider than tall and the height fits the remaining width
    assert_eq!(p.pack(&blank(30, 12)), Some(Rect::new(40, 0, 12, 30)));
}

#[test]
fn rotated_placement_maps_pixels_clockwise() {
    // the item fits a 30x10 canvas only rotated
    let mut p = GuillotinePacker::new(blank(30, 10));
    let src = numbered(10, 30);
    let placed = p.pack(&src).expect("fits rotated");
    assert_eq!(placed, Rect::new(0, 0, 30, 10));
    let canvas = p.into_buf();
    for sy in 0..30 {
        for sx in 0..10 {
            assert_eq!(
                canvas.get(placed.x + 30 - sy - 1, placed.y + sx),
                src.get(sx, sy),
                "source pixel ({}, {}) misplaced",
                sx,
                sy
            );
        }
    }
}

#[test]
fn growing_preserves_placements_and_opens_space() {
    let mut p = MaxrectPacker::new(blank(50, 50));
    let first_src = numbered(50, 50);
    assert_eq!(p.pack(&first_src), Some(Rect::new(0, 0, 50, 50)));
    assert_eq!(p.pack(&blank(10, 10)), None);

    p.buf_mut().resize(100, 50);
    p.set_dimensions(100, 50);

    // the prior placement is pixel-identical
    for sy in 0..50 {
        for sx in 0..50 {
            assert_eq!(p.buf().get(sx, sy), first_src.get(sx, sy));
        }
    }
    // an item that only fits the newly exposed strip now packs
    let second = p.pack(&blank(30, 40)).expect("fits in the new strip");
    assert_eq!(second, Rect::new(50, 0, 30, 40));
    // untouched new space keeps the fill value
    assert_eq!(p.buf().get(99, 49), Some(0));
}

#[test]
fn growing_guillotine_exposes_both_strips() {
    let mut p = GuillotinePacker::new(blank(40, 40));
    assert_eq!(p.pack(&blank(40, 40)), Some(Rect::new(0, 0, 40, 40)));
    assert_eq!(p.pack(&blank(5, 5)), None);
    p.buf_mut().resize(60, 70);
    p.set_dimensions(60, 70);
    // right strip is 20 wide and full height, bottom strip 40 by 30
    let right = p.pack(&blank(18, 65)).expect("fits the right strip");
    assert_eq!(right, Rect::new(40, 0, 18, 65));
    let bottom = p.pack(&blank(35, 28)).expect("fits the bottom strip");
    assert_eq!(bottom, Rect::new(0, 40, 35, 28));
}

#[test]
fn dimensions_and_reclaim() {
    let p = GuillotinePacker::new(blank(17, 23));
    assert_eq!(p.dimensions(), (17, 23));
    let buf = p.into_buf();
    assert_eq!(buf.dimensions(), (17, 23));

    let q = MaxrectPacker::new(blank(3, 4));
    assert_eq!(q.dimensions(), (3, 4));
    assert_eq!(q.into_buf().dimensions(), (3, 4));

    let r = ShelfPacker::new(blank(5, 6));
    assert_eq!(r.dimensions(), (5, 6));
    assert_eq!(r.into_buf().dimensions(), (5, 6));
}
