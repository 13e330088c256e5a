use atlas_packer::buffer2d::{patch, patch_rotated};
use atlas_packer::{Buffer2d, PixelBuffer, ResizeBuffer};

fn numbered(w: u32, h: u32) -> PixelBuffer<u16> {
    let mut b = PixelBuffer::new(w, h, 0u16);
    for sy in 0..h {
        for sx in 0..w {
            b.set(sx, sy, (100 * sx + sy) as u16);
        }
    }
    b
}

#[test]
fn get_inside_and_outside() {
    let b = numbered(4, 3);
    assert_eq!(b.width(), 4);
    assert_eq!(b.height(), 3);
    assert_eq!(b.dimensions(), (4, 3));
    assert_eq!(b.get(2, 1), Some(201));
    assert_eq!(b.get(4, 0), None);
    assert_eq!(b.get(0, 3), None);
}

#[test]
fn patch_copies_block_upright() {
    let mut dest = PixelBuffer::new(10, 10, 9999u16);
    let src = numbered(3, 2);
    patch(&mut dest, 4, 5, &src);
    for sy in 0..2 {
        for sx in 0..3 {
            assert_eq!(dest.get(4 + sx, 5 + sy), Some((100 * sx + sy) as u16));
        }
    }
    assert_eq!(dest.get(3, 5), Some(9999));
    assert_eq!(dest.get(7, 5), Some(9999));
    assert_eq!(dest.get(4, 4), Some(9999));
    assert_eq!(dest.get(4, 7), Some(9999));
}

#[test]
fn patch_skips_out_of_bounds_pixels() {
    let mut dest = PixelBuffer::new(5, 5, 7u16);
    let src = numbered(4, 4);
    patch(&mut dest, 3, 3, &src);
    // only the top left 2x2 corner of the source lands inside
    assert_eq!(dest.get(3, 3), Some(0));
    assert_eq!(dest.get(4, 3), Some(100));
    assert_eq!(dest.get(3, 4), Some(1));
    assert_eq!(dest.get(4, 4), Some(101));
    assert_eq!(dest.get(2, 2), Some(7));
}

#[test]
fn patch_rotated_quarter_turn_clockwise() {
    let mut dest = PixelBuffer::new(10, 10, 0u16);
    let src = numbered(2, 3);
    // source pixel (sx, sy) lands on (x + h - sy - 1, y + sx), h = 3
    patch_rotated(&mut dest, 1, 1, &src);
    for sy in 0..3 {
        for sx in 0..2 {
            assert_eq!(dest.get(1 + 3 - sy - 1, 1 + sx), Some((100 * sx + sy) as u16));
        }
    }
    assert_eq!(dest.get(0, 0), Some(0));
}

#[test]
fn resize_keeps_content_and_fills_rest() {
    let mut b = numbered(3, 2);
    b.resize(5, 4);
    assert_eq!(b.dimensions(), (5, 4));
    for sy in 0..2 {
        for sx in 0..3 {
            assert_eq!(b.get(sx, sy), Some((100 * sx + sy) as u16));
        }
    }
    assert_eq!(b.get(4, 0), Some(0));
    assert_eq!(b.get(0, 3), Some(0));
}

#[test]
fn resize_can_shrink() {
    let mut b = numbered(4, 4);
    b.resize(2, 2);
    assert_eq!(b.dimensions(), (2, 2));
    assert_eq!(b.get(1, 1), Some(101));
    assert_eq!(b.get(2, 2), None);
}
