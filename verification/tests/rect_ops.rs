use atlas_packer::Rect;

#[test]
fn area_of_small_rect() {
    let r = Rect::new(3, 4, 5, 6);
    assert_eq!(r.area(), 30);
}

#[test]
fn area_of_largest_rect() {
    let r = Rect::new(0, 0, u32::MAX, u32::MAX);
    assert_eq!(r.area(), (u32::MAX as u64) * (u32::MAX as u64));
}

#[test]
fn contains_inner_and_outer() {
    let outer = Rect::new(0, 0, 10, 10);
    let inner = Rect::new(2, 3, 4, 5);
    assert!(outer.contains(&inner));
    assert!(!inner.contains(&outer));
    assert!(outer.contains(&outer));
}

#[test]
fn contains_rejects_protruding() {
    let a = Rect::new(0, 0, 10, 10);
    let b = Rect::new(8, 8, 4, 4);
    assert!(!a.contains(&b));
}

#[test]
fn crop_center_leaves_four_strips() {
    let base = Rect::new(0, 0, 10, 10);
    let hole = Rect::new(3, 3, 4, 4);
    let parts = base.crop(&hole);
    assert_eq!(
        parts,
        vec![
            Rect::new(0, 0, 3, 10),
            Rect::new(7, 0, 3, 10),
            Rect::new(3, 0, 4, 3),
            Rect::new(3, 7, 4, 3),
        ]
    );
}

#[test]
fn crop_disjoint_keeps_whole() {
    let base = Rect::new(0, 0, 10, 10);
    let far = Rect::new(20, 20, 5, 5);
    assert_eq!(base.crop(&far), vec![base]);
}

#[test]
fn crop_swallowed_leaves_nothing() {
    let base = Rect::new(2, 2, 5, 5);
    let all = Rect::new(0, 0, 20, 20);
    assert_eq!(base.crop(&all), Vec::<Rect>::new());
}

#[test]
fn crop_corner_overlap() {
    let base = Rect::new(0, 0, 10, 10);
    let corner = Rect::new(6, 6, 10, 10);
    let parts = base.crop(&corner);
    // left strip and top strip of the shared corner region
    assert_eq!(parts, vec![Rect::new(0, 0, 6, 10), Rect::new(6, 0, 4, 6)]);
}
