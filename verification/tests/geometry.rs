use engine::geom::{compute_displacement, Dir, Rect, Vec2};

#[test]
fn overlap_reports_per_axis_depth() {
    let a = Rect { x: 0, y: 0, w: 4, h: 4 };
    let b = Rect { x: 2, y: 2, w: 4, h: 4 };
    assert_eq!(a.overlap(b), Some(Vec2 { x: 2, y: 2 }));
}

#[test]
fn overlap_none_when_separated() {
    let a = Rect { x: 0, y: 0, w: 4, h: 4 };
    let b = Rect { x: 10, y: 0, w: 4, h: 4 };
    assert_eq!(a.overlap(b), None);
    let c = Rect { x: 0, y: 5, w: 4, h: 4 };
    assert_eq!(a.overlap(c), None);
}

#[test]
fn overlap_touching_edges_counts_with_zero_depth() {
    let a = Rect { x: 0, y: 0, w: 4, h: 4 };
    let b = Rect { x: 4, y: 0, w: 4, h: 4 };
    assert_eq!(a.overlap(b), Some(Vec2 { x: 0, y: 4 }));
    let c = Rect { x: 4, y: 4, w: 4, h: 4 };
    assert_eq!(a.overlap(c), Some(Vec2 { x: 0, y: 0 }));
}

#[test]
fn overlap_is_symmetric_in_magnitude() {
    let a = Rect { x: -3, y: 1, w: 7, h: 2 };
    let b = Rect { x: 1, y: 0, w: 5, h: 9 };
    assert_eq!(a.overlap(b), b.overlap(a));
    let c = Rect { x: 100, y: 100, w: 1, h: 1 };
    assert_eq!(a.overlap(c), c.overlap(a));
}

#[test]
fn overlap_with_negative_coordinates() {
    let a = Rect { x: -4, y: -4, w: 4, h: 4 };
    let b = Rect { x: -2, y: -3, w: 4, h: 4 };
    assert_eq!(a.overlap(b), Some(Vec2 { x: 2, y: 3 }));
}

#[test]
fn resolve_returns_zero_for_non_overlapping() {
    let a = Rect { x: 0, y: 0, w: 4, h: 4 };
    let b = Rect { x: 9, y: 9, w: 4, h: 4 };
    assert_eq!(compute_displacement(a, b), Vec2 { x: 0, y: 0 });
}

#[test]
fn resolve_pushes_along_shallower_axis() {
    // deeper on x (3) than on y (1): correct along y, upward since a sits above b
    let a = Rect { x: 0, y: 3, w: 4, h: 4 };
    let b = Rect { x: 1, y: 0, w: 4, h: 4 };
    assert_eq!(a.overlap(b), Some(Vec2 { x: 3, y: 1 }));
    assert_eq!(compute_displacement(a, b), Vec2 { x: 0, y: 1 });
}

#[test]
fn resolve_tie_break_corrects_along_x() {
    // both axes overlap by 2: the tie-break zeroes y and corrects along x
    let a = Rect { x: 0, y: 0, w: 4, h: 4 };
    let b = Rect { x: 2, y: 2, w: 4, h: 4 };
    assert_eq!(a.overlap(b), Some(Vec2 { x: 2, y: 2 }));
    assert_eq!(compute_displacement(a, b), Vec2 { x: -2, y: 0 });
}

#[test]
fn resolve_sign_points_from_b_towards_a() {
    let a = Rect { x: 2, y: 2, w: 4, h: 4 };
    let b = Rect { x: 0, y: 0, w: 4, h: 4 };
    assert_eq!(compute_displacement(a, b), Vec2 { x: 2, y: 0 });
}

#[test]
fn resolve_separates_on_the_corrected_axis() {
    let a = Rect { x: 0, y: 3, w: 4, h: 4 };
    let b = Rect { x: 1, y: 0, w: 4, h: 4 };
    let d = compute_displacement(a, b);
    let moved = a.translated(d);
    let again = moved.overlap(b).expect("still touching after the push");
    assert!(again.x == 0 || again.y == 0);
}

#[test]
fn is_empty_when_either_extent_is_zero() {
    assert!(Rect { x: 1, y: 1, w: 0, h: 5 }.is_empty());
    assert!(Rect { x: 1, y: 1, w: 5, h: 0 }.is_empty());
    assert!(!Rect { x: 1, y: 1, w: 5, h: 5 }.is_empty());
}

#[test]
fn origin_is_the_min_corner() {
    let r = Rect { x: -7, y: 12, w: 3, h: 4 };
    assert_eq!(r.origin(), Vec2 { x: -7, y: 12 });
}

#[test]
fn mag_sq_is_the_squared_length() {
    assert_eq!(Vec2 { x: 3, y: -4 }.mag_sq(), 25);
    assert_eq!(Vec2 { x: 0, y: 0 }.mag_sq(), 0);
    assert_eq!(Vec2 { x: i32::MIN, y: i32::MIN }.mag_sq(), (1u64 << 62) + (1u64 << 62));
}

#[test]
fn vec2_componentwise_arithmetic() {
    let a = Vec2 { x: 3, y: -2 };
    let b = Vec2 { x: -1, y: 5 };
    assert_eq!(a.plus(b), Vec2 { x: 2, y: 3 });
    assert_eq!(a.minus(b), Vec2 { x: 4, y: -7 });
}

#[test]
fn dir_unit_vectors() {
    assert_eq!(Dir::Up.to_vec2(), Vec2 { x: 0, y: 1 });
    assert_eq!(Dir::Down.to_vec2(), Vec2 { x: 0, y: -1 });
    assert_eq!(Dir::Left.to_vec2(), Vec2 { x: -1, y: 0 });
    assert_eq!(Dir::Right.to_vec2(), Vec2 { x: 1, y: 0 });
}
