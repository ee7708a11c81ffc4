use subdivision::arith::{EPS, MAXC, SCALE, div_floor, div_trunc, wide_lt, wide_mul};
use subdivision::mesh::{
    ColoredVertex, Vertex, cross_of_diffs, edge_is_crease, midpoint, vertex_equals, vertex_key,
    vertex_welds,
};

fn v(x: i64, y: i64, z: i64) -> Vertex {
    Vertex { x, y, z }
}

#[test]
fn constants_fix_the_model_resolution() {
    assert_eq!(SCALE, 160000);
    assert_eq!(EPS, 16);
    assert!(MAXC > 5 * SCALE);
}

#[test]
fn vertex_equality_is_strictly_within_epsilon() {
    let a = v(0, 0, 0);
    assert!(vertex_equals(&a, &v(15, -15, 15)));
    assert!(!vertex_equals(&a, &v(16, 0, 0)));
    assert!(!vertex_equals(&a, &v(0, -16, 0)));
    assert!(vertex_equals(&a, &a));
}

#[test]
fn vertex_key_truncates_toward_zero() {
    assert_eq!(vertex_key(&v(159999, 160000, -159999)), (0, 1, 0));
    assert_eq!(vertex_key(&v(-160001, 320000, 0)), (-1, 2, 0));
}

#[test]
fn welding_needs_same_key_and_epsilon() {
    // within epsilon and same whole-unit key
    assert!(vertex_welds(&v(100, 100, 100), &v(110, 100, 100)));
    // within epsilon but straddling a whole-unit boundary: distinct keys
    assert!(!vertex_welds(&v(159995, 0, 0), &v(160005, 0, 0)));
    // same key but outside epsilon
    assert!(!vertex_welds(&v(0, 0, 0), &v(100, 0, 0)));
}

#[test]
fn midpoint_rounds_toward_negative_infinity() {
    let m = midpoint(&v(0, 1, -1), &v(1, 2, -2));
    assert_eq!((m.x, m.y, m.z), (0, 1, -2));
    let m2 = midpoint(&v(-3, 5, 7), &v(-4, 5, 8));
    assert_eq!((m2.x, m2.y, m2.z), (-4, 5, 7));
}

#[test]
fn wide_mul_and_compare_handle_large_products() {
    let (hi, lo) = wide_mul(u128::MAX, u128::MAX);
    // (2^128 - 1)^2 = 2^256 - 2^129 + 1
    assert_eq!(hi, u128::MAX - 1);
    assert_eq!(lo, 1);
    assert!(wide_lt(3, 5, 4, 4));
    assert!(!wide_lt(4, 4, 4, 4));
    assert!(!wide_lt(u128::MAX, u128::MAX, u128::MAX, u128::MAX - 1));
}

#[test]
fn floor_and_truncating_division_differ_on_negatives() {
    assert_eq!(div_floor(-7, 2), -4);
    assert_eq!(div_trunc(-7, 2), -3);
    assert_eq!(div_floor(7, 2), 3);
    assert_eq!(div_trunc(7, 2), 3);
}

#[test]
fn crease_predicate_matches_cosine_threshold() {
    let o = v(0, 0, 0);
    let ex = v(1000, 0, 0);
    let ey = v(0, 1000, 0);
    // identical directions: cosine 1, no crease
    let n = cross_of_diffs(&o, &ex, &ex, &ey);
    assert!(!edge_is_crease(n, n));
    // opposite directions: cosine -1, crease
    let m = cross_of_diffs(&o, &ey, &ey, &ex);
    assert!(edge_is_crease(n, m));
    // perpendicular (cosine 0 < 3/5): crease
    let p1 = cross_of_diffs(&o, &ex, &ex, &ey); // z direction
    let p2 = cross_of_diffs(&o, &ey, &ey, &v(0, 1000, 1000)); // x direction
    assert!(edge_is_crease(p1, p2));
    // a degenerate (zero) normal never makes a crease
    let z = cross_of_diffs(&o, &o, &o, &ex);
    assert!(!edge_is_crease(z, n));
}

#[test]
fn colored_vertex_carries_position_and_palette_index() {
    let cv = ColoredVertex { position: v(1, 2, 3), color: 4 };
    assert_eq!(cv.position.x, 1);
    assert_eq!(cv.color, 4);
}
