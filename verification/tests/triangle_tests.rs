use subdivision::arith::SCALE;
use subdivision::mesh::Vertex;
use subdivision::triangle_subdivide::{
    Triangle, get_adjacency, get_furthest_vertex, get_vertex_map, get_vertices, linear_subdivide,
    linear_subdivide_once, loop_subdivide, loop_subdivide_once, transform,
};

fn v(x: i64, y: i64, z: i64) -> Vertex {
    Vertex { x, y, z }
}

fn base_triangle() -> Triangle {
    let s = SCALE;
    Triangle { a: v(0, 0, 0), b: v(s, 0, 0), c: v(0, s, 0) }
}

fn flat_neighbor() -> Triangle {
    // shares edge a-b of the base triangle, wound consistently: its third
    // vertex lies on the other side, so the two normals agree
    let s = SCALE;
    Triangle { a: v(s, 0, 0), b: v(0, 0, 0), c: v(0, -s, 0) }
}

fn folded_neighbor() -> Triangle {
    // shares edge a-b of the base triangle but folds back onto it: the two
    // normals are exactly opposite
    let s = SCALE;
    Triangle { a: v(0, 0, 0), b: v(s, 0, 0), c: v(s, s, 0) }
}

fn assert_pos(vv: &Vertex, x: i64, y: i64, z: i64) {
    assert_eq!((vv.x, vv.y, vv.z), (x, y, z));
}

#[test]
fn tri_linear_pass_quadruples_face_count() {
    let tris = vec![base_triangle(), folded_neighbor()];
    let r = linear_subdivide_once(tris);
    assert_eq!(r.len(), 8);
    let r2 = linear_subdivide_once(r);
    assert_eq!(r2.len(), 32);
}

#[test]
fn tri_level_zero_is_the_identity() {
    let tris = vec![base_triangle(), flat_neighbor()];
    let r = linear_subdivide(tris.clone(), 0);
    assert!(r == tris);
    let r = loop_subdivide(tris.clone(), 0, true);
    assert!(r == tris);
    let r = loop_subdivide(tris.clone(), 0, false);
    assert!(r == tris);
}

#[test]
fn linear_split_uses_the_three_edge_midpoints() {
    let s = SCALE;
    let r = linear_subdivide(vec![base_triangle()], 1);
    assert_eq!(r.len(), 4);
    // (a, ab, ac)
    assert_pos(&r[0].a, 0, 0, 0);
    assert_pos(&r[0].b, s / 2, 0, 0);
    assert_pos(&r[0].c, 0, s / 2, 0);
    // (b, ab, bc)
    assert_pos(&r[1].a, s, 0, 0);
    assert_pos(&r[1].b, s / 2, 0, 0);
    assert_pos(&r[1].c, s / 2, s / 2, 0);
    // (c, ac, bc)
    assert_pos(&r[2].a, 0, s, 0);
    assert_pos(&r[2].b, 0, s / 2, 0);
    assert_pos(&r[2].c, s / 2, s / 2, 0);
    // central (ab, bc, ac)
    assert_pos(&r[3].a, s / 2, 0, 0);
    assert_pos(&r[3].b, s / 2, s / 2, 0);
    assert_pos(&r[3].c, 0, s / 2, 0);
}

#[test]
fn furthest_vertex_is_the_one_opposite_the_shared_edge() {
    let s = SCALE;
    let tris = vec![base_triangle(), flat_neighbor()];
    let map = get_vertex_map(&tris);
    // edge a-b of face 0
    let d = get_furthest_vertex(map.ids[0], map.ids[1], 0, &tris, &map);
    assert!(d.is_some());
    assert_pos(&d.unwrap(), 0, -s, 0);
    // edge b-c of face 0 has no neighbor
    let none = get_furthest_vertex(map.ids[1], map.ids[2], 0, &tris, &map);
    assert!(none.is_none());
}

#[test]
fn boundary_edges_of_a_lone_triangle_use_midpoints() {
    let s = SCALE;
    let r = loop_subdivide_once(vec![base_triangle()], false);
    assert_eq!(r.len(), 4);
    // a lone triangle has an empty ring (no vertex is shared by two of its
    // incident faces), so the even corners keep their positions, and all
    // odd vertices are midpoints
    assert_pos(&r[0].a, 0, 0, 0);
    assert_pos(&r[0].b, s / 2, 0, 0);
    assert_pos(&r[0].c, 0, s / 2, 0);
    assert_pos(&r[3].a, s / 2, 0, 0);
    assert_pos(&r[3].b, s / 2, s / 2, 0);
    assert_pos(&r[3].c, 0, s / 2, 0);
}

#[test]
fn crease_lock_on_opposed_normals() {
    let s = SCALE;
    let tris = vec![base_triangle(), folded_neighbor()];
    // with creases kept, the odd vertex of the shared edge (a, b) is the
    // plain midpoint
    let locked = loop_subdivide_once(tris.clone(), true);
    assert_pos(&locked[0].b, s / 2, 0, 0);
    // without creases it is the four-point blend
    // 3/8 a + 3/8 b + 1/8 c + 1/8 d with c = (0, s, 0), d = (s, s, 0)
    let smooth = loop_subdivide_once(tris, false);
    assert_pos(&smooth[0].b, s / 2, s / 4, 0);
    // and the two runs differ on that vertex
    assert_ne!(
        (locked[0].b.x, locked[0].b.y, locked[0].b.z),
        (smooth[0].b.x, smooth[0].b.y, smooth[0].b.z),
    );
}

#[test]
fn flat_neighbors_make_no_crease() {
    let tris = vec![base_triangle(), flat_neighbor()];
    let with_creases = loop_subdivide_once(tris.clone(), true);
    let without = loop_subdivide_once(tris, false);
    for (x, y) in with_creases.iter().zip(without.iter()) {
        assert!(x == y);
    }
}

#[test]
fn tri_adjacency_matches_shared_edges() {
    let tris = vec![base_triangle(), flat_neighbor()];
    let adj = get_adjacency(&tris);
    assert_eq!(adj.len(), 2);
    assert_eq!(adj[0].ab, Some(1));
    assert_eq!(adj[0].bc, None);
    assert_eq!(adj[0].ca, None);
    assert_eq!(adj[1].ab, Some(0));
}

#[test]
fn tri_neighbors_get_different_colors() {
    let tris = vec![base_triangle(), flat_neighbor()];
    let r = transform(tris);
    assert_eq!(r.len(), 6);
    assert_eq!(r[0].color, 0);
    assert_eq!(r[3].color, 1);
}

#[test]
fn tri_transform_of_empty_mesh_is_empty() {
    let r = transform(Vec::new());
    assert_eq!(r.len(), 0);
}

#[test]
fn tri_recentered_output_has_zero_mean() {
    // the mean, computed by the same per-triangle formula as the subtracted
    // centroid (sum of the three raw corners of each emitted triangle,
    // floor divided by three times the face count), is exactly zero
    let tris = vec![base_triangle(), flat_neighbor(), folded_neighbor()];
    let r = transform(tris);
    assert_eq!(r.len(), 9);
    let mut sum = (0i128, 0i128, 0i128);
    for cv in &r {
        sum.0 += cv.position.x as i128;
        sum.1 += cv.position.y as i128;
        sum.2 += cv.position.z as i128;
    }
    let d = r.len() as i128;
    assert_eq!(sum.0.div_euclid(d), 0);
    assert_eq!(sum.1.div_euclid(d), 0);
    assert_eq!(sum.2.div_euclid(d), 0);
}

#[test]
fn full_pipeline_composes_the_stages() {
    let r = get_vertices(vec![base_triangle()], 1, 0, false);
    // one linear split: 4 triangles, 3 entries each
    assert_eq!(r.len(), 12);
    // the central triangle touches all three corner triangles, which do not
    // touch each other: colors 0, 0, 0, 1... except greedy order assigns in
    // face order, corner triangles first
    assert_eq!(r[0].color, 0);
    assert_eq!(r[3].color, 0);
    assert_eq!(r[6].color, 0);
    assert_eq!(r[9].color, 1);
}

#[test]
fn interior_even_vertex_blends_its_ring() {
    let s = SCALE;
    // a fan of four triangles around the origin covering the plane, so the
    // center vertex has a full ring of valence four
    let o = v(0, 0, 0);
    let px = v(s, 0, 0);
    let py = v(0, s, 0);
    let nx = v(-s, 0, 0);
    let ny = v(0, -s, 0);
    let tris = vec![
        Triangle { a: o, b: px, c: py },
        Triangle { a: o, b: py, c: nx },
        Triangle { a: o, b: nx, c: ny },
        Triangle { a: o, b: ny, c: px },
    ];
    let r = loop_subdivide_once(tris, false);
    assert_eq!(r.len(), 16);
    // ring size 4: new center = 5/8 o + 3/32 (px + py + nx + ny) = origin
    assert_pos(&r[0].a, 0, 0, 0);
}
