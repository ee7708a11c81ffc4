use subdivision::arith::SCALE;
use subdivision::mesh::Vertex;
use subdivision::quad_subdivide::{
    Quad, catmull_subdivide, catmull_subdivide_once, center, get_adjacency, get_adjacent,
    get_edge, get_edge_midpoints, get_vertex_map, get_vertices, linear_subdivide,
    linear_subdivide_once, transform,
};

fn v(x: i64, y: i64, z: i64) -> Vertex {
    Vertex { x, y, z }
}

fn unit_quad() -> Quad {
    let s = SCALE;
    Quad { a: v(0, 0, 0), b: v(s, 0, 0), c: v(s, s, 0), d: v(0, s, 0) }
}

fn second_quad() -> Quad {
    // shares the edge b-c of the unit quad
    let s = SCALE;
    Quad { a: v(s, 0, 0), b: v(2 * s, 0, 0), c: v(2 * s, s, 0), d: v(s, s, 0) }
}

fn assert_pos(vv: &Vertex, x: i64, y: i64, z: i64) {
    assert_eq!((vv.x, vv.y, vv.z), (x, y, z));
}

#[test]
fn linear_pass_quadruples_face_count() {
    let quads = vec![unit_quad(), second_quad()];
    let r = linear_subdivide_once(quads);
    assert_eq!(r.len(), 8);
    let r2 = linear_subdivide_once(r);
    assert_eq!(r2.len(), 32);
}

#[test]
fn level_zero_is_the_identity() {
    let quads = vec![unit_quad(), second_quad()];
    let r = linear_subdivide(quads.clone(), 0);
    assert!(r == quads);
    let r = catmull_subdivide(quads.clone(), 0, true);
    assert!(r == quads);
    let r = catmull_subdivide(quads.clone(), 0, false);
    assert!(r == quads);
}

#[test]
fn linear_split_of_unit_quad_is_the_three_by_three_grid() {
    let s = SCALE;
    let r = linear_subdivide(vec![unit_quad()], 1);
    assert_eq!(r.len(), 4);
    // (a, ab, center, ad)
    assert_pos(&r[0].a, 0, 0, 0);
    assert_pos(&r[0].b, s / 2, 0, 0);
    assert_pos(&r[0].c, s / 2, s / 2, 0);
    assert_pos(&r[0].d, 0, s / 2, 0);
    // (ab, b, bc, center)
    assert_pos(&r[1].a, s / 2, 0, 0);
    assert_pos(&r[1].b, s, 0, 0);
    assert_pos(&r[1].c, s, s / 2, 0);
    assert_pos(&r[1].d, s / 2, s / 2, 0);
    // (center, bc, c, cd)
    assert_pos(&r[2].a, s / 2, s / 2, 0);
    assert_pos(&r[2].b, s, s / 2, 0);
    assert_pos(&r[2].c, s, s, 0);
    assert_pos(&r[2].d, s / 2, s, 0);
    // (ad, center, cd, d)
    assert_pos(&r[3].a, 0, s / 2, 0);
    assert_pos(&r[3].b, s / 2, s / 2, 0);
    assert_pos(&r[3].c, s / 2, s, 0);
    assert_pos(&r[3].d, 0, s, 0);
}

#[test]
fn boundary_edge_point_is_the_plain_midpoint() {
    // a single isolated quad: every edge has no neighbor
    let s = SCALE;
    let quads = vec![unit_quad()];
    let map = get_vertex_map(&quads);
    let e = get_edge(&quads, &map, 0, 0, 1, false);
    assert_pos(&e, s / 2, 0, 0);
    let e = get_edge(&quads, &map, 0, 1, 2, true);
    assert_pos(&e, s, s / 2, 0);
    let r = catmull_subdivide_once(quads, false);
    assert_eq!(r.len(), 4);
    // cell 0 is (even_a, edge_ab, face point, edge_ad)
    assert_pos(&r[0].b, s / 2, 0, 0);
    assert_pos(&r[0].c, s / 2, s / 2, 0);
    assert_pos(&r[0].d, 0, s / 2, 0);
    // the valence-one even vertex: F + 2 R - 2 a
    assert_pos(&r[0].a, s, s, 0);
}

#[test]
fn interior_edge_point_blends_the_face_points() {
    let s = SCALE;
    let quads = vec![unit_quad(), second_quad()];
    let map = get_vertex_map(&quads);
    // edge b-c of face 0 is shared with face 1
    let e = get_edge(&quads, &map, 0, 1, 2, false);
    // face points (s/2, s/2) and (3s/2, s/2); edge midpoint (s, s/2)
    // blend: ((s, s/2) + (s, s/2)) / 2 = (s, s/2)
    assert_pos(&e, s, s / 2, 0);
    let adjacent = get_adjacent(map.ids[1], map.ids[2], 0, &quads, &map);
    assert_eq!(adjacent, Some(1));
    let none = get_adjacent(map.ids[0], map.ids[1], 0, &quads, &map);
    assert_eq!(none, None);
}

#[test]
fn coplanar_neighbors_make_no_crease() {
    let quads = vec![unit_quad(), second_quad()];
    let with_creases = catmull_subdivide_once(quads.clone(), true);
    let without = catmull_subdivide_once(quads, false);
    // coplanar faces: the crease test never fires, both runs agree
    for (x, y) in with_creases.iter().zip(without.iter()) {
        assert!(x == y);
    }
    assert_eq!(with_creases.len(), 8);
}

#[test]
fn edge_midpoints_average_with_cyclic_neighbors() {
    let s = SCALE;
    let quads = vec![unit_quad()];
    let map = get_vertex_map(&quads);
    let a = quads[0].a;
    // corner a sits at slot 0: predecessor d, successor b
    let (m1, m2) = get_edge_midpoints(&a, map.ids[0], 0, &quads, &map);
    assert_pos(&m1, 0, s / 2, 0);
    assert_pos(&m2, s / 2, 0, 0);
}

#[test]
fn vertex_map_welds_shared_corners() {
    let quads = vec![unit_quad(), second_quad()];
    let map = get_vertex_map(&quads);
    // 8 corners, 6 distinct: b and c of face 0 weld with a and d of face 1
    assert_eq!(map.reps.len(), 6);
    assert_eq!(map.ids[1], map.ids[4]);
    assert_eq!(map.ids[2], map.ids[7]);
    // each welded vertex of the shared edge touches both faces
    assert_eq!(map.incident[map.ids[1]], vec![0, 1]);
    assert_eq!(map.incident[map.ids[2]], vec![0, 1]);
    assert_eq!(map.incident[map.ids[0]], vec![0]);
}

#[test]
fn adjacency_table_matches_shared_edges() {
    let quads = vec![unit_quad(), second_quad()];
    let adj = get_adjacency(&quads);
    assert_eq!(adj.len(), 2);
    assert_eq!(adj[0].bc, Some(1));
    assert_eq!(adj[0].ab, None);
    assert_eq!(adj[0].cd, None);
    assert_eq!(adj[0].da, None);
    assert_eq!(adj[1].da, Some(0));
    assert_eq!(adj[1].ab, None);
}

#[test]
fn neighbors_get_different_colors() {
    let quads = vec![unit_quad(), second_quad()];
    let r = transform(quads);
    assert_eq!(r.len(), 12);
    // face 1 touches face 0, so their palette indexes differ
    assert_eq!(r[0].color, 0);
    assert_eq!(r[6].color, 1);
}

#[test]
fn transform_of_empty_mesh_is_empty() {
    let r = transform(Vec::new());
    assert_eq!(r.len(), 0);
}

#[test]
fn unit_quad_pipeline_gives_recentered_grid() {
    let s = SCALE;
    let r = get_vertices(vec![unit_quad()], 1, 0, false);
    assert_eq!(r.len(), 24);
    // the four sub-quads get alternating colors
    for k in 0..6 {
        assert_eq!(r[k].color, 0);
        assert_eq!(r[6 + k].color, 1);
        assert_eq!(r[12 + k].color, 0);
        assert_eq!(r[18 + k].color, 1);
    }
    // the subtracted centroid is (s/2, s/2, 0); the first sub-quad's
    // emission is a, ab, center, center, a, ad, shifted
    assert_pos(&r[0].position, -s / 2, -s / 2, 0);
    assert_pos(&r[1].position, 0, -s / 2, 0);
    assert_pos(&r[2].position, 0, 0, 0);
    assert_pos(&r[3].position, 0, 0, 0);
    assert_pos(&r[4].position, -s / 2, -s / 2, 0);
    assert_pos(&r[5].position, -s / 2, 0, 0);
    // every emitted coordinate lies on the recentered three-by-three grid
    for cv in &r {
        assert!(cv.position.x == -s / 2 || cv.position.x == 0 || cv.position.x == s / 2);
        assert!(cv.position.y == -s / 2 || cv.position.y == 0 || cv.position.y == s / 2);
        assert_eq!(cv.position.z, 0);
    }
}

#[test]
fn recentered_output_has_zero_mean() {
    // the mean, computed by the same per-quad formula as the subtracted
    // centroid (sum of the four raw corners of each emitted quad, floor
    // divided by four times the face count), is exactly zero
    let quads = vec![unit_quad(), second_quad()];
    let r = transform(quads);
    let nquads = r.len() / 6;
    let mut sum = (0i128, 0i128, 0i128);
    for f in 0..nquads {
        for k in [0usize, 1, 2, 5] {
            let p = &r[6 * f + k].position;
            sum.0 += p.x as i128;
            sum.1 += p.y as i128;
            sum.2 += p.z as i128;
        }
    }
    let d = 4 * nquads as i128;
    assert_eq!(sum.0.div_euclid(d), 0);
    assert_eq!(sum.1.div_euclid(d), 0);
    assert_eq!(sum.2.div_euclid(d), 0);
}

#[test]
fn face_point_is_the_nested_average() {
    let s = SCALE;
    let c = center(&unit_quad());
    assert_pos(&c, s / 2, s / 2, 0);
}

#[test]
fn smoothing_also_quadruples_face_count() {
    let quads = vec![unit_quad(), second_quad()];
    let r = catmull_subdivide_once(quads, false);
    assert_eq!(r.len(), 8);
    let r2 = catmull_subdivide(r, 1, true);
    assert_eq!(r2.len(), 32);
}
