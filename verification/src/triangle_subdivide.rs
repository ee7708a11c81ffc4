//! The triangle pipeline: uniform linear splitting, Loop smoothing with
//! optional crease preservation, and the coloring and recentering transform.

use vstd::prelude::*;
use crate::arith::MAXC;
use crate::mesh::{
    ColoredVertex, GColored, GPos, Vertex, approx_eq, crease_test, cross, cross_of_diffs,
    edge_is_crease, gadd, gdiv, gscale, gsub, gzero, in_bounds, lemma_div_bound, mid2, midpoint,
    vertex_equals,
};
use crate::weld::{
    VertexMap, adjacent_core, adjacent_spec, build_vertex_map, corner_id, face_has, find_in_face,
    incident_upto, lemma_incident_upto, pos_seq, weld_reps,
};

verus! {

/// A triangle at the specification level.
pub ghost struct GTri {
    pub a: GPos,
    pub b: GPos,
    pub c: GPos,
}

/// A triangle face: three vertices, ordered, with edges a-b, b-c, c-a.
#[derive(Clone, Copy, Debug)]
pub struct Triangle {
    pub a: Vertex,
    pub b: Vertex,
    pub c: Vertex,
}

impl View for Triangle {
    type V = GTri;

    open spec fn view(&self) -> GTri {
        GTri { a: self.a@, b: self.b@, c: self.c@ }
    }
}

impl PartialEq for Triangle {
    fn eq(&self, other: &Triangle) -> (r: bool) {
        vertex_equals(&self.a, &other.a) && vertex_equals(&self.b, &other.b) && vertex_equals(
            &self.c,
            &other.c,
        )
    }
}

impl Eq for Triangle {}

impl vstd::std_specs::cmp::PartialEqSpecImpl for Triangle {
    open spec fn obeys_eq_spec() -> bool {
        true
    }

    open spec fn eq_spec(&self, other: &Triangle) -> bool {
        approx_eq(self.a@, other.a@) && approx_eq(self.b@, other.b@) && approx_eq(
            self.c@,
            other.c@,
        )
    }
}

/// The triangles a triangle sequence stands for.
pub open spec fn tris_view(s: Seq<Triangle>) -> Seq<GTri> {
    Seq::new(s.len(), |i: int| s[i]@)
}

/// Corner `t` of a triangle.
pub open spec fn tcorner(q: GTri, t: int) -> GPos {
    if t == 0 {
        q.a
    } else if t == 1 {
        q.b
    } else {
        q.c
    }
}

/// The flattened corner sequence of a triangle list, welding's input.
pub open spec fn tcorners(qs: Seq<GTri>) -> Seq<GPos> {
    Seq::new(qs.len() * 3, |j: int| tcorner(qs[j / 3], j % 3))
}

/// The (unnormalized) normal direction of a triangle.
pub open spec fn tri_normal(q: GTri) -> GPos {
    cross(gsub(q.a, q.b), gsub(q.b, q.c))
}

pub open spec fn tri_in_bounds(q: GTri, bound: int) -> bool {
    &&& in_bounds(q.a, bound)
    &&& in_bounds(q.b, bound)
    &&& in_bounds(q.c, bound)
}

pub open spec fn tris_in_bounds(qs: Seq<GTri>, bound: int) -> bool {
    forall|i: int| 0 <= i < qs.len() ==> tri_in_bounds(#[trigger] qs[i], bound)
}

/// Sub-triangle `k` of the uniform 1-to-4 split: three corner triangles and
/// the central one, from the three edge midpoints.
pub open spec fn linear_tri_cell(q: GTri, k: int) -> GTri {
    let ab = mid2(q.a, q.b);
    let bc = mid2(q.c, q.b);
    let ac = mid2(q.a, q.c);
    if k == 0 {
        GTri { a: q.a, b: ab, c: ac }
    } else if k == 1 {
        GTri { a: q.b, b: ab, c: bc }
    } else if k == 2 {
        GTri { a: q.c, b: ac, c: bc }
    } else {
        GTri { a: ab, b: bc, c: ac }
    }
}

/// One uniform split of every triangle, in face order.
pub open spec fn linear_tri_once_spec(qs: Seq<GTri>) -> Seq<GTri> {
    Seq::new(qs.len() * 4, |i: int| linear_tri_cell(qs[i / 4], i % 4))
}

/// `levels` uniform splits.
pub open spec fn linear_tri_spec(qs: Seq<GTri>, levels: nat) -> Seq<GTri>
    decreases levels,
{
    if levels == 0 {
        qs
    } else {
        linear_tri_once_spec(linear_tri_spec(qs, (levels - 1) as nat))
    }
}

/// A midpoint of two bounded positions is bounded the same.
pub proof fn lemma_tmid_in_bounds(p: GPos, q: GPos, bound: int)
    requires
        0 <= bound,
        in_bounds(p, bound),
        in_bounds(q, bound),
    ensures
        in_bounds(mid2(p, q), bound),
{
    lemma_div_bound(p.x + q.x, 2, bound);
    lemma_div_bound(p.y + q.y, 2, bound);
    lemma_div_bound(p.z + q.z, 2, bound);
}

pub proof fn lemma_linear_tri_once_bounds(qs: Seq<GTri>, bound: int)
    requires
        0 <= bound,
        tris_in_bounds(qs, bound),
    ensures
        tris_in_bounds(linear_tri_once_spec(qs), bound),
{
    assert forall|i: int|
        0 <= i < linear_tri_once_spec(qs).len() implies tri_in_bounds(
        #[trigger] linear_tri_once_spec(qs)[i],
        bound,
    ) by {
        vstd::arithmetic::div_mod::lemma_fundamental_div_mod(i, 4);
        assert(0 <= i / 4 < qs.len()) by (nonlinear_arith)
            requires
                0 <= i,
                i < qs.len() * 4,
                i == 4 * (i / 4) + i % 4,
                0 <= i % 4 < 4,
        ;
        let q = qs[i / 4];
        lemma_tmid_in_bounds(q.a, q.b, bound);
        lemma_tmid_in_bounds(q.c, q.b, bound);
        lemma_tmid_in_bounds(q.a, q.c, bound);
    }
}

/// One uniform 1-to-4 split of every triangle: no smoothing, no adjacency.
pub fn linear_subdivide_once(triangles: Vec<Triangle>) -> (r: Vec<Triangle>)
    ensures
        r@.len() == 4 * triangles@.len(),
        tris_view(r@) == linear_tri_once_spec(tris_view(triangles@)),
{
    let ghost qv = tris_view(triangles@);
    let mut tris: Vec<Triangle> = Vec::new();
    let mut i: usize = 0;
    while i < triangles.len()
        invariant
            i <= triangles.len(),
            qv == tris_view(triangles@),
            qv.len() == triangles.len(),
            tris.len() == 4 * i,
            forall|x: int|
                0 <= x < tris.len() ==> tris[x]@ == #[trigger] linear_tri_once_spec(qv)[x],
        decreases triangles.len() - i,
    {
        let tri = triangles[i];
        let a = tri.a;
        let b = tri.b;
        let c = tri.c;
        let ab = midpoint(&a, &b);
        let bc = midpoint(&c, &b);
        let ac = midpoint(&a, &c);
        tris.push(Triangle { a, b: ab, c: ac });
        tris.push(Triangle { a: b, b: ab, c: bc });
        tris.push(Triangle { a: c, b: ac, c: bc });
        tris.push(Triangle { a: ab, b: bc, c: ac });
        proof {
            let ii = i as int;
            assert forall|k: int| 0 <= k < 4 implies #[trigger] ((4 * ii + k) / 4) == ii && (4 * ii
                + k) % 4 == k by {
                vstd::arithmetic::div_mod::lemma_fundamental_div_mod_converse(
                    4 * ii + k,
                    4,
                    ii,
                    k,
                );
            }
            assert(tris[4 * ii + 0]@ == linear_tri_once_spec(qv)[4 * ii + 0]);
            assert(tris[4 * ii + 1]@ == linear_tri_once_spec(qv)[4 * ii + 1]);
            assert(tris[4 * ii + 2]@ == linear_tri_once_spec(qv)[4 * ii + 2]);
            assert(tris[4 * ii + 3]@ == linear_tri_once_spec(qv)[4 * ii + 3]);
        }
        i += 1;
    }
    proof {
        assert(tris_view(tris@) =~= linear_tri_once_spec(qv));
    }
    tris
}

/// `levels` uniform splits; zero levels is the identity.
pub fn linear_subdivide(triangles: Vec<Triangle>, levels: u32) -> (r: Vec<Triangle>)
    ensures
        tris_view(r@) == linear_tri_spec(tris_view(triangles@), levels as nat),
        levels == 0 ==> r@ == triangles@,
{
    let ghost q0 = triangles@;
    let ghost qv0 = tris_view(triangles@);
    let mut triangles = triangles;
    let mut l: u32 = 0;
    while l < levels
        invariant
            l <= levels,
            tris_view(triangles@) == linear_tri_spec(qv0, l as nat),
            l == 0 ==> triangles@ == q0,
        decreases levels - l,
    {
        triangles = linear_subdivide_once(triangles);
        l += 1;
    }
    triangles
}

/// Corner indexes of a face stay inside the flattened corner sequence.
proof fn lemma_tri_corner_index(len: int, me: int, t: int)
    requires
        0 <= me < len,
        0 <= t < 3,
    ensures
        0 <= me * 3 + t < len * 3,
{
    assert(me * 3 + t < len * 3) by (nonlinear_arith)
        requires
            me < len,
            t < 3,
    ;
    assert(me * 3 >= 0) by (nonlinear_arith)
        requires
            me >= 0,
    ;
}

/// Build the welded incidence map of a triangle list.
pub fn get_vertex_map(triangles: &Vec<Triangle>) -> (m: VertexMap)
    requires
        tris_in_bounds(tris_view(triangles@), MAXC as int),
    ensures
        m.wf(tcorners(tris_view(triangles@)), 3),
{
    let ghost qv = tris_view(triangles@);
    let mut corners: Vec<Vertex> = Vec::new();
    let mut i: usize = 0;
    while i < triangles.len()
        invariant
            i <= triangles.len(),
            qv == tris_view(triangles@),
            qv.len() == triangles.len(),
            tris_in_bounds(qv, MAXC as int),
            corners.len() == 3 * i,
            forall|j: int| 0 <= j < corners.len() ==> corners[j]@ == #[trigger] tcorners(qv)[j],
            forall|j: int|
                0 <= j < corners.len() ==> in_bounds(#[trigger] corners[j]@, MAXC as int),
        decreases triangles.len() - i,
    {
        let tri = triangles[i];
        corners.push(tri.a);
        corners.push(tri.b);
        corners.push(tri.c);
        proof {
            let ii = i as int;
            assert forall|k: int| 0 <= k < 3 implies #[trigger] ((3 * ii + k) / 3) == ii && (3 * ii
                + k) % 3 == k by {
                vstd::arithmetic::div_mod::lemma_fundamental_div_mod_converse(
                    3 * ii + k,
                    3,
                    ii,
                    k,
                );
            }
            assert(corners[3 * ii + 0]@ == tcorners(qv)[3 * ii + 0]);
            assert(corners[3 * ii + 1]@ == tcorners(qv)[3 * ii + 1]);
            assert(corners[3 * ii + 2]@ == tcorners(qv)[3 * ii + 2]);
        }
        i += 1;
    }
    let m = build_vertex_map(&corners, 3);
    proof {
        assert(pos_seq(corners@) =~= tcorners(qv));
    }
    m
}

/// The slot of the neighbor face holding neither edge endpoint: the vertex
/// opposite the shared edge. Falls back to the last slot when no corner
/// qualifies.
pub open spec fn opp_slot(cs: Seq<GPos>, nf: int, a_id: int, b_id: int) -> int {
    if corner_id(cs, nf * 3 + 0) != a_id && corner_id(cs, nf * 3 + 0) != b_id {
        0
    } else if corner_id(cs, nf * 3 + 1) != a_id && corner_id(cs, nf * 3 + 1) != b_id {
        1
    } else {
        2
    }
}

/// The vertex of the triangle across edge `(a, b)` of `me` that lies
/// opposite that edge, when such a triangle exists.
pub fn get_furthest_vertex(
    a: usize,
    b: usize,
    me: usize,
    triangles: &Vec<Triangle>,
    map: &VertexMap,
) -> (r: Option<Vertex>)
    requires
        map.wf(tcorners(tris_view(triangles@)), 3),
        a < map.incident.len(),
    ensures
        ({
            let qv = tris_view(triangles@);
            let cs = tcorners(qv);
            match adjacent_spec(cs, 3, qv.len() as int, a as int, b as int, me as int) {
                Some(nf) => r is Some && r->0@ == tcorner(
                    qv[nf],
                    opp_slot(cs, nf, a as int, b as int),
                ),
                None => r is None,
            }
        }),
{
    let ghost qv = tris_view(triangles@);
    let ghost cs = tcorners(qv);
    proof {
        assert(cs.len() == qv.len() * 3);
        vstd::arithmetic::div_mod::lemma_fundamental_div_mod_converse(
            cs.len() as int,
            3,
            qv.len() as int,
            0,
        );
    }
    match adjacent_core(map, a, b, me, Ghost(cs), 3) {
        None => None,
        Some(nf) => {
            proof {
                lemma_tri_corner_index(qv.len() as int, nf as int, 0);
                lemma_tri_corner_index(qv.len() as int, nf as int, 1);
                lemma_tri_corner_index(qv.len() as int, nf as int, 2);
            }
            let tri = triangles[nf];
            proof {
                assert(tri@ == qv[nf as int]);
            }
            let i0 = map.ids[nf * 3 + 0];
            let i1 = map.ids[nf * 3 + 1];
            if i0 != a && i0 != b {
                Some(tri.a)
            } else if i1 != a && i1 != b {
                Some(tri.b)
            } else {
                Some(tri.c)
            }
        },
    }
}


/// The odd (new edge) vertex for edge `(ta, tb)` of face `me`, whose third
/// slot is `tc`: the plain midpoint on a boundary or (with creases kept)
/// across a sharp join, else `3/8` of each endpoint plus `1/8` of each
/// opposite vertex.
pub open spec fn odd_point_spec(
    qs: Seq<GTri>,
    cs: Seq<GPos>,
    me: int,
    ta: int,
    tb: int,
    tc: int,
    creases: bool,
) -> GPos {
    let pa = tcorner(qs[me], ta);
    let pb = tcorner(qs[me], tb);
    let pc = tcorner(qs[me], tc);
    let a_id = corner_id(cs, me * 3 + ta);
    let b_id = corner_id(cs, me * 3 + tb);
    match adjacent_spec(cs, 3, qs.len() as int, a_id, b_id, me) {
        None => mid2(pa, pb),
        Some(nf) => {
            let pd = tcorner(qs[nf], opp_slot(cs, nf, a_id, b_id));
            let n1 = cross(gsub(pa, pb), gsub(pa, pc));
            let n2 = cross(gsub(pa, pd), gsub(pa, pb));
            if creases && crease_test(n1, n2) {
                mid2(pa, pb)
            } else {
                gdiv(gadd(gadd(gscale(3, gadd(pa, pb)), pc), pd), 8)
            }
        },
    }
}

/// How many of the listed faces touch welded vertex `u`.
pub open spec fn count_with(cs: Seq<GPos>, fs: Seq<int>, u: int) -> int
    decreases fs.len(),
{
    if fs.len() == 0 {
        0
    } else {
        count_with(cs, fs.drop_last(), u) + if face_has(cs, 3, fs.last(), u) {
            1int
        } else {
            0int
        }
    }
}

/// Ring membership: a welded vertex other than `vid` touched by at least two
/// of `vid`'s incident triangles, the way a manifold one-ring shows itself
/// in a triangle fan.
pub open spec fn in_ring(cs: Seq<GPos>, nfaces: int, vid: int, u: int) -> bool {
    u != vid && count_with(cs, incident_upto(cs, 3, vid, nfaces), u) >= 2
}

/// The number of ring vertices among ids `0 .. u`.
pub open spec fn ring_size_upto(cs: Seq<GPos>, nfaces: int, vid: int, u: int) -> int
    decreases u,
{
    if u <= 0 {
        0
    } else {
        ring_size_upto(cs, nfaces, vid, u - 1) + if in_ring(cs, nfaces, vid, u - 1) {
            1int
        } else {
            0int
        }
    }
}

/// The sum of the representative positions of the ring vertices among ids
/// `0 .. u`.
pub open spec fn ring_sum_upto(cs: Seq<GPos>, nfaces: int, vid: int, u: int) -> GPos
    decreases u,
{
    if u <= 0 {
        gzero()
    } else {
        gadd(
            ring_sum_upto(cs, nfaces, vid, u - 1),
            if in_ring(cs, nfaces, vid, u - 1) {
                weld_reps(cs)[u - 1]
            } else {
                gzero()
            },
        )
    }
}

/// Some two distinct listed faces make a crease.
pub open spec fn tri_has_crease_pair(qs: Seq<GTri>, fs: Seq<int>) -> bool {
    exists|i: int, j: int|
        0 <= i < fs.len() && 0 <= j < fs.len() && i != j && crease_test(
            tri_normal(qs[#[trigger] fs[i]]),
            tri_normal(qs[#[trigger] fs[j]]),
        )
}

/// The repositioned (even) vertex of welded vertex `vid` at position `p`:
/// the boundary-like rule at ring size two, the original position at a
/// crease or with no ring, else `(1 - k b) p + b` times the ring sum with
/// `b = 3/16` at ring size three and `3 / (8 k)` otherwise.
pub open spec fn even_tri_spec(
    qs: Seq<GTri>,
    cs: Seq<GPos>,
    vid: int,
    p: GPos,
    creases: bool,
) -> GPos {
    let nfaces = qs.len() as int;
    let nreps = weld_reps(cs).len() as int;
    let k = ring_size_upto(cs, nfaces, vid, nreps);
    let s = ring_sum_upto(cs, nfaces, vid, nreps);
    if k == 2 {
        gdiv(gadd(gscale(6, p), s), 8)
    } else if creases && tri_has_crease_pair(qs, incident_upto(cs, 3, vid, nfaces)) {
        p
    } else if k == 0 {
        p
    } else if k == 3 {
        gdiv(gadd(gscale(7, p), gscale(3, s)), 16)
    } else {
        gdiv(gadd(gscale(5 * k, p), gscale(3, s)), 8 * k)
    }
}

/// Sub-triangle `k` of the Loop split of face `f`: three corner triangles
/// from the even corners and the odd edge vertices, and the central odd
/// triangle.
pub open spec fn loop_cell(qs: Seq<GTri>, f: int, k: int, creases: bool) -> GTri {
    let cs = tcorners(qs);
    let ab = odd_point_spec(qs, cs, f, 0, 1, 2, creases);
    let bc = odd_point_spec(qs, cs, f, 1, 2, 0, creases);
    let ac = odd_point_spec(qs, cs, f, 2, 0, 1, creases);
    let na = even_tri_spec(qs, cs, corner_id(cs, f * 3 + 0), qs[f].a, creases);
    let nb = even_tri_spec(qs, cs, corner_id(cs, f * 3 + 1), qs[f].b, creases);
    let nc = even_tri_spec(qs, cs, corner_id(cs, f * 3 + 2), qs[f].c, creases);
    if k == 0 {
        GTri { a: na, b: ab, c: ac }
    } else if k == 1 {
        GTri { a: nb, b: ab, c: bc }
    } else if k == 2 {
        GTri { a: nc, b: ac, c: bc }
    } else {
        GTri { a: ab, b: bc, c: ac }
    }
}

/// One Loop pass over every triangle, in face order.
pub open spec fn loop_once_spec(qs: Seq<GTri>, creases: bool) -> Seq<GTri> {
    Seq::new(qs.len() * 4, |i: int| loop_cell(qs, i / 4, i % 4, creases))
}

/// `levels` Loop passes.
pub open spec fn loop_spec(qs: Seq<GTri>, levels: nat, creases: bool) -> Seq<GTri>
    decreases levels,
{
    if levels == 0 {
        qs
    } else {
        loop_once_spec(loop_spec(qs, (levels - 1) as nat, creases), creases)
    }
}

/// The corners of a bounded triangle list are bounded.
pub proof fn lemma_tcorners_bounds(qs: Seq<GTri>, bound: int)
    requires
        tris_in_bounds(qs, bound),
    ensures
        forall|j: int| 0 <= j < tcorners(qs).len() ==> in_bounds(#[trigger] tcorners(qs)[j], bound),
{
    assert forall|j: int|
        0 <= j < tcorners(qs).len() implies in_bounds(#[trigger] tcorners(qs)[j], bound) by {
        vstd::arithmetic::div_mod::lemma_fundamental_div_mod(j, 3);
        assert(0 <= j / 3 < qs.len()) by (nonlinear_arith)
            requires
                0 <= j,
                j < qs.len() * 3,
                j == 3 * (j / 3) + j % 3,
                0 <= j % 3 < 3,
        ;
        assert(tri_in_bounds(qs[j / 3], bound));
    }
}

pub proof fn lemma_ring_bounds(cs: Seq<GPos>, nfaces: int, vid: int, u: int, bound: int)
    requires
        0 <= bound,
        forall|j: int| 0 <= j < cs.len() ==> in_bounds(#[trigger] cs[j], bound),
        0 <= u <= weld_reps(cs).len(),
    ensures
        0 <= ring_size_upto(cs, nfaces, vid, u) <= u,
        in_bounds(ring_sum_upto(cs, nfaces, vid, u), ring_size_upto(cs, nfaces, vid, u) * bound),
    decreases u,
{
    crate::weld::lemma_weld_reps_bounds(cs, bound);
    if u <= 0 {
    } else {
        lemma_ring_bounds(cs, nfaces, vid, u - 1, bound);
        let k1 = ring_size_upto(cs, nfaces, vid, u - 1);
        if in_ring(cs, nfaces, vid, u - 1) {
            assert(in_bounds(weld_reps(cs)[u - 1], bound));
            assert((k1 + 1) * bound == k1 * bound + bound) by (nonlinear_arith);
        }
    }
}

pub proof fn lemma_odd_point_bounds(
    qs: Seq<GTri>,
    cs: Seq<GPos>,
    me: int,
    ta: int,
    tb: int,
    tc: int,
    creases: bool,
    bound: int,
)
    requires
        0 <= bound,
        tris_in_bounds(qs, bound),
        0 <= me < qs.len(),
        0 <= ta < 3,
        0 <= tb < 3,
        0 <= tc < 3,
    ensures
        in_bounds(odd_point_spec(qs, cs, me, ta, tb, tc, creases), bound),
{
    let pa = tcorner(qs[me], ta);
    let pb = tcorner(qs[me], tb);
    let a_id = corner_id(cs, me * 3 + ta);
    let b_id = corner_id(cs, me * 3 + tb);
    lemma_tmid_in_bounds(pa, pb, bound);
    match adjacent_spec(cs, 3, qs.len() as int, a_id, b_id, me) {
        Some(nf) => {
            crate::weld::lemma_first_other(
                incident_upto(cs, 3, a_id, qs.len() as int),
                cs,
                3,
                b_id,
                me,
            );
            lemma_incident_upto(cs, 3, a_id, qs.len() as int);
            let fs = incident_upto(cs, 3, a_id, qs.len() as int);
            assert(0 <= nf < qs.len()) by {
                assert(fs.contains(nf));
                let k = choose|k: int| 0 <= k < fs.len() && fs[k] == nf;
            }
            let pc = tcorner(qs[me], tc);
            let pd = tcorner(qs[nf], opp_slot(cs, nf, a_id, b_id));
            let num = gadd(gadd(gscale(3, gadd(pa, pb)), pc), pd);
            lemma_div_bound(num.x, 8, bound);
            lemma_div_bound(num.y, 8, bound);
            lemma_div_bound(num.z, 8, bound);
        },
        None => {},
    }
}

pub proof fn lemma_even_tri_bounds(
    qs: Seq<GTri>,
    cs: Seq<GPos>,
    vid: int,
    p: GPos,
    creases: bool,
    bound: int,
)
    requires
        0 <= bound,
        tris_in_bounds(qs, bound),
        in_bounds(p, bound),
        forall|j: int| 0 <= j < cs.len() ==> in_bounds(#[trigger] cs[j], bound),
    ensures
        in_bounds(even_tri_spec(qs, cs, vid, p, creases), bound),
{
    let nfaces = qs.len() as int;
    let nreps = weld_reps(cs).len() as int;
    lemma_ring_bounds(cs, nfaces, vid, nreps, bound);
    let k = ring_size_upto(cs, nfaces, vid, nreps);
    let s = ring_sum_upto(cs, nfaces, vid, nreps);
    if k == 2 {
        assert(k * bound == 2 * bound) by (nonlinear_arith)
            requires
                k == 2,
        ;
        let num = gadd(gscale(6, p), s);
        lemma_div_bound(num.x, 8, bound);
        lemma_div_bound(num.y, 8, bound);
        lemma_div_bound(num.z, 8, bound);
    } else if creases && tri_has_crease_pair(qs, incident_upto(cs, 3, vid, nfaces)) {
    } else if k == 0 {
    } else if k == 3 {
        assert(k * bound == 3 * bound) by (nonlinear_arith)
            requires
                k == 3,
        ;
        let num = gadd(gscale(7, p), gscale(3, s));
        lemma_div_bound(num.x, 16, bound);
        lemma_div_bound(num.y, 16, bound);
        lemma_div_bound(num.z, 16, bound);
    } else {
        let num = gadd(gscale(5 * k, p), gscale(3, s));
        assert(-(5 * k * bound) <= (5 * k) * p.x <= 5 * k * bound && -(5 * k * bound) <= (5 * k)
            * p.y <= 5 * k * bound && -(5 * k * bound) <= (5 * k) * p.z <= 5 * k
            * bound) by (nonlinear_arith)
            requires
                k >= 1,
                bound >= 0,
                -bound <= p.x <= bound,
                -bound <= p.y <= bound,
                -bound <= p.z <= bound,
        ;
        assert(-(3 * (k * bound)) <= 3 * s.x <= 3 * (k * bound) && -(3 * (k * bound)) <= 3 * s.y
            <= 3 * (k * bound) && -(3 * (k * bound)) <= 3 * s.z <= 3 * (k
            * bound)) by (nonlinear_arith)
            requires
                -(k * bound) <= s.x <= k * bound,
                -(k * bound) <= s.y <= k * bound,
                -(k * bound) <= s.z <= k * bound,
        ;
        assert(5 * k * bound + 3 * (k * bound) == (8 * k) * bound) by (nonlinear_arith);
        lemma_div_bound(num.x, 8 * k, bound);
        lemma_div_bound(num.y, 8 * k, bound);
        lemma_div_bound(num.z, 8 * k, bound);
    }
}

pub proof fn lemma_loop_once_bounds(qs: Seq<GTri>, creases: bool, bound: int)
    requires
        0 <= bound,
        tris_in_bounds(qs, bound),
    ensures
        tris_in_bounds(loop_once_spec(qs, creases), bound),
{
    lemma_tcorners_bounds(qs, bound);
    assert forall|i: int|
        0 <= i < loop_once_spec(qs, creases).len() implies tri_in_bounds(
        #[trigger] loop_once_spec(qs, creases)[i],
        bound,
    ) by {
        vstd::arithmetic::div_mod::lemma_fundamental_div_mod(i, 4);
        assert(0 <= i / 4 < qs.len()) by (nonlinear_arith)
            requires
                0 <= i,
                i < qs.len() * 4,
                i == 4 * (i / 4) + i % 4,
                0 <= i % 4 < 4,
        ;
        let f = i / 4;
        let cs = tcorners(qs);
        lemma_odd_point_bounds(qs, cs, f, 0, 1, 2, creases, bound);
        lemma_odd_point_bounds(qs, cs, f, 1, 2, 0, creases, bound);
        lemma_odd_point_bounds(qs, cs, f, 2, 0, 1, creases, bound);
        lemma_even_tri_bounds(qs, cs, corner_id(cs, f * 3 + 0), qs[f].a, creases, bound);
        lemma_even_tri_bounds(qs, cs, corner_id(cs, f * 3 + 1), qs[f].b, creases, bound);
        lemma_even_tri_bounds(qs, cs, corner_id(cs, f * 3 + 2), qs[f].c, creases, bound);
    }
}

/// When the two triangles across an edge have opposed normals (their dot
/// product is negative, as when they fold back onto each other), the edge is
/// a crease: with creases kept, the odd vertex is the plain midpoint of the
/// edge, and without them it is the full four-point blend.
pub proof fn lemma_opposed_normals_lock_edge(
    qs: Seq<GTri>,
    me: int,
    ta: int,
    tb: int,
    tc: int,
)
    requires
        0 <= me < qs.len(),
        ({
            let cs = tcorners(qs);
            let a_id = corner_id(cs, me * 3 + ta);
            let b_id = corner_id(cs, me * 3 + tb);
            adjacent_spec(cs, 3, qs.len() as int, a_id, b_id, me) is Some
        }),
        ({
            let cs = tcorners(qs);
            let pa = tcorner(qs[me], ta);
            let pb = tcorner(qs[me], tb);
            let pc = tcorner(qs[me], tc);
            let a_id = corner_id(cs, me * 3 + ta);
            let b_id = corner_id(cs, me * 3 + tb);
            let nf = adjacent_spec(cs, 3, qs.len() as int, a_id, b_id, me)->0;
            let pd = tcorner(qs[nf], opp_slot(cs, nf, a_id, b_id));
            crate::mesh::dot(
                cross(gsub(pa, pb), gsub(pa, pc)),
                cross(gsub(pa, pd), gsub(pa, pb)),
            ) < 0
        }),
    ensures
        ({
            let cs = tcorners(qs);
            let pa = tcorner(qs[me], ta);
            let pb = tcorner(qs[me], tb);
            odd_point_spec(qs, cs, me, ta, tb, tc, true) == mid2(pa, pb)
        }),
        ({
            let cs = tcorners(qs);
            let pa = tcorner(qs[me], ta);
            let pb = tcorner(qs[me], tb);
            let pc = tcorner(qs[me], tc);
            let a_id = corner_id(cs, me * 3 + ta);
            let b_id = corner_id(cs, me * 3 + tb);
            let nf = adjacent_spec(cs, 3, qs.len() as int, a_id, b_id, me)->0;
            let pd = tcorner(qs[nf], opp_slot(cs, nf, a_id, b_id));
            odd_point_spec(qs, cs, me, ta, tb, tc, false) == gdiv(
                gadd(gadd(gscale(3, gadd(pa, pb)), pc), pd),
                8,
            )
        }),
{
}


/// Corner `t` of a triangle, at run time.
pub fn tri_corner(q: &Triangle, t: usize) -> (r: Vertex)
    requires
        t < 3,
    ensures
        r@ == tcorner(q@, t as int),
{
    if t == 0 {
        q.a
    } else if t == 1 {
        q.b
    } else {
        q.c
    }
}

/// The odd (new edge) vertex for edge `(ta, tb)` of face `me` with third
/// slot `tc`: the midpoint on a boundary or sharp join, else the four-point
/// blend with the opposite vertices.
#[verifier::rlimit(100)]
#[verifier::spinoff_prover]
pub fn compute_odd(
    triangles: &Vec<Triangle>,
    map: &VertexMap,
    me: usize,
    ta: usize,
    tb: usize,
    tc: usize,
    creases: bool,
) -> (r: Vertex)
    requires
        map.wf(tcorners(tris_view(triangles@)), 3),
        tris_in_bounds(tris_view(triangles@), MAXC as int),
        me < triangles.len(),
        ta < 3,
        tb < 3,
        tc < 3,
    ensures
        r@ == odd_point_spec(
            tris_view(triangles@),
            tcorners(tris_view(triangles@)),
            me as int,
            ta as int,
            tb as int,
            tc as int,
            creases,
        ),
{
    let ghost qv = tris_view(triangles@);
    let ghost cs = tcorners(qv);
    proof {
        lemma_tri_corner_index(qv.len() as int, me as int, ta as int);
        lemma_tri_corner_index(qv.len() as int, me as int, tb as int);
        assert(cs.len() == qv.len() * 3);
        vstd::arithmetic::div_mod::lemma_fundamental_div_mod_converse(
            cs.len() as int,
            3,
            qv.len() as int,
            0,
        );
    }
    let q = triangles[me];
    proof {
        assert(q@ == qv[me as int]);
    }
    let pa = tri_corner(&q, ta);
    let pb = tri_corner(&q, tb);
    let pc = tri_corner(&q, tc);
    let a_id = map.ids[me * 3 + ta];
    let b_id = map.ids[me * 3 + tb];
    match get_furthest_vertex(a_id, b_id, me, triangles, map) {
        None => midpoint(&pa, &pb),
        Some(d) => {
            let ghost nf = adjacent_spec(
                cs,
                3,
                qv.len() as int,
                a_id as int,
                b_id as int,
                me as int,
            )->0;
            proof {
                crate::weld::lemma_first_other(
                    incident_upto(cs, 3, a_id as int, qv.len() as int),
                    cs,
                    3,
                    b_id as int,
                    me as int,
                );
                lemma_incident_upto(cs, 3, a_id as int, qv.len() as int);
                let fs = incident_upto(cs, 3, a_id as int, qv.len() as int);
                assert(0 <= nf < qv.len()) by {
                    assert(fs.contains(nf));
                    let kk = choose|kk: int| 0 <= kk < fs.len() && fs[kk] == nf;
                }
                assert(tri_in_bounds(qv[nf], MAXC as int));
                assert(in_bounds(d@, MAXC as int));
            }
            if creases {
                let n1 = cross_of_diffs(&pa, &pb, &pa, &pc);
                let n2 = cross_of_diffs(&pa, &d, &pa, &pb);
                if edge_is_crease(n1, n2) {
                    return midpoint(&pa, &pb);
                }
            }
            let nx: i128 = 3 * (pa.x as i128 + pb.x as i128) + pc.x as i128 + d.x as i128;
            let ny: i128 = 3 * (pa.y as i128 + pb.y as i128) + pc.y as i128 + d.y as i128;
            let nz: i128 = 3 * (pa.z as i128 + pb.z as i128) + pc.z as i128 + d.z as i128;
            proof {
                let num = gadd(gadd(gscale(3, gadd(pa@, pb@)), pc@), d@);
                lemma_div_bound(num.x, 8, MAXC as int);
                lemma_div_bound(num.y, 8, MAXC as int);
                lemma_div_bound(num.z, 8, MAXC as int);
            }
            Vertex {
                x: crate::arith::div_floor(nx, 8) as i64,
                y: crate::arith::div_floor(ny, 8) as i64,
                z: crate::arith::div_floor(nz, 8) as i64,
            }
        },
    }
}

/// The repositioned (even) position of the welded vertex `vid`, currently
/// at `v`: the ring of vertices shared by at least two incident triangles
/// decides the blend; a crease or an empty ring keeps the position.
#[verifier::rlimit(80)]
pub fn compute_even(
    v: &Vertex,
    vid: usize,
    triangles: &Vec<Triangle>,
    map: &VertexMap,
    creases: bool,
) -> (r: Vertex)
    requires
        map.wf(tcorners(tris_view(triangles@)), 3),
        tris_in_bounds(tris_view(triangles@), MAXC as int),
        in_bounds(v@, MAXC as int),
        vid < map.incident.len(),
    ensures
        r@ == even_tri_spec(
            tris_view(triangles@),
            tcorners(tris_view(triangles@)),
            vid as int,
            v@,
            creases,
        ),
{
    let ghost qv = tris_view(triangles@);
    let ghost cs = tcorners(qv);
    let ghost fs = incident_upto(cs, 3, vid as int, qv.len() as int);
    proof {
        lemma_incident_upto(cs, 3, vid as int, qv.len() as int);
        assert(cs.len() == qv.len() * 3);
        vstd::arithmetic::div_mod::lemma_fundamental_div_mod_converse(
            cs.len() as int,
            3,
            qv.len() as int,
            0,
        );
        lemma_tcorners_bounds(qv, MAXC as int);
        crate::weld::lemma_weld_reps_bounds(cs, MAXC as int);
    }
    let nreps = map.reps.len();
    let nrow = map.incident[vid].len();
    let mut k: usize = 0;
    let mut sx: i128 = 0;
    let mut sy: i128 = 0;
    let mut sz: i128 = 0;
    let mut u: usize = 0;
    while u < nreps
        invariant
            u <= nreps,
            map.wf(cs, 3),
            cs == tcorners(qv),
            qv == tris_view(triangles@),
            tris_in_bounds(qv, MAXC as int),
            vid < map.incident.len(),
            nreps == map.reps.len(),
            nrow == map.incident[vid as int].len(),
            fs == incident_upto(cs, 3, vid as int, qv.len() as int),
            nrow == fs.len(),
            k as int == ring_size_upto(cs, qv.len() as int, vid as int, u as int),
            k <= u,
            sx as int == ring_sum_upto(cs, qv.len() as int, vid as int, u as int).x,
            sy as int == ring_sum_upto(cs, qv.len() as int, vid as int, u as int).y,
            sz as int == ring_sum_upto(cs, qv.len() as int, vid as int, u as int).z,
            -(k as int * (MAXC as int)) <= sx as int <= k as int * (MAXC as int),
            -(k as int * (MAXC as int)) <= sy as int <= k as int * (MAXC as int),
            -(k as int * (MAXC as int)) <= sz as int <= k as int * (MAXC as int),
        decreases nreps - u,
    {
        let ghost fsu = fs;
        let mut cnt: usize = 0;
        let mut idx: usize = 0;
        proof {
            assert(fs.take(0) =~= Seq::<int>::empty());
        }
        while idx < nrow
            invariant
                idx <= nrow,
                map.wf(cs, 3),
                cs == tcorners(qv),
                qv == tris_view(triangles@),
                vid < map.incident.len(),
                nrow == map.incident[vid as int].len(),
                fs == incident_upto(cs, 3, vid as int, qv.len() as int),
                nrow == fs.len(),
                u < nreps,
                nreps == map.reps.len(),
                cnt as int == count_with(cs, fs.take(idx as int), u as int),
                cnt <= idx,
            decreases nrow - idx,
        {
            let f = map.incident[vid][idx];
            proof {
                lemma_incident_upto(cs, 3, vid as int, qv.len() as int);
                assert(f as int == fs[idx as int]);
                assert(0 <= fs[idx as int] < qv.len());
                assert((f as int) * 3 + 3 <= cs.len()) by (nonlinear_arith)
                    requires
                        0 <= f as int,
                        (f as int) < qv.len(),
                        cs.len() == qv.len() * 3,
                ;
            }
            let touches = match find_in_face(map, f, u, Ghost(cs), 3) {
                Some(_) => true,
                None => false,
            };
            if touches {
                cnt += 1;
            }
            proof {
                assert(fs.take(idx as int + 1).drop_last() =~= fs.take(idx as int));
                assert(fs.take(idx as int + 1).last() == fs[idx as int]);
            }
            idx += 1;
        }
        proof {
            assert(fs.take(nrow as int) =~= fs);
        }
        if u != vid && cnt >= 2 {
            let rep = map.reps[u];
            proof {
                assert(rep@ == weld_reps(cs)[u as int]);
                assert(in_bounds(rep@, MAXC as int));
                assert(in_ring(cs, qv.len() as int, vid as int, u as int));
                assert((k as int + 1) * (MAXC as int) == k as int * (MAXC as int) + (
                MAXC as int)) by (nonlinear_arith);
            }
            k += 1;
            sx = sx + rep.x as i128;
            sy = sy + rep.y as i128;
            sz = sz + rep.z as i128;
        } else {
            proof {
                assert(!in_ring(cs, qv.len() as int, vid as int, u as int));
            }
        }
        u += 1;
    }
    let ghost ki = ring_size_upto(cs, qv.len() as int, vid as int, weld_reps(cs).len() as int);
    let ghost si = ring_sum_upto(cs, qv.len() as int, vid as int, weld_reps(cs).len() as int);
    proof {
        assert(k as int == ki && sx as int == si.x && sy as int == si.y && sz as int == si.z);
        assert(k as int * (MAXC as int) < 0x1_0000_0000_0000_0000_0000_0000) by (nonlinear_arith)
            requires
                k as int <= 0x1_0000_0000_0000_0000,
                MAXC == 536870912,
        ;
    }
    if k == 2 {
        let nx: i128 = 6 * v.x as i128 + sx;
        let ny: i128 = 6 * v.y as i128 + sy;
        let nz: i128 = 6 * v.z as i128 + sz;
        proof {
            let num = gadd(gscale(6, v@), si);
            lemma_div_bound(num.x, 8, 2 * MAXC as int);
            lemma_div_bound(num.y, 8, 2 * MAXC as int);
            lemma_div_bound(num.z, 8, 2 * MAXC as int);
        }
        return Vertex {
            x: crate::arith::div_floor(nx, 8) as i64,
            y: crate::arith::div_floor(ny, 8) as i64,
            z: crate::arith::div_floor(nz, 8) as i64,
        };
    }
    if creases {
        let mut i: usize = 0;
        while i < nrow
            invariant
                i <= nrow,
                creases,
                ring_size_upto(cs, qv.len() as int, vid as int, weld_reps(cs).len() as int) != 2,
                in_bounds(v@, MAXC as int),
                map.wf(cs, 3),
                cs == tcorners(qv),
                qv == tris_view(triangles@),
                tris_in_bounds(qv, MAXC as int),
                vid < map.incident.len(),
                nrow == map.incident[vid as int].len(),
                fs == incident_upto(cs, 3, vid as int, qv.len() as int),
                nrow == fs.len(),
                forall|x: int, y: int|
                    0 <= x < i && 0 <= y < nrow && x != y ==> !crease_test(
                        tri_normal(qv[#[trigger] fs[x]]),
                        tri_normal(qv[#[trigger] fs[y]]),
                    ),
            decreases nrow - i,
        {
            let fi = map.incident[vid][i];
            let mut j: usize = 0;
            while j < nrow
                invariant
                    j <= nrow,
                    i < nrow,
                    creases,
                    ring_size_upto(cs, qv.len() as int, vid as int, weld_reps(cs).len() as int)
                        != 2,
                    in_bounds(v@, MAXC as int),
                    map.wf(cs, 3),
                    cs == tcorners(qv),
                    qv == tris_view(triangles@),
                    tris_in_bounds(qv, MAXC as int),
                    vid < map.incident.len(),
                    nrow == map.incident[vid as int].len(),
                    fs == incident_upto(cs, 3, vid as int, qv.len() as int),
                    nrow == fs.len(),
                    fi == map.incident[vid as int][i as int],
                    forall|y: int|
                        0 <= y < j && i as int != y ==> !crease_test(
                            tri_normal(qv[fs[i as int]]),
                            tri_normal(qv[#[trigger] fs[y]]),
                        ),
                decreases nrow - j,
            {
                if i != j {
                    let fj = map.incident[vid][j];
                    proof {
                        lemma_incident_upto(cs, 3, vid as int, qv.len() as int);
                        assert(fi as int == fs[i as int]);
                        assert(fj as int == fs[j as int]);
                        assert(0 <= fs[i as int] < qv.len());
                        assert(0 <= fs[j as int] < qv.len());
                        assert(qv[fi as int] == triangles[fi as int]@);
                        assert(qv[fj as int] == triangles[fj as int]@);
                    }
                    let ti = triangles[fi];
                    let tj = triangles[fj];
                    let n1 = cross_of_diffs(&ti.a, &ti.b, &ti.b, &ti.c);
                    let n2 = cross_of_diffs(&tj.a, &tj.b, &tj.b, &tj.c);
                    if edge_is_crease(n1, n2) {
                        proof {
                            assert(crease_test(
                                tri_normal(qv[fs[i as int]]),
                                tri_normal(qv[fs[j as int]]),
                            ));
                            assert(tri_has_crease_pair(qv, fs));
                            assert(even_tri_spec(qv, cs, vid as int, v@, creases) == v@);
                        }
                        return *v;
                    }
                }
                j += 1;
            }
            i += 1;
        }
        proof {
            if tri_has_crease_pair(qv, fs) {
                let (x, y) = choose|x: int, y: int|
                    0 <= x < fs.len() && 0 <= y < fs.len() && x != y && crease_test(
                        tri_normal(qv[#[trigger] fs[x]]),
                        tri_normal(qv[#[trigger] fs[y]]),
                    );
                assert(!crease_test(tri_normal(qv[fs[x]]), tri_normal(qv[fs[y]])));
                assert(false);
            }
        }
    }
    if k == 0 {
        return *v;
    }
    if k == 3 {
        let nx: i128 = 7 * v.x as i128 + 3 * sx;
        let ny: i128 = 7 * v.y as i128 + 3 * sy;
        let nz: i128 = 7 * v.z as i128 + 3 * sz;
        proof {
            let num = gadd(gscale(7, v@), gscale(3, si));
            lemma_div_bound(num.x, 16, MAXC as int);
            lemma_div_bound(num.y, 16, MAXC as int);
            lemma_div_bound(num.z, 16, MAXC as int);
        }
        return Vertex {
            x: crate::arith::div_floor(nx, 16) as i64,
            y: crate::arith::div_floor(ny, 16) as i64,
            z: crate::arith::div_floor(nz, 16) as i64,
        };
    }
    let kk = k as i128;
    proof {
        crate::mesh::lemma_abs_mul_bound(5 * k as int, v.x as int, 5 * (k as int), MAXC as int);
        crate::mesh::lemma_abs_mul_bound(5 * k as int, v.y as int, 5 * (k as int), MAXC as int);
        crate::mesh::lemma_abs_mul_bound(5 * k as int, v.z as int, 5 * (k as int), MAXC as int);
        assert(5 * (k as int) * (MAXC as int)
            < 0x1_0000_0000_0000_0000_0000_0000_0000) by (nonlinear_arith)
            requires
                k as int <= 0x1_0000_0000_0000_0000,
                MAXC == 536870912,
        ;
    }
    let nx: i128 = 5 * kk * v.x as i128 + 3 * sx;
    let ny: i128 = 5 * kk * v.y as i128 + 3 * sy;
    let nz: i128 = 5 * kk * v.z as i128 + 3 * sz;
    proof {
        let num = gadd(gscale(5 * k as int, v@), gscale(3, si));
        assert(-(8 * k as int * (MAXC as int)) <= num.x <= 8 * k as int * (
        MAXC as int)) by (nonlinear_arith)
            requires
                num.x == (5 * k as int) * (v.x as int) + 3 * si.x,
                -(5 * k as int * (MAXC as int)) <= (5 * k as int) * (v.x as int) <= 5 * k as int
                    * (MAXC as int),
                -(k as int * (MAXC as int)) <= si.x <= k as int * (MAXC as int),
        ;
        assert(-(8 * k as int * (MAXC as int)) <= num.y <= 8 * k as int * (
        MAXC as int)) by (nonlinear_arith)
            requires
                num.y == (5 * k as int) * (v.y as int) + 3 * si.y,
                -(5 * k as int * (MAXC as int)) <= (5 * k as int) * (v.y as int) <= 5 * k as int
                    * (MAXC as int),
                -(k as int * (MAXC as int)) <= si.y <= k as int * (MAXC as int),
        ;
        assert(-(8 * k as int * (MAXC as int)) <= num.z <= 8 * k as int * (
        MAXC as int)) by (nonlinear_arith)
            requires
                num.z == (5 * k as int) * (v.z as int) + 3 * si.z,
                -(5 * k as int * (MAXC as int)) <= (5 * k as int) * (v.z as int) <= 5 * k as int
                    * (MAXC as int),
                -(k as int * (MAXC as int)) <= si.z <= k as int * (MAXC as int),
        ;
        assert(8 * k as int * (MAXC as int) == (8 * k as int) * (MAXC as int)) by (nonlinear_arith);
        lemma_div_bound(num.x, 8 * k as int, MAXC as int);
        lemma_div_bound(num.y, 8 * k as int, MAXC as int);
        lemma_div_bound(num.z, 8 * k as int, MAXC as int);
        assert(k >= 1);
    }
    Vertex {
        x: crate::arith::div_floor(nx, 8 * kk) as i64,
        y: crate::arith::div_floor(ny, 8 * kk) as i64,
        z: crate::arith::div_floor(nz, 8 * kk) as i64,
    }
}


/// One Loop pass: per triangle, three odd edge vertices and three
/// repositioned corners, emitted as four sub-triangles.
#[verifier::rlimit(100)]
#[verifier::spinoff_prover]
pub fn loop_subdivide_once(triangles: Vec<Triangle>, creases: bool) -> (r: Vec<Triangle>)
    requires
        tris_in_bounds(tris_view(triangles@), MAXC as int),
    ensures
        r@.len() == 4 * triangles@.len(),
        tris_view(r@) == loop_once_spec(tris_view(triangles@), creases),
        tris_in_bounds(tris_view(r@), MAXC as int),
{
    let ghost qv = tris_view(triangles@);
    let ghost cs = tcorners(qv);
    let map = get_vertex_map(&triangles);
    let mut r: Vec<Triangle> = Vec::new();
    let mut me: usize = 0;
    while me < triangles.len()
        invariant
            me <= triangles.len(),
            qv == tris_view(triangles@),
            cs == tcorners(qv),
            qv.len() == triangles.len(),
            tris_in_bounds(qv, MAXC as int),
            map.wf(cs, 3),
            r.len() == 4 * me,
            forall|x: int|
                0 <= x < r.len() ==> r[x]@ == #[trigger] loop_once_spec(qv, creases)[x],
        decreases triangles.len() - me,
    {
        let q = triangles[me];
        proof {
            assert(q@ == qv[me as int]);
            lemma_tri_corner_index(qv.len() as int, me as int, 0);
            lemma_tri_corner_index(qv.len() as int, me as int, 1);
            lemma_tri_corner_index(qv.len() as int, me as int, 2);
            assert(cs.len() == qv.len() * 3);
            vstd::arithmetic::div_mod::lemma_fundamental_div_mod_converse(
                cs.len() as int,
                3,
                qv.len() as int,
                0,
            );
        }
        let ab = compute_odd(&triangles, &map, me, 0, 1, 2, creases);
        let bc = compute_odd(&triangles, &map, me, 1, 2, 0, creases);
        let ac = compute_odd(&triangles, &map, me, 2, 0, 1, creases);
        let vid_a = map.ids[me * 3 + 0];
        let vid_b = map.ids[me * 3 + 1];
        let vid_c = map.ids[me * 3 + 2];
        let na = compute_even(&q.a, vid_a, &triangles, &map, creases);
        let nb = compute_even(&q.b, vid_b, &triangles, &map, creases);
        let nc = compute_even(&q.c, vid_c, &triangles, &map, creases);
        r.push(Triangle { a: na, b: ab, c: ac });
        r.push(Triangle { a: nb, b: ab, c: bc });
        r.push(Triangle { a: nc, b: ac, c: bc });
        r.push(Triangle { a: ab, b: bc, c: ac });
        proof {
            let ii = me as int;
            assert forall|x: int| 0 <= x < 4 implies #[trigger] ((4 * ii + x) / 4) == ii && (4 * ii
                + x) % 4 == x by {
                vstd::arithmetic::div_mod::lemma_fundamental_div_mod_converse(
                    4 * ii + x,
                    4,
                    ii,
                    x,
                );
            }
            assert(r[4 * ii + 0]@ == loop_cell(qv, ii, 0, creases));
            assert(r[4 * ii + 1]@ == loop_cell(qv, ii, 1, creases));
            assert(r[4 * ii + 2]@ == loop_cell(qv, ii, 2, creases));
            assert(r[4 * ii + 3]@ == loop_cell(qv, ii, 3, creases));
        }
        me += 1;
    }
    proof {
        assert(tris_view(r@) =~= loop_once_spec(qv, creases));
        lemma_loop_once_bounds(qv, creases, MAXC as int);
    }
    r
}

/// `levels` Loop passes; zero levels is the identity. The Loop rules are
/// convex blends, so coordinates never leave the accepted range.
pub fn loop_subdivide(triangles: Vec<Triangle>, levels: u32, creases: bool) -> (r: Vec<Triangle>)
    requires
        tris_in_bounds(tris_view(triangles@), MAXC as int),
    ensures
        tris_view(r@) == loop_spec(tris_view(triangles@), levels as nat, creases),
        levels == 0 ==> r@ == triangles@,
        tris_in_bounds(tris_view(r@), MAXC as int),
{
    let ghost q0 = triangles@;
    let ghost qv0 = tris_view(triangles@);
    let mut triangles = triangles;
    let mut l: u32 = 0;
    while l < levels
        invariant
            l <= levels,
            tris_view(triangles@) == loop_spec(qv0, l as nat, creases),
            tris_in_bounds(tris_view(triangles@), MAXC as int),
            l == 0 ==> triangles@ == q0,
        decreases levels - l,
    {
        triangles = loop_subdivide_once(triangles, creases);
        l += 1;
    }
    triangles
}

/// The neighbors of a triangle across its three edges a-b, b-c, c-a.
#[derive(Clone, Copy, Debug)]
pub struct TriNeighbors {
    pub ab: Option<usize>,
    pub bc: Option<usize>,
    pub ca: Option<usize>,
}

/// The two slots of edge `e` of a triangle.
pub open spec fn tedge_slots(e: int) -> (int, int) {
    if e == 0 {
        (0int, 1int)
    } else if e == 1 {
        (1int, 2int)
    } else {
        (2int, 0int)
    }
}

/// The neighbor of face `f` across its edge `e`.
pub open spec fn tadj(cs: Seq<GPos>, nfaces: int, f: int, e: int) -> Option<int> {
    let st = tedge_slots(e);
    adjacent_spec(cs, 3, nfaces, corner_id(cs, f * 3 + st.0), corner_id(cs, f * 3 + st.1), f)
}

/// Entry `e` of a neighbor record.
pub open spec fn tn_entry(x: TriNeighbors, e: int) -> Option<int> {
    let o = if e == 0 {
        x.ab
    } else if e == 1 {
        x.bc
    } else {
        x.ca
    };
    match o {
        Some(u) => Some(u as int),
        None => None,
    }
}

/// Entry `e` of a neighbor record, at run time.
pub fn tn_at(x: &TriNeighbors, e: usize) -> (r: Option<usize>)
    requires
        e < 3,
    ensures
        tn_entry(*x, e as int) == (match r {
            Some(u) => Some(u as int),
            None => None::<int>,
        }),
{
    if e == 0 {
        x.ab
    } else if e == 1 {
        x.bc
    } else {
        x.ca
    }
}

/// The per-face adjacency table: for each triangle and each of its edges,
/// the neighbor across that edge, if any.
pub fn get_adjacency(triangles: &Vec<Triangle>) -> (r: Vec<TriNeighbors>)
    requires
        tris_in_bounds(tris_view(triangles@), MAXC as int),
    ensures
        r@.len() == triangles@.len(),
        forall|f: int, e: int|
            0 <= f < triangles@.len() && 0 <= e < 3 ==> #[trigger] tn_entry(r@[f], e) == tadj(
                tcorners(tris_view(triangles@)),
                triangles@.len() as int,
                f,
                e,
            ),
{
    let ghost qv = tris_view(triangles@);
    let ghost cs = tcorners(qv);
    let map = get_vertex_map(triangles);
    let mut r: Vec<TriNeighbors> = Vec::new();
    let mut f: usize = 0;
    while f < triangles.len()
        invariant
            f <= triangles.len(),
            qv == tris_view(triangles@),
            cs == tcorners(qv),
            qv.len() == triangles.len(),
            tris_in_bounds(qv, MAXC as int),
            map.wf(cs, 3),
            r.len() == f,
            forall|g: int, e: int|
                0 <= g < f && 0 <= e < 3 ==> #[trigger] tn_entry(r@[g], e) == tadj(
                    cs,
                    qv.len() as int,
                    g,
                    e,
                ),
        decreases triangles.len() - f,
    {
        proof {
            lemma_tri_corner_index(qv.len() as int, f as int, 0);
            lemma_tri_corner_index(qv.len() as int, f as int, 1);
            lemma_tri_corner_index(qv.len() as int, f as int, 2);
            assert(cs.len() == qv.len() * 3);
            vstd::arithmetic::div_mod::lemma_fundamental_div_mod_converse(
                cs.len() as int,
                3,
                qv.len() as int,
                0,
            );
        }
        let i0 = map.ids[f * 3 + 0];
        let i1 = map.ids[f * 3 + 1];
        let i2 = map.ids[f * 3 + 2];
        let ab = adjacent_core(&map, i0, i1, f, Ghost(cs), 3);
        let bc = adjacent_core(&map, i1, i2, f, Ghost(cs), 3);
        let ca = adjacent_core(&map, i2, i0, f, Ghost(cs), 3);
        r.push(TriNeighbors { ab, bc, ca });
        f += 1;
    }
    r
}

/// Whether the neighbor across edge `e` of face `f` is already colored with
/// `cidx`.
pub open spec fn tedge_taken(
    cs: Seq<GPos>,
    nfaces: int,
    f: int,
    e: int,
    prev: Seq<int>,
    cidx: int,
) -> bool {
    match tadj(cs, nfaces, f, e) {
        Some(j) => 0 <= j < prev.len() && prev[j] == cidx,
        None => false,
    }
}

/// Whether some already-colored neighbor of face `f` holds color `cidx`.
pub open spec fn tcolor_taken(
    cs: Seq<GPos>,
    nfaces: int,
    f: int,
    prev: Seq<int>,
    cidx: int,
) -> bool {
    exists|e: int| 0 <= e < 3 && #[trigger] tedge_taken(cs, nfaces, f, e, prev, cidx)
}

/// The lowest palette index not taken by an already-colored neighbor; `4`
/// never happens, since a triangle has only three edges.
pub open spec fn tpick_color(cs: Seq<GPos>, nfaces: int, f: int, prev: Seq<int>) -> int {
    if !tcolor_taken(cs, nfaces, f, prev, 0) {
        0
    } else if !tcolor_taken(cs, nfaces, f, prev, 1) {
        1
    } else if !tcolor_taken(cs, nfaces, f, prev, 2) {
        2
    } else if !tcolor_taken(cs, nfaces, f, prev, 3) {
        3
    } else {
        4
    }
}

/// The greedy colors of faces `0 .. f`, in face order.
pub open spec fn tcolors_upto(cs: Seq<GPos>, nfaces: int, f: int) -> Seq<int>
    decreases f,
{
    if f <= 0 {
        Seq::empty()
    } else {
        let prev = tcolors_upto(cs, nfaces, f - 1);
        prev.push(tpick_color(cs, nfaces, f - 1, prev))
    }
}

pub proof fn lemma_tcolors_upto_len(cs: Seq<GPos>, nfaces: int, f: int)
    requires
        f >= 0,
    ensures
        tcolors_upto(cs, nfaces, f).len() == f,
    decreases f,
{
    if f > 0 {
        lemma_tcolors_upto_len(cs, nfaces, f - 1);
    }
}

/// With only three edges, at most three palette indexes can be taken, so
/// the greedy pick always finds a free color among the four.
pub proof fn lemma_tpick_color_free(cs: Seq<GPos>, nfaces: int, f: int, prev: Seq<int>)
    ensures
        0 <= tpick_color(cs, nfaces, f, prev) < 4,
        !tcolor_taken(cs, nfaces, f, prev, tpick_color(cs, nfaces, f, prev)),
{
    if tcolor_taken(cs, nfaces, f, prev, 0) && tcolor_taken(cs, nfaces, f, prev, 1)
        && tcolor_taken(cs, nfaces, f, prev, 2) && tcolor_taken(cs, nfaces, f, prev, 3) {
        let e0 = choose|e: int| 0 <= e < 3 && #[trigger] tedge_taken(cs, nfaces, f, e, prev, 0);
        let e1 = choose|e: int| 0 <= e < 3 && #[trigger] tedge_taken(cs, nfaces, f, e, prev, 1);
        let e2 = choose|e: int| 0 <= e < 3 && #[trigger] tedge_taken(cs, nfaces, f, e, prev, 2);
        let e3 = choose|e: int| 0 <= e < 3 && #[trigger] tedge_taken(cs, nfaces, f, e, prev, 3);
        assert(e0 == e1 || e0 == e2 || e0 == e3 || e1 == e2 || e1 == e3 || e2 == e3);
        assert(false);
    }
}

/// Sum of the three raw corner positions of every triangle.
pub open spec fn tri_centroid_sum(qs: Seq<GTri>) -> GPos
    decreases qs.len(),
{
    if qs.len() == 0 {
        gzero()
    } else {
        gadd(
            tri_centroid_sum(qs.drop_last()),
            gadd(gadd(qs.last().a, qs.last().b), qs.last().c),
        )
    }
}

/// Slot `k` of the three-entry emission of a triangle.
pub open spec fn tri_stream_slot(q: GTri, k: int) -> GPos {
    if k == 0 {
        q.a
    } else if k == 1 {
        q.b
    } else {
        q.c
    }
}

/// Every corner shifted by `-cpos`.
pub open spec fn shift_tri(q: GTri, cpos: GPos) -> GTri {
    GTri { a: gsub(q.a, cpos), b: gsub(q.b, cpos), c: gsub(q.c, cpos) }
}

pub open spec fn tris_shifted(qs: Seq<GTri>, cpos: GPos) -> Seq<GTri> {
    Seq::new(qs.len(), |i: int| shift_tri(qs[i], cpos))
}

/// The full transform: greedy face coloring over the adjacency of the
/// welded mesh, emission of each triangle, and recentering by the per-face
/// centroid approximation (each corner counted once per face).
pub open spec fn transform_spec(qs: Seq<GTri>) -> Seq<GColored> {
    let n = qs.len() as int;
    let cpos = gdiv(tri_centroid_sum(qs), 3 * n);
    let cols = tcolors_upto(tcorners(qs), n, n);
    Seq::new(
        (3 * qs.len()) as nat,
        |i: int|
            GColored { pos: gsub(tri_stream_slot(qs[i / 3], i % 3), cpos), color: cols[i / 3] },
    )
}


/// Whether edge `e` of face `f` hands color `cidx` to the taken set.
fn tedge_gives(
    nb: &TriNeighbors,
    colors: &Vec<usize>,
    e: usize,
    cidx: usize,
    cs: Ghost<Seq<GPos>>,
    nfaces: Ghost<int>,
    f: Ghost<int>,
    prev: Ghost<Seq<int>>,
) -> (r: bool)
    requires
        e < 3,
        tn_entry(*nb, e as int) == tadj(cs@, nfaces@, f@, e as int),
        colors.len() == prev@.len(),
        forall|k: int| 0 <= k < colors.len() ==> colors[k] as int == #[trigger] prev@[k],
    ensures
        r == tedge_taken(cs@, nfaces@, f@, e as int, prev@, cidx as int),
{
    match tn_at(nb, e) {
        Some(j) => j < colors.len() && colors[j] == cidx,
        None => false,
    }
}

/// Whether some already-colored neighbor of face `f` holds color `cidx`.
fn tcolor_is_taken(
    nb: &TriNeighbors,
    colors: &Vec<usize>,
    cidx: usize,
    cs: Ghost<Seq<GPos>>,
    nfaces: Ghost<int>,
    f: Ghost<int>,
    prev: Ghost<Seq<int>>,
) -> (r: bool)
    requires
        forall|e: int| 0 <= e < 3 ==> #[trigger] tn_entry(*nb, e) == tadj(cs@, nfaces@, f@, e),
        colors.len() == prev@.len(),
        forall|k: int| 0 <= k < colors.len() ==> colors[k] as int == #[trigger] prev@[k],
    ensures
        r == tcolor_taken(cs@, nfaces@, f@, prev@, cidx as int),
{
    let g0 = tedge_gives(nb, colors, 0, cidx, cs, nfaces, f, prev);
    let g1 = tedge_gives(nb, colors, 1, cidx, cs, nfaces, f, prev);
    let g2 = tedge_gives(nb, colors, 2, cidx, cs, nfaces, f, prev);
    let r = g0 || g1 || g2;
    proof {
        if r {
            assert(tcolor_taken(cs@, nfaces@, f@, prev@, cidx as int)) by {
                if g0 {
                    assert(tedge_taken(cs@, nfaces@, f@, 0, prev@, cidx as int));
                } else if g1 {
                    assert(tedge_taken(cs@, nfaces@, f@, 1, prev@, cidx as int));
                } else {
                    assert(tedge_taken(cs@, nfaces@, f@, 2, prev@, cidx as int));
                }
            }
        } else {
            if tcolor_taken(cs@, nfaces@, f@, prev@, cidx as int) {
                let e = choose|e: int|
                    0 <= e < 3 && #[trigger] tedge_taken(cs@, nfaces@, f@, e, prev@, cidx as int);
                assert(e == 0 || e == 1 || e == 2);
                assert(false);
            }
        }
    }
    r
}

/// The coloring and normalization transform: greedily color the faces so
/// that neighbors differ, emit each triangle carrying its palette index,
/// and recenter every emitted position by the per-face centroid
/// approximation.
#[verifier::rlimit(100)]
#[verifier::spinoff_prover]
pub fn transform(triangles: Vec<Triangle>) -> (r: Vec<ColoredVertex>)
    requires
        tris_in_bounds(tris_view(triangles@), MAXC as int),
    ensures
        r@.len() == 3 * triangles@.len(),
        crate::mesh::stream_view(r@) == transform_spec(tris_view(triangles@)),
{
    let ghost qv = tris_view(triangles@);
    let ghost cs = tcorners(qv);
    let n = triangles.len();
    if n == 0 {
        let r: Vec<ColoredVertex> = Vec::new();
        proof {
            assert(crate::mesh::stream_view(r@) =~= transform_spec(qv));
        }
        return r;
    }
    let adj = get_adjacency(&triangles);
    let mut colors: Vec<usize> = Vec::new();
    let mut raw: Vec<ColoredVertex> = Vec::new();
    let mut sx: i128 = 0;
    let mut sy: i128 = 0;
    let mut sz: i128 = 0;
    let mut f: usize = 0;
    proof {
        assert(qv.take(0) =~= Seq::<GTri>::empty());
    }
    while f < n
        invariant
            f <= n,
            n == triangles.len(),
            n >= 1,
            qv == tris_view(triangles@),
            cs == tcorners(qv),
            qv.len() == n,
            tris_in_bounds(qv, MAXC as int),
            adj@.len() == n,
            forall|g: int, e: int|
                0 <= g < n && 0 <= e < 3 ==> #[trigger] tn_entry(adj@[g], e) == tadj(
                    cs,
                    n as int,
                    g,
                    e,
                ),
            colors.len() == f,
            tcolors_upto(cs, n as int, f as int).len() == f,
            forall|k: int|
                0 <= k < f ==> colors[k] as int == #[trigger] tcolors_upto(
                    cs,
                    n as int,
                    f as int,
                )[k],
            raw.len() == 3 * f,
            forall|x: int|
                0 <= x < raw.len() ==> #[trigger] raw[x]@.pos == tri_stream_slot(
                    qv[x / 3],
                    x % 3,
                ),
            forall|x: int|
                0 <= x < raw.len() ==> #[trigger] raw[x]@.color == tcolors_upto(
                    cs,
                    n as int,
                    f as int,
                )[x / 3],
            sx as int == tri_centroid_sum(qv.take(f as int)).x,
            sy as int == tri_centroid_sum(qv.take(f as int)).y,
            sz as int == tri_centroid_sum(qv.take(f as int)).z,
            -(3 * f as int * (MAXC as int)) <= sx as int <= 3 * f as int * (MAXC as int),
            -(3 * f as int * (MAXC as int)) <= sy as int <= 3 * f as int * (MAXC as int),
            -(3 * f as int * (MAXC as int)) <= sz as int <= 3 * f as int * (MAXC as int),
        decreases n - f,
    {
        let ghost prev = tcolors_upto(cs, n as int, f as int);
        let nb = adj[f];
        proof {
            assert(tn_entry(adj@[f as int], 0) == tadj(cs, n as int, f as int, 0));
        }
        let t0 = tcolor_is_taken(&nb, &colors, 0, Ghost(cs), Ghost(n as int), Ghost(f as int), Ghost(prev));
        let t1 = tcolor_is_taken(&nb, &colors, 1, Ghost(cs), Ghost(n as int), Ghost(f as int), Ghost(prev));
        let t2 = tcolor_is_taken(&nb, &colors, 2, Ghost(cs), Ghost(n as int), Ghost(f as int), Ghost(prev));
        let t3 = tcolor_is_taken(&nb, &colors, 3, Ghost(cs), Ghost(n as int), Ghost(f as int), Ghost(prev));
        let c: usize = if !t0 {
            0
        } else if !t1 {
            1
        } else if !t2 {
            2
        } else if !t3 {
            3
        } else {
            4
        };
        proof {
            lemma_tpick_color_free(cs, n as int, f as int, prev);
            assert(c as int == tpick_color(cs, n as int, f as int, prev));
        }
        colors.push(c);
        let q = triangles[f];
        proof {
            assert(q@ == qv[f as int]);
        }
        raw.push(ColoredVertex { position: q.a, color: c });
        raw.push(ColoredVertex { position: q.b, color: c });
        raw.push(ColoredVertex { position: q.c, color: c });
        sx = sx + q.a.x as i128 + q.b.x as i128 + q.c.x as i128;
        sy = sy + q.a.y as i128 + q.b.y as i128 + q.c.y as i128;
        sz = sz + q.a.z as i128 + q.b.z as i128 + q.c.z as i128;
        proof {
            let ff = f as int;
            assert(tcolors_upto(cs, n as int, ff + 1) == prev.push(
                tpick_color(cs, n as int, ff, prev),
            ));
            assert(qv.take(ff + 1).drop_last() =~= qv.take(ff));
            assert(qv.take(ff + 1).last() == qv[ff]);
            assert forall|x: int| 0 <= x < 3 implies #[trigger] ((3 * ff + x) / 3) == ff && (3 * ff
                + x) % 3 == x by {
                vstd::arithmetic::div_mod::lemma_fundamental_div_mod_converse(
                    3 * ff + x,
                    3,
                    ff,
                    x,
                );
            }
            assert(raw[3 * ff + 0]@.pos == tri_stream_slot(qv[ff], 0));
            assert(raw[3 * ff + 1]@.pos == tri_stream_slot(qv[ff], 1));
            assert(raw[3 * ff + 2]@.pos == tri_stream_slot(qv[ff], 2));
        }
        f += 1;
    }
    proof {
        assert(qv.take(n as int) =~= qv);
        assert(3 * (n as int) * (MAXC as int) < 0x4000_0000_0000_0000_0000_0000_0000_0000 && 3 * (
        n as int) <= 0x4000_0000_0000_0000_0000_0000_0000_0000) by (nonlinear_arith)
            requires
                n as int <= 0x1_0000_0000_0000_0000,
                MAXC == 536870912,
        ;
        lemma_div_bound(sx as int, 3 * n as int, MAXC as int);
        lemma_div_bound(sy as int, 3 * n as int, MAXC as int);
        lemma_div_bound(sz as int, 3 * n as int, MAXC as int);
    }
    let ni = n as i128;
    let avx = crate::arith::div_floor(sx, 3 * ni) as i64;
    let avy = crate::arith::div_floor(sy, 3 * ni) as i64;
    let avz = crate::arith::div_floor(sz, 3 * ni) as i64;
    let ghost cpos = gdiv(tri_centroid_sum(qv), 3 * qv.len() as int);
    proof {
        assert(cpos.x == avx as int && cpos.y == avy as int && cpos.z == avz as int);
    }
    let mut r = raw;
    let total = r.len();
    let mut i: usize = 0;
    while i < total
        invariant
            i <= total,
            total == r.len(),
            total == 3 * n,
            n == qv.len(),
            n >= 1,
            cpos == gdiv(tri_centroid_sum(qv), 3 * qv.len() as int),
            in_bounds(cpos, MAXC as int),
            tris_in_bounds(qv, MAXC as int),
            avx as int == cpos.x,
            avy as int == cpos.y,
            avz as int == cpos.z,
            forall|x: int|
                i <= x < total ==> #[trigger] r[x]@.pos == tri_stream_slot(qv[x / 3], x % 3),
            forall|x: int|
                0 <= x < total ==> #[trigger] r[x]@.color == tcolors_upto(
                    cs,
                    n as int,
                    n as int,
                )[x / 3],
            forall|x: int|
                0 <= x < i ==> #[trigger] r[x]@.pos == gsub(
                    tri_stream_slot(qv[x / 3], x % 3),
                    cpos,
                ),
        decreases total - i,
    {
        let old_cv = r[i];
        proof {
            vstd::arithmetic::div_mod::lemma_fundamental_div_mod(i as int, 3);
            assert(0 <= (i as int) / 3 < n) by (nonlinear_arith)
                requires
                    0 <= i as int,
                    (i as int) < 3 * (n as int),
                    i as int == 3 * ((i as int) / 3) + (i as int) % 3,
                    0 <= (i as int) % 3 < 3,
            ;
            assert(tri_in_bounds(qv[(i as int) / 3], MAXC as int));
            assert(r[i as int]@.pos == tri_stream_slot(qv[(i as int) / 3], (i as int) % 3));
            assert(in_bounds(r[i as int]@.pos, MAXC as int));
        }
        let np = Vertex {
            x: old_cv.position.x - avx,
            y: old_cv.position.y - avy,
            z: old_cv.position.z - avz,
        };
        r.set(i, ColoredVertex { position: np, color: old_cv.color });
        proof {
            assert(r[i as int]@.color == old_cv@.color);
            assert(r[i as int]@.pos == gsub(tri_stream_slot(qv[(i as int) / 3], (i as int) % 3), cpos));
        }
        i += 1;
    }
    proof {
        lemma_tcolors_upto_len(cs, n as int, n as int);
        assert forall|x: int| 0 <= x < total implies crate::mesh::stream_view(r@)[x]
            == #[trigger] transform_spec(qv)[x] by {
            vstd::arithmetic::div_mod::lemma_fundamental_div_mod(x, 3);
            assert(0 <= x / 3 < n) by (nonlinear_arith)
                requires
                    0 <= x,
                    x < 3 * (n as int),
                    x == 3 * (x / 3) + x % 3,
                    0 <= x % 3 < 3,
            ;
            assert(r[x]@.pos == gsub(tri_stream_slot(qv[x / 3], x % 3), cpos));
            assert(r[x]@.color == tcolors_upto(cs, n as int, n as int)[x / 3]);
        }
        assert(crate::mesh::stream_view(r@) =~= transform_spec(qv));
    }
    r
}

/// The full triangle pipeline: `linear_levels` uniform splits, then
/// `smooth_levels` Loop passes, then the coloring and recentering
/// transform.
pub fn get_vertices(
    triangles: Vec<Triangle>,
    linear_levels: u32,
    smooth_levels: u32,
    creases: bool,
) -> (r: Vec<ColoredVertex>)
    requires
        tris_in_bounds(tris_view(triangles@), MAXC as int),
    ensures
        crate::mesh::stream_view(r@) == transform_spec(
            loop_spec(
                linear_tri_spec(tris_view(triangles@), linear_levels as nat),
                smooth_levels as nat,
                creases,
            ),
        ),
{
    let ghost qv0 = tris_view(triangles@);
    proof {
        lemma_linear_tri_spec_bounds(qv0, linear_levels as nat, MAXC as int);
    }
    let t1 = linear_subdivide(triangles, linear_levels);
    let t2 = loop_subdivide(t1, smooth_levels, creases);
    transform(t2)
}

pub proof fn lemma_linear_tri_spec_bounds(qs: Seq<GTri>, levels: nat, bound: int)
    requires
        0 <= bound,
        tris_in_bounds(qs, bound),
    ensures
        tris_in_bounds(linear_tri_spec(qs, levels), bound),
    decreases levels,
{
    if levels > 0 {
        lemma_linear_tri_spec_bounds(qs, (levels - 1) as nat, bound);
        lemma_linear_tri_once_bounds(linear_tri_spec(qs, (levels - 1) as nat), bound);
    }
}

/// Shifting every corner by `-cpos` lowers the corner sum by `3 n` times
/// `cpos`.
pub proof fn lemma_tri_centroid_sum_shift(qs: Seq<GTri>, cpos: GPos)
    ensures
        tri_centroid_sum(tris_shifted(qs, cpos)).x == tri_centroid_sum(qs).x - 3 * qs.len() as int
            * cpos.x,
        tri_centroid_sum(tris_shifted(qs, cpos)).y == tri_centroid_sum(qs).y - 3 * qs.len() as int
            * cpos.y,
        tri_centroid_sum(tris_shifted(qs, cpos)).z == tri_centroid_sum(qs).z - 3 * qs.len() as int
            * cpos.z,
    decreases qs.len(),
{
    if qs.len() == 0 {
        assert(tris_shifted(qs, cpos) =~= Seq::<GTri>::empty());
    } else {
        lemma_tri_centroid_sum_shift(qs.drop_last(), cpos);
        assert(tris_shifted(qs, cpos).drop_last() =~= tris_shifted(qs.drop_last(), cpos));
        assert(tris_shifted(qs, cpos).last() == shift_tri(qs.last(), cpos));
        assert(3 * (qs.len() - 1) as int * cpos.x + 3 * cpos.x == 3 * qs.len() as int
            * cpos.x) by (nonlinear_arith);
        assert(3 * (qs.len() - 1) as int * cpos.y + 3 * cpos.y == 3 * qs.len() as int
            * cpos.y) by (nonlinear_arith);
        assert(3 * (qs.len() - 1) as int * cpos.z + 3 * cpos.z == 3 * qs.len() as int
            * cpos.z) by (nonlinear_arith);
    }
}

/// Recentering zeroes the mean: the transform's output positions are the
/// shifted corners, and their centroid, computed by the same per-face
/// formula (sum of the three raw corners of every emitted triangle over
/// `3 n`, rounding toward negative infinity), is exactly the origin.
pub proof fn lemma_transform_recenters(qs: Seq<GTri>)
    requires
        qs.len() >= 1,
    ensures
        ({
            let n = qs.len() as int;
            let cpos = gdiv(tri_centroid_sum(qs), 3 * n);
            &&& gdiv(tri_centroid_sum(tris_shifted(qs, cpos)), 3 * n) == gzero()
            &&& forall|i: int|
                0 <= i < 3 * n ==> #[trigger] transform_spec(qs)[i].pos == tri_stream_slot(
                    tris_shifted(qs, cpos)[i / 3],
                    i % 3,
                )
        }),
{
    let n = qs.len() as int;
    let s = tri_centroid_sum(qs);
    let cpos = gdiv(s, 3 * n);
    lemma_tri_centroid_sum_shift(qs, cpos);
    vstd::arithmetic::div_mod::lemma_fundamental_div_mod(s.x, 3 * n);
    vstd::arithmetic::div_mod::lemma_fundamental_div_mod(s.y, 3 * n);
    vstd::arithmetic::div_mod::lemma_fundamental_div_mod(s.z, 3 * n);
    let sh = tri_centroid_sum(tris_shifted(qs, cpos));
    assert(sh.x == s.x % (3 * n) && sh.y == s.y % (3 * n) && sh.z == s.z % (3 * n)) by {
        assert(3 * n * cpos.x == (3 * n) * ((s.x) / (3 * n)));
    }
    vstd::arithmetic::div_mod::lemma_basic_div(sh.x, 3 * n);
    vstd::arithmetic::div_mod::lemma_basic_div(sh.y, 3 * n);
    vstd::arithmetic::div_mod::lemma_basic_div(sh.z, 3 * n);
    assert forall|i: int|
        0 <= i < 3 * n implies #[trigger] transform_spec(qs)[i].pos == tri_stream_slot(
        tris_shifted(qs, cpos)[i / 3],
        i % 3,
    ) by {
        vstd::arithmetic::div_mod::lemma_fundamental_div_mod(i, 3);
        assert(0 <= i / 3 < n) by (nonlinear_arith)
            requires
                0 <= i,
                i < 3 * n,
                i == 3 * (i / 3) + i % 3,
                0 <= i % 3 < 3,
        ;
    }
}


/// Colors agree on a prefix: coloring more faces never changes the colors
/// already assigned.
pub proof fn lemma_tcolors_prefix(cs: Seq<GPos>, nfaces: int, i: int, j: int)
    requires
        0 <= i <= j,
    ensures
        forall|k: int| 0 <= k < i ==> tcolors_upto(cs, nfaces, j)[k] == #[trigger] tcolors_upto(
            cs,
            nfaces,
            i,
        )[k],
    decreases j,
{
    if i < j {
        lemma_tcolors_prefix(cs, nfaces, i, j - 1);
        lemma_tcolors_upto_len(cs, nfaces, j - 1);
    }
}

/// Coloring validity: in a mesh that is two-manifold at a shared edge (no
/// third face touches both of its endpoints), the two triangles sharing
/// that edge are assigned different palette indexes.
#[verifier::rlimit(100)]
#[verifier::spinoff_prover]
pub proof fn lemma_coloring_valid(qs: Seq<GTri>, f: int, g: int, ef: int, eg: int)
    requires
        0 <= f < qs.len(),
        0 <= g < qs.len(),
        f != g,
        0 <= ef < 3,
        0 <= eg < 3,
        ({
            let cs = tcorners(qs);
            let fa = corner_id(cs, f * 3 + tedge_slots(ef).0);
            let fb = corner_id(cs, f * 3 + tedge_slots(ef).1);
            let ga = corner_id(cs, g * 3 + tedge_slots(eg).0);
            let gb = corner_id(cs, g * 3 + tedge_slots(eg).1);
            (fa == ga && fb == gb) || (fa == gb && fb == ga)
        }),
        ({
            let cs = tcorners(qs);
            let fa = corner_id(cs, f * 3 + tedge_slots(ef).0);
            let fb = corner_id(cs, f * 3 + tedge_slots(ef).1);
            &&& (forall|h: int|
                0 <= h < qs.len() && h != f && face_has(cs, 3, h, fa) && face_has(cs, 3, h, fb)
                    ==> h == g)
            &&& (forall|h: int|
                0 <= h < qs.len() && h != g && face_has(cs, 3, h, fa) && face_has(cs, 3, h, fb)
                    ==> h == f)
        }),
    ensures
        tcolors_upto(tcorners(qs), qs.len() as int, qs.len() as int)[f] != tcolors_upto(
            tcorners(qs),
            qs.len() as int,
            qs.len() as int,
        )[g],
{
    let cs = tcorners(qs);
    let n = qs.len() as int;
    let lo = if f < g {
        f
    } else {
        g
    };
    let hi = if f < g {
        g
    } else {
        f
    };
    let ehi = if f < g {
        eg
    } else {
        ef
    };
    let elo = if f < g {
        ef
    } else {
        eg
    };
    let prev = tcolors_upto(cs, n, hi);
    lemma_tcolors_upto_len(cs, n, hi);
    let a_id = corner_id(cs, hi * 3 + tedge_slots(ehi).0);
    let b_id = corner_id(cs, hi * 3 + tedge_slots(ehi).1);
    assert(face_has(cs, 3, hi, a_id)) by {
        assert(corner_id(cs, hi * 3 + tedge_slots(ehi).0) == a_id);
    }
    assert(face_has(cs, 3, hi, b_id)) by {
        assert(corner_id(cs, hi * 3 + tedge_slots(ehi).1) == b_id);
    }
    assert(face_has(cs, 3, lo, a_id) && face_has(cs, 3, lo, b_id)) by {
        assert(corner_id(cs, lo * 3 + tedge_slots(elo).0) == corner_id(
            cs,
            lo * 3 + tedge_slots(elo).0,
        ));
        assert(corner_id(cs, lo * 3 + tedge_slots(elo).1) == corner_id(
            cs,
            lo * 3 + tedge_slots(elo).1,
        ));
    }
    let fs = incident_upto(cs, 3, a_id, n);
    lemma_incident_upto(cs, 3, a_id, n);
    crate::weld::lemma_first_other(fs, cs, 3, b_id, hi);
    match adjacent_spec(cs, 3, n, a_id, b_id, hi) {
        None => {
            assert(fs.contains(lo));
            let k = choose|k: int| 0 <= k < fs.len() && fs[k] == lo;
            assert(!(fs[k] != hi && face_has(cs, 3, fs[k], b_id)));
            assert(false);
        },
        Some(j) => {
            assert(fs.contains(j));
            let k = choose|k: int| 0 <= k < fs.len() && fs[k] == j;
            assert(0 <= j < n && face_has(cs, 3, j, a_id));
            assert(j == lo);
            assert(tadj(cs, n, hi, ehi) == Some(lo));
            assert(tedge_taken(cs, n, hi, ehi, prev, prev[lo]));
            assert(tcolor_taken(cs, n, hi, prev, prev[lo]));
            lemma_tpick_color_free(cs, n, hi, prev);
            assert(tpick_color(cs, n, hi, prev) != prev[lo]);
            lemma_tcolors_upto_len(cs, n, n);
            lemma_tcolors_prefix(cs, n, hi + 1, n);
            lemma_tcolors_prefix(cs, n, hi, n);
            assert(tcolors_upto(cs, n, hi + 1)[hi] == tpick_color(cs, n, hi, prev));
            assert(tcolors_upto(cs, n, n)[hi] == tcolors_upto(cs, n, hi + 1)[hi]) by {
                lemma_tcolors_upto_len(cs, n, hi + 1);
            }
            assert(tcolors_upto(cs, n, n)[lo] == prev[lo]);
        },
    }
}

} // verus!
