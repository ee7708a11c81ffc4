//! The quad pipeline: uniform linear splitting, Catmull-Clark smoothing with
//! optional crease preservation, and the coloring and recentering transform.

use vstd::prelude::*;
use crate::arith::MAXC;
use crate::mesh::{
    ColoredVertex, GColored, GPos, Vertex, approx_eq, crease_test, cross, cross_of_diffs, edge_is_crease,
    gadd, gdiv, gscale, gsub, gzero, in_bounds, lemma_div_bound, mid2, midpoint, vertex_equals,
};
use crate::weld::{
    VertexMap, adjacent_core, adjacent_spec, build_vertex_map, corner_id, face_has, find_in_face,
    incident_upto, lemma_incident_upto, lemma_pos_in_face, pos_in_face, pos_seq,
};

verus! {

/// A quad at the specification level.
pub ghost struct GQuad {
    pub a: GPos,
    pub b: GPos,
    pub c: GPos,
    pub d: GPos,
}

/// A quad face: four vertices, ordered, with edges a-b, b-c, c-d, d-a.
#[derive(Clone, Copy, Debug)]
pub struct Quad {
    pub a: Vertex,
    pub b: Vertex,
    pub c: Vertex,
    pub d: Vertex,
}

impl View for Quad {
    type V = GQuad;

    open spec fn view(&self) -> GQuad {
        GQuad { a: self.a@, b: self.b@, c: self.c@, d: self.d@ }
    }
}

impl PartialEq for Quad {
    fn eq(&self, other: &Quad) -> (r: bool) {
        vertex_equals(&self.a, &other.a) && vertex_equals(&self.b, &other.b) && vertex_equals(
            &self.c,
            &other.c,
        ) && vertex_equals(&self.d, &other.d)
    }
}

impl Eq for Quad {}

impl vstd::std_specs::cmp::PartialEqSpecImpl for Quad {
    open spec fn obeys_eq_spec() -> bool {
        true
    }

    open spec fn eq_spec(&self, other: &Quad) -> bool {
        approx_eq(self.a@, other.a@) && approx_eq(self.b@, other.b@) && approx_eq(
            self.c@,
            other.c@,
        ) && approx_eq(self.d@, other.d@)
    }
}

/// The quads a quad sequence stands for.
pub open spec fn quads_view(s: Seq<Quad>) -> Seq<GQuad> {
    Seq::new(s.len(), |i: int| s[i]@)
}

/// Corner `t` of a quad.
pub open spec fn qcorner(q: GQuad, t: int) -> GPos {
    if t == 0 {
        q.a
    } else if t == 1 {
        q.b
    } else if t == 2 {
        q.c
    } else {
        q.d
    }
}

/// The flattened corner sequence of a quad list, welding's input.
pub open spec fn qcorners(qs: Seq<GQuad>) -> Seq<GPos> {
    Seq::new(qs.len() * 4, |j: int| qcorner(qs[j / 4], j % 4))
}

/// The face point: the average of the averages of the edge a-b and the edge
/// c-d.
pub open spec fn quad_center(q: GQuad) -> GPos {
    mid2(mid2(q.a, q.b), mid2(q.c, q.d))
}

/// The (unnormalized) normal direction of a quad, from its first three
/// vertices.
pub open spec fn quad_normal(q: GQuad) -> GPos {
    cross(gsub(q.a, q.b), gsub(q.b, q.c))
}

pub open spec fn quad_in_bounds(q: GQuad, bound: int) -> bool {
    &&& in_bounds(q.a, bound)
    &&& in_bounds(q.b, bound)
    &&& in_bounds(q.c, bound)
    &&& in_bounds(q.d, bound)
}

pub open spec fn quads_in_bounds(qs: Seq<GQuad>, bound: int) -> bool {
    forall|i: int| 0 <= i < qs.len() ==> quad_in_bounds(#[trigger] qs[i], bound)
}

/// A midpoint of two bounded positions is bounded the same.
pub proof fn lemma_mid2_in_bounds(p: GPos, q: GPos, bound: int)
    requires
        0 <= bound,
        in_bounds(p, bound),
        in_bounds(q, bound),
    ensures
        in_bounds(mid2(p, q), bound),
{
    lemma_div_bound(p.x + q.x, 2, bound);
    lemma_div_bound(p.y + q.y, 2, bound);
    lemma_div_bound(p.z + q.z, 2, bound);
}

/// Sub-quad `k` of the uniform 1-to-4 split of a quad: built from the
/// corners, the four edge midpoints and the face center.
pub open spec fn linear_cell(q: GQuad, k: int) -> GQuad {
    let ab = mid2(q.a, q.b);
    let ad = mid2(q.a, q.d);
    let cd = mid2(q.c, q.d);
    let bc = mid2(q.b, q.c);
    let ctr = mid2(ab, cd);
    if k == 0 {
        GQuad { a: q.a, b: ab, c: ctr, d: ad }
    } else if k == 1 {
        GQuad { a: ab, b: q.b, c: bc, d: ctr }
    } else if k == 2 {
        GQuad { a: ctr, b: bc, c: q.c, d: cd }
    } else {
        GQuad { a: ad, b: ctr, c: cd, d: q.d }
    }
}

/// One uniform split of every quad, in face order.
pub open spec fn linear_once_spec(qs: Seq<GQuad>) -> Seq<GQuad> {
    Seq::new(qs.len() * 4, |i: int| linear_cell(qs[i / 4], i % 4))
}

/// `levels` uniform splits.
pub open spec fn linear_spec(qs: Seq<GQuad>, levels: nat) -> Seq<GQuad>
    decreases levels,
{
    if levels == 0 {
        qs
    } else {
        linear_once_spec(linear_spec(qs, (levels - 1) as nat))
    }
}

pub proof fn lemma_linear_cell_bounds(q: GQuad, k: int, bound: int)
    requires
        0 <= bound,
        quad_in_bounds(q, bound),
    ensures
        quad_in_bounds(linear_cell(q, k), bound),
{
    lemma_mid2_in_bounds(q.a, q.b, bound);
    lemma_mid2_in_bounds(q.a, q.d, bound);
    lemma_mid2_in_bounds(q.c, q.d, bound);
    lemma_mid2_in_bounds(q.b, q.c, bound);
    lemma_mid2_in_bounds(mid2(q.a, q.b), mid2(q.c, q.d), bound);
}

pub proof fn lemma_linear_once_bounds(qs: Seq<GQuad>, bound: int)
    requires
        0 <= bound,
        quads_in_bounds(qs, bound),
    ensures
        quads_in_bounds(linear_once_spec(qs), bound),
{
    assert forall|i: int|
        0 <= i < linear_once_spec(qs).len() implies quad_in_bounds(
        #[trigger] linear_once_spec(qs)[i],
        bound,
    ) by {
        vstd::arithmetic::div_mod::lemma_fundamental_div_mod(i, 4);
        lemma_div_bound(i, 4, qs.len() as int);
        assert(0 <= i / 4 < qs.len()) by {
            assert(i < qs.len() * 4);
            if i / 4 >= qs.len() {
                assert(i == 4 * (i / 4) + i % 4);
                assert(4 * (i / 4) >= 4 * qs.len()) by (nonlinear_arith)
                    requires
                        i / 4 >= qs.len(),
                ;
            }
        }
        lemma_linear_cell_bounds(qs[i / 4], i % 4, bound);
    }
}

/// One uniform 1-to-4 split of every quad: no smoothing, no adjacency.
pub fn linear_subdivide_once(q: Vec<Quad>) -> (r: Vec<Quad>)
    ensures
        r@.len() == 4 * q@.len(),
        quads_view(r@) == linear_once_spec(quads_view(q@)),
{
    let ghost qv = quads_view(q@);
    let mut quads: Vec<Quad> = Vec::new();
    let mut i: usize = 0;
    while i < q.len()
        invariant
            i <= q.len(),
            qv == quads_view(q@),
            qv.len() == q.len(),
            quads.len() == 4 * i,
            forall|x: int|
                0 <= x < quads.len() ==> quads[x]@ == #[trigger] linear_once_spec(qv)[x],
        decreases q.len() - i,
    {
        let quad = q[i];
        let a = quad.a;
        let b = quad.b;
        let c = quad.c;
        let d = quad.d;
        let ab = midpoint(&a, &b);
        let ad = midpoint(&a, &d);
        let cd = midpoint(&c, &d);
        let bc = midpoint(&b, &c);
        let ctr = midpoint(&ab, &cd);
        quads.push(Quad { a, b: ab, c: ctr, d: ad });
        quads.push(Quad { a: ab, b, c: bc, d: ctr });
        quads.push(Quad { a: ctr, b: bc, c, d: cd });
        quads.push(Quad { a: ad, b: ctr, c: cd, d });
        proof {
            let ii = i as int;
            assert forall|k: int| 0 <= k < 4 implies #[trigger] ((4 * ii + k) / 4) == ii && (4 * ii
                + k) % 4 == k by {
                vstd::arithmetic::div_mod::lemma_fundamental_div_mod_converse(
                    4 * ii + k,
                    4,
                    ii,
                    k,
                );
            }
            assert(quads[4 * ii + 0]@ == linear_once_spec(qv)[4 * ii + 0]);
            assert(quads[4 * ii + 1]@ == linear_once_spec(qv)[4 * ii + 1]);
            assert(quads[4 * ii + 2]@ == linear_once_spec(qv)[4 * ii + 2]);
            assert(quads[4 * ii + 3]@ == linear_once_spec(qv)[4 * ii + 3]);
        }
        i += 1;
    }
    proof {
        assert(quads_view(quads@) =~= linear_once_spec(qv));
    }
    quads
}

/// `levels` uniform splits; zero levels is the identity.
pub fn linear_subdivide(quads: Vec<Quad>, levels: u32) -> (r: Vec<Quad>)
    ensures
        quads_view(r@) == linear_spec(quads_view(quads@), levels as nat),
        levels == 0 ==> r@ == quads@,
{
    let ghost q0 = quads@;
    let ghost qv0 = quads_view(quads@);
    let mut quads = quads;
    let mut l: u32 = 0;
    while l < levels
        invariant
            l <= levels,
            quads_view(quads@) == linear_spec(qv0, l as nat),
            l == 0 ==> quads@ == q0,
        decreases levels - l,
    {
        quads = linear_subdivide_once(quads);
        l += 1;
    }
    quads
}

/// Build the welded incidence map of a quad list: each distinct vertex, by
/// the welding identity, mapped to the faces touching it.
pub fn get_vertex_map(quads: &Vec<Quad>) -> (m: VertexMap)
    requires
        quads_in_bounds(quads_view(quads@), MAXC as int),
    ensures
        m.wf(qcorners(quads_view(quads@)), 4),
{
    let ghost qv = quads_view(quads@);
    let mut corners: Vec<Vertex> = Vec::new();
    let mut i: usize = 0;
    while i < quads.len()
        invariant
            i <= quads.len(),
            qv == quads_view(quads@),
            qv.len() == quads.len(),
            quads_in_bounds(qv, MAXC as int),
            corners.len() == 4 * i,
            forall|j: int| 0 <= j < corners.len() ==> corners[j]@ == #[trigger] qcorners(qv)[j],
            forall|j: int|
                0 <= j < corners.len() ==> in_bounds(#[trigger] corners[j]@, MAXC as int),
        decreases quads.len() - i,
    {
        let quad = quads[i];
        corners.push(quad.a);
        corners.push(quad.b);
        corners.push(quad.c);
        corners.push(quad.d);
        proof {
            let ii = i as int;
            assert forall|k: int| 0 <= k < 4 implies #[trigger] ((4 * ii + k) / 4) == ii && (4 * ii
                + k) % 4 == k by {
                vstd::arithmetic::div_mod::lemma_fundamental_div_mod_converse(
                    4 * ii + k,
                    4,
                    ii,
                    k,
                );
            }
            assert(corners[4 * ii + 0]@ == qcorners(qv)[4 * ii + 0]);
            assert(corners[4 * ii + 1]@ == qcorners(qv)[4 * ii + 1]);
            assert(corners[4 * ii + 2]@ == qcorners(qv)[4 * ii + 2]);
            assert(corners[4 * ii + 3]@ == qcorners(qv)[4 * ii + 3]);
        }
        i += 1;
    }
    let m = build_vertex_map(&corners, 4);
    proof {
        assert(pos_seq(corners@) =~= qcorners(qv));
    }
    m
}

/// Sum of the face points of the listed faces.
pub open spec fn sum_centers(qs: Seq<GQuad>, fs: Seq<int>) -> GPos
    decreases fs.len(),
{
    if fs.len() == 0 {
        gzero()
    } else {
        gadd(sum_centers(qs, fs.drop_last()), quad_center(qs[fs.last()]))
    }
}

/// Sum of the two edge midpoints adjacent to the welded vertex `vid` within
/// face `f`: `p` averaged with the cyclic predecessor and successor of the
/// first slot welded to `vid`.
pub open spec fn corner_mids(qs: Seq<GQuad>, cs: Seq<GPos>, f: int, vid: int, p: GPos) -> GPos {
    let t = pos_in_face(cs, 4, f, vid);
    let tp = if t == 0 {
        3
    } else {
        t - 1
    };
    let tn = if t == 3 {
        0
    } else {
        t + 1
    };
    gadd(mid2(p, qcorner(qs[f], tp)), mid2(p, qcorner(qs[f], tn)))
}

/// Sum of the adjacent edge midpoints over the listed faces.
pub open spec fn sum_mids(qs: Seq<GQuad>, cs: Seq<GPos>, fs: Seq<int>, vid: int, p: GPos) -> GPos
    decreases fs.len(),
{
    if fs.len() == 0 {
        gzero()
    } else {
        gadd(sum_mids(qs, cs, fs.drop_last(), vid, p), corner_mids(qs, cs, fs.last(), vid, p))
    }
}

/// Some two distinct listed faces make a crease: the minimum pairwise cosine
/// of their normals falls below the sharpness threshold.
pub open spec fn has_crease_pair(qs: Seq<GQuad>, fs: Seq<int>) -> bool {
    exists|i: int, j: int|
        0 <= i < fs.len() && 0 <= j < fs.len() && i != j && crease_test(
            quad_normal(qs[#[trigger] fs[i]]),
            quad_normal(qs[#[trigger] fs[j]]),
        )
}

/// The repositioned (even) vertex of welded vertex `vid` at position `p`:
/// locked in place on a crease or corner, else
/// `(F + 2 R + (n - 3) p) / n` over the `n` incident faces, where `F`
/// averages their face points and `R` averages the `2 n` adjacent edge
/// midpoints.
pub open spec fn even_point_spec(
    qs: Seq<GQuad>,
    cs: Seq<GPos>,
    vid: int,
    p: GPos,
    creases: bool,
) -> GPos {
    let fs = incident_upto(cs, 4, vid, qs.len() as int);
    let n = fs.len() as int;
    if creases && has_crease_pair(qs, fs) {
        p
    } else {
        let favg = gdiv(sum_centers(qs, fs), n);
        let ravg = gdiv(sum_mids(qs, cs, fs, vid, p), 2 * n);
        gdiv(gadd(gadd(favg, gscale(2, ravg)), gscale(n - 3, p)), n)
    }
}

/// The edge point of the edge between slots `ta` and `tb` of face `me`: the
/// plain midpoint on a boundary or crease, else the midpoint blended with
/// the two face points.
pub open spec fn edge_point_spec(
    qs: Seq<GQuad>,
    cs: Seq<GPos>,
    me: int,
    ta: int,
    tb: int,
    creases: bool,
) -> GPos {
    let pa = qcorner(qs[me], ta);
    let pb = qcorner(qs[me], tb);
    let a_id = corner_id(cs, me * 4 + ta);
    let b_id = corner_id(cs, me * 4 + tb);
    match adjacent_spec(cs, 4, qs.len() as int, a_id, b_id, me) {
        Some(nf) => {
            if creases && crease_test(quad_normal(qs[me]), quad_normal(qs[nf])) {
                mid2(pa, pb)
            } else {
                mid2(mid2(quad_center(qs[me]), quad_center(qs[nf])), mid2(pa, pb))
            }
        },
        None => mid2(pa, pb),
    }
}

/// Sub-quad `k` of the Catmull-Clark split of face `f`: built from the even
/// corners, the four edge points and the face point.
pub open spec fn catmull_cell(qs: Seq<GQuad>, f: int, k: int, creases: bool) -> GQuad {
    let cs = qcorners(qs);
    let q = qs[f];
    let ctr = quad_center(q);
    let e1 = edge_point_spec(qs, cs, f, 0, 1, creases);
    let e2 = edge_point_spec(qs, cs, f, 1, 2, creases);
    let e3 = edge_point_spec(qs, cs, f, 2, 3, creases);
    let e4 = edge_point_spec(qs, cs, f, 0, 3, creases);
    let na = even_point_spec(qs, cs, corner_id(cs, f * 4 + 0), q.a, creases);
    let nb = even_point_spec(qs, cs, corner_id(cs, f * 4 + 1), q.b, creases);
    let nc = even_point_spec(qs, cs, corner_id(cs, f * 4 + 2), q.c, creases);
    let nd = even_point_spec(qs, cs, corner_id(cs, f * 4 + 3), q.d, creases);
    if k == 0 {
        GQuad { a: na, b: e1, c: ctr, d: e4 }
    } else if k == 1 {
        GQuad { a: e1, b: nb, c: e2, d: ctr }
    } else if k == 2 {
        GQuad { a: ctr, b: e2, c: nc, d: e3 }
    } else {
        GQuad { a: e4, b: ctr, c: e3, d: nd }
    }
}

/// One Catmull-Clark pass over every quad, in face order.
pub open spec fn catmull_once_spec(qs: Seq<GQuad>, creases: bool) -> Seq<GQuad> {
    Seq::new(qs.len() * 4, |i: int| catmull_cell(qs, i / 4, i % 4, creases))
}

/// `levels` Catmull-Clark passes.
pub open spec fn catmull_spec(qs: Seq<GQuad>, levels: nat, creases: bool) -> Seq<GQuad>
    decreases levels,
{
    if levels == 0 {
        qs
    } else {
        catmull_once_spec(catmull_spec(qs, (levels - 1) as nat, creases), creases)
    }
}

pub proof fn lemma_sum_centers_bounds(qs: Seq<GQuad>, fs: Seq<int>, bound: int)
    requires
        0 <= bound,
        quads_in_bounds(qs, bound),
        forall|k: int| 0 <= k < fs.len() ==> 0 <= #[trigger] fs[k] < qs.len(),
    ensures
        in_bounds(sum_centers(qs, fs), fs.len() as int * bound),
    decreases fs.len(),
{
    if fs.len() == 0 {
    } else {
        lemma_sum_centers_bounds(qs, fs.drop_last(), bound);
        let q = qs[fs.last()];
        lemma_mid2_in_bounds(q.a, q.b, bound);
        lemma_mid2_in_bounds(q.c, q.d, bound);
        lemma_mid2_in_bounds(mid2(q.a, q.b), mid2(q.c, q.d), bound);
        assert((fs.len() - 1) * bound + bound == fs.len() as int * bound) by (nonlinear_arith);
    }
}

pub proof fn lemma_sum_mids_bounds(
    qs: Seq<GQuad>,
    cs: Seq<GPos>,
    fs: Seq<int>,
    vid: int,
    p: GPos,
    bound: int,
)
    requires
        0 <= bound,
        quads_in_bounds(qs, bound),
        in_bounds(p, bound),
        forall|k: int| 0 <= k < fs.len() ==> 0 <= #[trigger] fs[k] < qs.len(),
    ensures
        in_bounds(sum_mids(qs, cs, fs, vid, p), 2 * fs.len() as int * bound),
    decreases fs.len(),
{
    if fs.len() == 0 {
    } else {
        lemma_sum_mids_bounds(qs, cs, fs.drop_last(), vid, p, bound);
        let q = qs[fs.last()];
        let t = pos_in_face(cs, 4, fs.last(), vid);
        let tp = if t == 0 {
            3
        } else {
            t - 1
        };
        let tn = if t == 3 {
            0
        } else {
            t + 1
        };
        lemma_mid2_in_bounds(p, qcorner(q, tp), bound);
        lemma_mid2_in_bounds(p, qcorner(q, tn), bound);
        assert(2 * (fs.len() - 1) * bound + 2 * bound == 2 * fs.len() as int
            * bound) by (nonlinear_arith);
    }
}

/// The repositioned vertex strays at most a factor of five from the bound of
/// the mesh: the affine weights sum to one, and only at valence one or two
/// do negative weights widen the reach.
pub proof fn lemma_even_point_bounds(
    qs: Seq<GQuad>,
    cs: Seq<GPos>,
    vid: int,
    p: GPos,
    creases: bool,
    bound: int,
)
    requires
        0 <= bound,
        quads_in_bounds(qs, bound),
        in_bounds(p, bound),
        incident_upto(cs, 4, vid, qs.len() as int).len() >= 1,
    ensures
        in_bounds(even_point_spec(qs, cs, vid, p, creases), 5 * bound),
{
    let fs = incident_upto(cs, 4, vid, qs.len() as int);
    let n = fs.len() as int;
    lemma_incident_upto(cs, 4, vid, qs.len() as int);
    if creases && has_crease_pair(qs, fs) {
    } else {
        lemma_sum_centers_bounds(qs, fs, bound);
        lemma_sum_mids_bounds(qs, cs, fs, vid, p, bound);
        let favg = gdiv(sum_centers(qs, fs), n);
        let ravg = gdiv(sum_mids(qs, cs, fs, vid, p), 2 * n);
        lemma_div_bound(sum_centers(qs, fs).x, n, bound);
        lemma_div_bound(sum_centers(qs, fs).y, n, bound);
        lemma_div_bound(sum_centers(qs, fs).z, n, bound);
        lemma_div_bound(sum_mids(qs, cs, fs, vid, p).x, 2 * n, bound);
        lemma_div_bound(sum_mids(qs, cs, fs, vid, p).y, 2 * n, bound);
        lemma_div_bound(sum_mids(qs, cs, fs, vid, p).z, 2 * n, bound);
        let num = gadd(gadd(favg, gscale(2, ravg)), gscale(n - 3, p));
        let w = if n >= 3 {
            n - 3
        } else {
            3 - n
        };
        crate::mesh::lemma_abs_mul_bound(n - 3, p.x, w, bound);
        crate::mesh::lemma_abs_mul_bound(n - 3, p.y, w, bound);
        crate::mesh::lemma_abs_mul_bound(n - 3, p.z, w, bound);
        assert((3 + w) * bound <= n * (5 * bound)) by (nonlinear_arith)
            requires
                n >= 1,
                bound >= 0,
                w == (if n >= 3 {
                    n - 3
                } else {
                    3 - n
                }),
        ;
        assert(-(n * (5 * bound)) <= num.x <= n * (5 * bound)) by (nonlinear_arith)
            requires
                -bound <= favg.x <= bound,
                -bound <= ravg.x <= bound,
                -(w * bound) <= (n - 3) * p.x <= w * bound,
                num.x == favg.x + 2 * ravg.x + (n - 3) * p.x,
                (3 + w) * bound <= n * (5 * bound),
                bound >= 0,
        ;
        assert(-(n * (5 * bound)) <= num.y <= n * (5 * bound)) by (nonlinear_arith)
            requires
                -bound <= favg.y <= bound,
                -bound <= ravg.y <= bound,
                -(w * bound) <= (n - 3) * p.y <= w * bound,
                num.y == favg.y + 2 * ravg.y + (n - 3) * p.y,
                (3 + w) * bound <= n * (5 * bound),
                bound >= 0,
        ;
        assert(-(n * (5 * bound)) <= num.z <= n * (5 * bound)) by (nonlinear_arith)
            requires
                -bound <= favg.z <= bound,
                -bound <= ravg.z <= bound,
                -(w * bound) <= (n - 3) * p.z <= w * bound,
                num.z == favg.z + 2 * ravg.z + (n - 3) * p.z,
                (3 + w) * bound <= n * (5 * bound),
                bound >= 0,
        ;
        lemma_div_bound(num.x, n, 5 * bound);
        lemma_div_bound(num.y, n, 5 * bound);
        lemma_div_bound(num.z, n, 5 * bound);
    }
}

pub proof fn lemma_edge_point_bounds(
    qs: Seq<GQuad>,
    cs: Seq<GPos>,
    me: int,
    ta: int,
    tb: int,
    creases: bool,
    bound: int,
)
    requires
        0 <= bound,
        quads_in_bounds(qs, bound),
        0 <= me < qs.len(),
        0 <= ta < 4,
        0 <= tb < 4,
    ensures
        in_bounds(edge_point_spec(qs, cs, me, ta, tb, creases), bound),
{
    let pa = qcorner(qs[me], ta);
    let pb = qcorner(qs[me], tb);
    let a_id = corner_id(cs, me * 4 + ta);
    let b_id = corner_id(cs, me * 4 + tb);
    lemma_mid2_in_bounds(pa, pb, bound);
    match adjacent_spec(cs, 4, qs.len() as int, a_id, b_id, me) {
        Some(nf) => {
            crate::weld::lemma_first_other(
                incident_upto(cs, 4, a_id, qs.len() as int),
                cs,
                4,
                b_id,
                me,
            );
            lemma_incident_upto(cs, 4, a_id, qs.len() as int);
            let fs = incident_upto(cs, 4, a_id, qs.len() as int);
            assert(0 <= nf < qs.len()) by {
                assert(fs.contains(nf));
                let k = choose|k: int| 0 <= k < fs.len() && fs[k] == nf;
            }
            let qn = qs[nf];
            let q = qs[me];
            lemma_mid2_in_bounds(q.a, q.b, bound);
            lemma_mid2_in_bounds(q.c, q.d, bound);
            lemma_mid2_in_bounds(mid2(q.a, q.b), mid2(q.c, q.d), bound);
            lemma_mid2_in_bounds(qn.a, qn.b, bound);
            lemma_mid2_in_bounds(qn.c, qn.d, bound);
            lemma_mid2_in_bounds(mid2(qn.a, qn.b), mid2(qn.c, qn.d), bound);
            lemma_mid2_in_bounds(quad_center(q), quad_center(qn), bound);
            lemma_mid2_in_bounds(mid2(quad_center(q), quad_center(qn)), mid2(pa, pb), bound);
        },
        None => {},
    }
}

/// Face `f` touches the id of each of its own corners, so each corner's
/// incidence list is nonempty.
pub proof fn lemma_own_face_incident(cs: Seq<GPos>, nfaces: int, f: int, t: int)
    requires
        0 <= f < nfaces,
        0 <= t < 4,
    ensures
        face_has(cs, 4, f, corner_id(cs, f * 4 + t)),
        incident_upto(cs, 4, corner_id(cs, f * 4 + t), nfaces).len() >= 1,
        incident_upto(cs, 4, corner_id(cs, f * 4 + t), nfaces).contains(f),
{
    let vid = corner_id(cs, f * 4 + t);
    assert(face_has(cs, 4, f, vid)) by {
        assert(corner_id(cs, f * 4 + t) == vid);
    }
    lemma_incident_upto(cs, 4, vid, nfaces);
    assert(incident_upto(cs, 4, vid, nfaces).contains(f));
    let k = choose|k: int|
        0 <= k < incident_upto(cs, 4, vid, nfaces).len() && incident_upto(cs, 4, vid, nfaces)[k]
            == f;
}

#[verifier::rlimit(60)]
#[verifier::spinoff_prover]
pub proof fn lemma_catmull_cell_bounds(qs: Seq<GQuad>, f: int, k: int, creases: bool, bound: int)
    requires
        0 <= bound,
        quads_in_bounds(qs, bound),
        0 <= f < qs.len(),
    ensures
        quad_in_bounds(catmull_cell(qs, f, k, creases), 5 * bound),
{
    let cs = qcorners(qs);
    let q = qs[f];
    lemma_mid2_in_bounds(q.a, q.b, bound);
    lemma_mid2_in_bounds(q.c, q.d, bound);
    lemma_mid2_in_bounds(mid2(q.a, q.b), mid2(q.c, q.d), bound);
    lemma_edge_point_bounds(qs, cs, f, 0, 1, creases, bound);
    lemma_edge_point_bounds(qs, cs, f, 1, 2, creases, bound);
    lemma_edge_point_bounds(qs, cs, f, 2, 3, creases, bound);
    lemma_edge_point_bounds(qs, cs, f, 0, 3, creases, bound);
    lemma_own_face_incident(cs, qs.len() as int, f, 0);
    lemma_own_face_incident(cs, qs.len() as int, f, 1);
    lemma_own_face_incident(cs, qs.len() as int, f, 2);
    lemma_own_face_incident(cs, qs.len() as int, f, 3);
    lemma_even_point_bounds(qs, cs, corner_id(cs, f * 4 + 0), q.a, creases, bound);
    lemma_even_point_bounds(qs, cs, corner_id(cs, f * 4 + 1), q.b, creases, bound);
    lemma_even_point_bounds(qs, cs, corner_id(cs, f * 4 + 2), q.c, creases, bound);
    lemma_even_point_bounds(qs, cs, corner_id(cs, f * 4 + 3), q.d, creases, bound);
}

pub proof fn lemma_catmull_once_bounds(qs: Seq<GQuad>, creases: bool, bound: int)
    requires
        0 <= bound,
        quads_in_bounds(qs, bound),
    ensures
        quads_in_bounds(catmull_once_spec(qs, creases), 5 * bound),
{
    assert forall|i: int|
        0 <= i < catmull_once_spec(qs, creases).len() implies quad_in_bounds(
        #[trigger] catmull_once_spec(qs, creases)[i],
        5 * bound,
    ) by {
        vstd::arithmetic::div_mod::lemma_fundamental_div_mod(i, 4);
        assert(0 <= i / 4 < qs.len()) by {
            assert(i < qs.len() * 4);
            if i / 4 >= qs.len() {
                assert(i == 4 * (i / 4) + i % 4);
                assert(4 * (i / 4) >= 4 * qs.len()) by (nonlinear_arith)
                    requires
                        i / 4 >= qs.len(),
                ;
            }
            if i / 4 < 0 {
                assert(4 * (i / 4) < 0) by (nonlinear_arith)
                    requires
                        i / 4 < 0,
                ;
            }
        }
        lemma_catmull_cell_bounds(qs, i / 4, i % 4, creases, bound);
    }
}

/// The face point of a quad.
pub fn center(q: &Quad) -> (r: Vertex)
    ensures
        r@ == quad_center(q@),
{
    midpoint(&midpoint(&q.a, &q.b), &midpoint(&q.c, &q.d))
}

/// The unnormalized normal direction of a quad.
pub fn normal(q: &Quad) -> (r: (i128, i128, i128))
    requires
        quad_in_bounds(q@, MAXC as int),
    ensures
        crate::mesh::npos(r) == quad_normal(q@),
        crate::mesh::triple_in_bounds(r, crate::arith::NORMAL_BOUND as int),
{
    cross_of_diffs(&q.a, &q.b, &q.b, &q.c)
}

/// Corner `t` of a quad.
pub fn quad_corner(q: &Quad, t: usize) -> (r: Vertex)
    requires
        t < 4,
    ensures
        r@ == qcorner(q@, t as int),
{
    if t == 0 {
        q.a
    } else if t == 1 {
        q.b
    } else if t == 2 {
        q.c
    } else {
        q.d
    }
}

/// The quad adjacent to `me` across the edge whose welded endpoints are `a`
/// and `b`: the first other face touching both, if any.
pub fn get_adjacent(
    a: usize,
    b: usize,
    me: usize,
    quads: &Vec<Quad>,
    map: &VertexMap,
) -> (r: Option<usize>)
    requires
        map.wf(qcorners(quads_view(quads@)), 4),
        a < map.incident.len(),
    ensures
        ({
            let cs = qcorners(quads_view(quads@));
            match r {
                Some(f) => {
                    &&& adjacent_spec(cs, 4, quads@.len() as int, a as int, b as int, me as int)
                        == Some(f as int)
                    &&& f < quads@.len()
                    &&& f != me
                },
                None => adjacent_spec(cs, 4, quads@.len() as int, a as int, b as int, me as int)
                    is None,
            }
        }),
{
    let ghost cs = qcorners(quads_view(quads@));
    proof {
        assert(cs.len() == quads@.len() * 4);
        vstd::arithmetic::div_mod::lemma_fundamental_div_mod_converse(
            cs.len() as int,
            4,
            quads@.len() as int,
            0,
        );
    }
    adjacent_core(map, a, b, me, Ghost(cs), 4)
}

/// Corner indexes of a face stay inside the flattened corner sequence.
proof fn lemma_corner_index(len: int, me: int, t: int)
    requires
        0 <= me < len,
        0 <= t < 4,
    ensures
        0 <= me * 4 + t < len * 4,
{
    assert(me * 4 + t < len * 4) by (nonlinear_arith)
        requires
            me < len,
            t < 4,
    ;
    assert(me * 4 >= 0) by (nonlinear_arith)
        requires
            me >= 0,
    ;
}

/// The edge point of the edge between slots `ta` and `tb` of face `me`: the
/// plain midpoint on a boundary or (with creases kept) across a sharp
/// neighbor, else the midpoint blended with the two face points.
pub fn get_edge(
    quads: &Vec<Quad>,
    map: &VertexMap,
    me: usize,
    ta: usize,
    tb: usize,
    creases: bool,
) -> (r: Vertex)
    requires
        map.wf(qcorners(quads_view(quads@)), 4),
        quads_in_bounds(quads_view(quads@), MAXC as int),
        me < quads.len(),
        ta < 4,
        tb < 4,
    ensures
        r@ == edge_point_spec(
            quads_view(quads@),
            qcorners(quads_view(quads@)),
            me as int,
            ta as int,
            tb as int,
            creases,
        ),
{
    let ghost qv = quads_view(quads@);
    let ghost cs = qcorners(qv);
    proof {
        lemma_corner_index(quads@.len() as int, me as int, ta as int);
        lemma_corner_index(quads@.len() as int, me as int, tb as int);
    }
    let q = quads[me];
    proof {
        assert(q@ == qv[me as int]);
    }
    let pa = quad_corner(&q, ta);
    let pb = quad_corner(&q, tb);
    let a_id = map.ids[me * 4 + ta];
    let b_id = map.ids[me * 4 + tb];
    let em = midpoint(&pa, &pb);
    match get_adjacent(a_id, b_id, me, quads, map) {
        None => em,
        Some(nf) => {
            proof {
                assert(quads[nf as int]@ == qv[nf as int]);
            }
            if creases {
                let n1 = normal(&q);
                let n2 = normal(&quads[nf]);
                if edge_is_crease(n1, n2) {
                    return em;
                }
            }
            let cm = center(&q);
            let cn = center(&quads[nf]);
            midpoint(&midpoint(&cm, &cn), &em)
        },
    }
}

/// The two edge midpoints adjacent to the welded vertex `vid` within face
/// `f`: `a` averaged with the cyclic predecessor and successor of the slot
/// where `vid` sits. The face must touch the vertex.
pub fn get_edge_midpoints(
    a: &Vertex,
    vid: usize,
    f: usize,
    quads: &Vec<Quad>,
    map: &VertexMap,
) -> (r: (Vertex, Vertex))
    requires
        map.wf(qcorners(quads_view(quads@)), 4),
        f < quads.len(),
        face_has(qcorners(quads_view(quads@)), 4, f as int, vid as int),
    ensures
        ({
            let qv = quads_view(quads@);
            let cs = qcorners(qv);
            let t = pos_in_face(cs, 4, f as int, vid as int);
            let tp = if t == 0 {
                3int
            } else {
                t - 1
            };
            let tn = if t == 3 {
                0int
            } else {
                t + 1
            };
            &&& r.0@ == mid2(a@, qcorner(qv[f as int], tp))
            &&& r.1@ == mid2(a@, qcorner(qv[f as int], tn))
            &&& gadd(r.0@, r.1@) == corner_mids(qv, cs, f as int, vid as int, a@)
        }),
{
    let ghost qv = quads_view(quads@);
    let ghost cs = qcorners(qv);
    proof {
        lemma_corner_index(quads@.len() as int, f as int, 0);
        lemma_pos_in_face(cs, 4, f as int, vid as int);
    }
    let t = match find_in_face(map, f, vid, Ghost(cs), 4) {
        Some(t) => t,
        None => {
            proof {
                assert(false);
            }
            0
        },
    };
    let tp = if t == 0 {
        3
    } else {
        t - 1
    };
    let tn = if t == 3 {
        0
    } else {
        t + 1
    };
    let q = quads[f];
    proof {
        assert(qv[f as int] == q@);
    }
    (midpoint(a, &quad_corner(&q, tp)), midpoint(a, &quad_corner(&q, tn)))
}

/// The repositioned (even) position of the welded vertex `vid`, currently at
/// `a`: kept in place at a crease or corner, else moved to
/// `(F + 2 R + (n - 3) a) / n` over its `n` incident quads.
#[verifier::rlimit(80)]
pub fn compute_original(
    a: &Vertex,
    vid: usize,
    quads: &Vec<Quad>,
    map: &VertexMap,
    creases: bool,
) -> (r: Vertex)
    requires
        map.wf(qcorners(quads_view(quads@)), 4),
        quads_in_bounds(quads_view(quads@), MAXC as int),
        in_bounds(a@, MAXC as int),
        vid < map.incident.len(),
        map.incident[vid as int].len() >= 1,
    ensures
        r@ == even_point_spec(
            quads_view(quads@),
            qcorners(quads_view(quads@)),
            vid as int,
            a@,
            creases,
        ),
{
    let ghost qv = quads_view(quads@);
    let ghost cs = qcorners(qv);
    let ghost fs = incident_upto(cs, 4, vid as int, qv.len() as int);
    proof {
        lemma_incident_upto(cs, 4, vid as int, qv.len() as int);
        assert(cs.len() == qv.len() * 4);
        vstd::arithmetic::div_mod::lemma_fundamental_div_mod_converse(
            cs.len() as int,
            4,
            qv.len() as int,
            0,
        );
        assert(map.incident[vid as int].len() == fs.len());
    }
    let n = map.incident[vid].len();
    if creases {
        let mut i: usize = 0;
        while i < n
            invariant
                i <= n,
                creases,
                map.wf(cs, 4),
                cs == qcorners(qv),
                qv == quads_view(quads@),
                quads_in_bounds(qv, MAXC as int),
                in_bounds(a@, MAXC as int),
                vid < map.incident.len(),
                n == map.incident[vid as int].len(),
                fs == incident_upto(cs, 4, vid as int, qv.len() as int),
                n == fs.len(),
                forall|x: int, y: int|
                    0 <= x < i && 0 <= y < n && x != y ==> !crease_test(
                        quad_normal(qv[#[trigger] fs[x]]),
                        quad_normal(qv[#[trigger] fs[y]]),
                    ),
            decreases n - i,
        {
            let fi = map.incident[vid][i];
            let mut j: usize = 0;
            while j < n
                invariant
                    j <= n,
                    i < n,
                    creases,
                    map.wf(cs, 4),
                    cs == qcorners(qv),
                    qv == quads_view(quads@),
                    quads_in_bounds(qv, MAXC as int),
                    vid < map.incident.len(),
                    n == map.incident[vid as int].len(),
                    fs == incident_upto(cs, 4, vid as int, qv.len() as int),
                    n == fs.len(),
                    fi == map.incident[vid as int][i as int],
                    forall|y: int|
                        0 <= y < j && i as int != y ==> !crease_test(
                            quad_normal(qv[fs[i as int]]),
                            quad_normal(qv[#[trigger] fs[y]]),
                        ),
                decreases n - j,
            {
                if i != j {
                    let fj = map.incident[vid][j];
                    proof {
                        lemma_incident_upto(cs, 4, vid as int, qv.len() as int);
                        assert(fi as int == fs[i as int]);
                        assert(fj as int == fs[j as int]);
                        assert(0 <= fs[i as int] < qv.len());
                        assert(0 <= fs[j as int] < qv.len());
                        assert(qv[fi as int] == quads[fi as int]@);
                    }
                    let n1 = normal(&quads[fi]);
                    let n2 = normal(&quads[fj]);
                    if edge_is_crease(n1, n2) {
                        proof {
                            assert(crease_test(
                                quad_normal(qv[fs[i as int]]),
                                quad_normal(qv[fs[j as int]]),
                            ));
                            assert(has_crease_pair(qv, fs));
                            assert(even_point_spec(qv, cs, vid as int, a@, creases) == a@);
                        }
                        return *a;
                    }
                }
                j += 1;
            }
            i += 1;
        }
        proof {
            if has_crease_pair(qv, fs) {
                let (x, y) = choose|x: int, y: int|
                    0 <= x < fs.len() && 0 <= y < fs.len() && x != y && crease_test(
                        quad_normal(qv[#[trigger] fs[x]]),
                        quad_normal(qv[#[trigger] fs[y]]),
                    );
                assert(!crease_test(quad_normal(qv[fs[x]]), quad_normal(qv[fs[y]])));
                assert(false);
            }
        }
    }
    // F: the average of the incident face points
    let mut sx: i128 = 0;
    let mut sy: i128 = 0;
    let mut sz: i128 = 0;
    let mut idx: usize = 0;
    proof {
        assert(fs.take(0) =~= Seq::<int>::empty());
    }
    while idx < n
        invariant
            idx <= n,
            map.wf(cs, 4),
            cs == qcorners(qv),
            qv == quads_view(quads@),
            quads_in_bounds(qv, MAXC as int),
            vid < map.incident.len(),
            n == map.incident[vid as int].len(),
            fs == incident_upto(cs, 4, vid as int, qv.len() as int),
            n == fs.len(),
            sx as int == sum_centers(qv, fs.take(idx as int)).x,
            sy as int == sum_centers(qv, fs.take(idx as int)).y,
            sz as int == sum_centers(qv, fs.take(idx as int)).z,
            -(idx as int * (MAXC as int)) <= sx as int <= idx as int * (MAXC as int),
            -(idx as int * (MAXC as int)) <= sy as int <= idx as int * (MAXC as int),
            -(idx as int * (MAXC as int)) <= sz as int <= idx as int * (MAXC as int),
        decreases n - idx,
    {
        let fi = map.incident[vid][idx];
        proof {
            lemma_incident_upto(cs, 4, vid as int, qv.len() as int);
            assert(fi as int == fs[idx as int]);
            assert(0 <= fs[idx as int] < qv.len());
            assert(qv[fi as int] == quads[fi as int]@);
            let q = qv[fi as int];
            lemma_mid2_in_bounds(q.a, q.b, MAXC as int);
            lemma_mid2_in_bounds(q.c, q.d, MAXC as int);
            lemma_mid2_in_bounds(mid2(q.a, q.b), mid2(q.c, q.d), MAXC as int);
        }
        let c = center(&quads[fi]);
        sx = sx + c.x as i128;
        sy = sy + c.y as i128;
        sz = sz + c.z as i128;
        proof {
            assert(fs.take(idx as int + 1).drop_last() =~= fs.take(idx as int));
            assert(fs.take(idx as int + 1).last() == fs[idx as int]);
        }
        idx += 1;
    }
    proof {
        assert(fs.take(n as int) =~= fs);
        assert(n as int * (MAXC as int) < 0x4000_0000_0000_0000_0000_0000_0000_0000)
            by (nonlinear_arith)
            requires
                n as int <= 0x1_0000_0000_0000_0000,
                MAXC == 536870912,
        ;
        lemma_div_bound(sx as int, n as int, MAXC as int);
        lemma_div_bound(sy as int, n as int, MAXC as int);
        lemma_div_bound(sz as int, n as int, MAXC as int);
    }
    let ni = n as i128;
    let favg = Vertex {
        x: crate::arith::div_floor(sx, ni) as i64,
        y: crate::arith::div_floor(sy, ni) as i64,
        z: crate::arith::div_floor(sz, ni) as i64,
    };
    // R: the average of the 2 n adjacent edge midpoints
    let mut rx: i128 = 0;
    let mut ry: i128 = 0;
    let mut rz: i128 = 0;
    let mut idx2: usize = 0;
    proof {
        assert(fs.take(0) =~= Seq::<int>::empty());
    }
    while idx2 < n
        invariant
            idx2 <= n,
            map.wf(cs, 4),
            cs == qcorners(qv),
            qv == quads_view(quads@),
            quads_in_bounds(qv, MAXC as int),
            in_bounds(a@, MAXC as int),
            vid < map.incident.len(),
            n == map.incident[vid as int].len(),
            fs == incident_upto(cs, 4, vid as int, qv.len() as int),
            n == fs.len(),
            rx as int == sum_mids(qv, cs, fs.take(idx2 as int), vid as int, a@).x,
            ry as int == sum_mids(qv, cs, fs.take(idx2 as int), vid as int, a@).y,
            rz as int == sum_mids(qv, cs, fs.take(idx2 as int), vid as int, a@).z,
            -(2 * idx2 as int * (MAXC as int)) <= rx as int <= 2 * idx2 as int * (MAXC as int),
            -(2 * idx2 as int * (MAXC as int)) <= ry as int <= 2 * idx2 as int * (MAXC as int),
            -(2 * idx2 as int * (MAXC as int)) <= rz as int <= 2 * idx2 as int * (MAXC as int),
        decreases n - idx2,
    {
        let fi = map.incident[vid][idx2];
        proof {
            lemma_incident_upto(cs, 4, vid as int, qv.len() as int);
            assert(fi as int == fs[idx2 as int]);
            assert(0 <= fs[idx2 as int] < qv.len());
            assert(face_has(cs, 4, fi as int, vid as int));
            let q = qv[fi as int];
            let t = pos_in_face(cs, 4, fi as int, vid as int);
            let tp = if t == 0 {
                3int
            } else {
                t - 1
            };
            let tn = if t == 3 {
                0int
            } else {
                t + 1
            };
            lemma_mid2_in_bounds(a@, qcorner(q, tp), MAXC as int);
            lemma_mid2_in_bounds(a@, qcorner(q, tn), MAXC as int);
        }
        let (m1, m2) = get_edge_midpoints(a, vid, fi, quads, map);
        rx = rx + m1.x as i128 + m2.x as i128;
        ry = ry + m1.y as i128 + m2.y as i128;
        rz = rz + m1.z as i128 + m2.z as i128;
        proof {
            assert(fs.take(idx2 as int + 1).drop_last() =~= fs.take(idx2 as int));
            assert(fs.take(idx2 as int + 1).last() == fs[idx2 as int]);
        }
        idx2 += 1;
    }
    proof {
        assert(fs.take(n as int) =~= fs);
        assert(2 * (n as int) * (MAXC as int) < 0x4000_0000_0000_0000_0000_0000_0000_0000
            && 2 * (n as int) <= 0x4000_0000_0000_0000_0000_0000_0000_0000) by (nonlinear_arith)
            requires
                n as int <= 0x1_0000_0000_0000_0000,
                MAXC == 536870912,
        ;
        lemma_div_bound(rx as int, 2 * n as int, MAXC as int);
        lemma_div_bound(ry as int, 2 * n as int, MAXC as int);
        lemma_div_bound(rz as int, 2 * n as int, MAXC as int);
    }
    let ravg = Vertex {
        x: crate::arith::div_floor(rx, 2 * ni) as i64,
        y: crate::arith::div_floor(ry, 2 * ni) as i64,
        z: crate::arith::div_floor(rz, 2 * ni) as i64,
    };
    // (F + 2 R + (n - 3) a) / n
    proof {
        crate::mesh::lemma_abs_mul_bound(
            ni as int - 3,
            a.x as int,
            ni as int + 3,
            MAXC as int,
        );
        crate::mesh::lemma_abs_mul_bound(
            ni as int - 3,
            a.y as int,
            ni as int + 3,
            MAXC as int,
        );
        crate::mesh::lemma_abs_mul_bound(
            ni as int - 3,
            a.z as int,
            ni as int + 3,
            MAXC as int,
        );
        assert((ni as int + 3) * (MAXC as int) + 3 * (MAXC as int)
            < 0x4000_0000_0000_0000_0000_0000_0000_0000) by (nonlinear_arith)
            requires
                ni as int <= 0x1_0000_0000_0000_0000,
                MAXC == 536870912,
        ;
    }
    let nx = favg.x as i128 + 2 * ravg.x as i128 + (ni - 3) * a.x as i128;
    let ny = favg.y as i128 + 2 * ravg.y as i128 + (ni - 3) * a.y as i128;
    let nz = favg.z as i128 + 2 * ravg.z as i128 + (ni - 3) * a.z as i128;
    proof {
        lemma_even_point_bounds(qv, cs, vid as int, a@, creases, MAXC as int);
    }
    let r = Vertex {
        x: crate::arith::div_floor(nx, ni) as i64,
        y: crate::arith::div_floor(ny, ni) as i64,
        z: crate::arith::div_floor(nz, ni) as i64,
    };
    proof {
        assert(r@ == even_point_spec(qv, cs, vid as int, a@, creases));
    }
    r
}


/// One Catmull-Clark pass: per quad, the face point, four edge points and
/// four repositioned corners, emitted as four sub-quads in the standard
/// split topology.
#[verifier::rlimit(100)]
#[verifier::spinoff_prover]
pub fn catmull_subdivide_once(quads: Vec<Quad>, creases: bool) -> (r: Vec<Quad>)
    requires
        quads_in_bounds(quads_view(quads@), MAXC as int),
    ensures
        r@.len() == 4 * quads@.len(),
        quads_view(r@) == catmull_once_spec(quads_view(quads@), creases),
        forall|bb: int|
            0 <= bb && quads_in_bounds(quads_view(quads@), bb) ==> quads_in_bounds(
                quads_view(r@),
                5 * bb,
            ),
{
    let ghost qv = quads_view(quads@);
    let ghost cs = qcorners(qv);
    let map = get_vertex_map(&quads);
    let mut r: Vec<Quad> = Vec::new();
    let mut me: usize = 0;
    while me < quads.len()
        invariant
            me <= quads.len(),
            qv == quads_view(quads@),
            cs == qcorners(qv),
            qv.len() == quads.len(),
            quads_in_bounds(qv, MAXC as int),
            map.wf(cs, 4),
            r.len() == 4 * me,
            forall|x: int|
                0 <= x < r.len() ==> r[x]@ == #[trigger] catmull_once_spec(qv, creases)[x],
        decreases quads.len() - me,
    {
        let q = quads[me];
        proof {
            assert(q@ == qv[me as int]);
            lemma_corner_index(qv.len() as int, me as int, 0);
            lemma_corner_index(qv.len() as int, me as int, 1);
            lemma_corner_index(qv.len() as int, me as int, 2);
            lemma_corner_index(qv.len() as int, me as int, 3);
            lemma_own_face_incident(cs, qv.len() as int, me as int, 0);
            lemma_own_face_incident(cs, qv.len() as int, me as int, 1);
            lemma_own_face_incident(cs, qv.len() as int, me as int, 2);
            lemma_own_face_incident(cs, qv.len() as int, me as int, 3);
            assert(cs.len() == qv.len() * 4);
            vstd::arithmetic::div_mod::lemma_fundamental_div_mod_converse(
                cs.len() as int,
                4,
                qv.len() as int,
                0,
            );
        }
        let ctr = center(&q);
        let e1 = get_edge(&quads, &map, me, 0, 1, creases);
        let e2 = get_edge(&quads, &map, me, 1, 2, creases);
        let e3 = get_edge(&quads, &map, me, 2, 3, creases);
        let e4 = get_edge(&quads, &map, me, 0, 3, creases);
        let vid_a = map.ids[me * 4 + 0];
        let vid_b = map.ids[me * 4 + 1];
        let vid_c = map.ids[me * 4 + 2];
        let vid_d = map.ids[me * 4 + 3];
        let na = compute_original(&q.a, vid_a, &quads, &map, creases);
        let nb = compute_original(&q.b, vid_b, &quads, &map, creases);
        let nc = compute_original(&q.c, vid_c, &quads, &map, creases);
        let nd = compute_original(&q.d, vid_d, &quads, &map, creases);
        r.push(Quad { a: na, b: e1, c: ctr, d: e4 });
        r.push(Quad { a: e1, b: nb, c: e2, d: ctr });
        r.push(Quad { a: ctr, b: e2, c: nc, d: e3 });
        r.push(Quad { a: e4, b: ctr, c: e3, d: nd });
        proof {
            let ii = me as int;
            assert forall|k: int| 0 <= k < 4 implies #[trigger] ((4 * ii + k) / 4) == ii && (4 * ii
                + k) % 4 == k by {
                vstd::arithmetic::div_mod::lemma_fundamental_div_mod_converse(
                    4 * ii + k,
                    4,
                    ii,
                    k,
                );
            }
            assert(r[4 * ii + 0]@ == catmull_cell(qv, ii, 0, creases));
            assert(r[4 * ii + 1]@ == catmull_cell(qv, ii, 1, creases));
            assert(r[4 * ii + 2]@ == catmull_cell(qv, ii, 2, creases));
            assert(r[4 * ii + 3]@ == catmull_cell(qv, ii, 3, creases));
        }
        me += 1;
    }
    proof {
        assert(quads_view(r@) =~= catmull_once_spec(qv, creases));
        assert forall|bb: int|
            0 <= bb && quads_in_bounds(qv, bb) implies quads_in_bounds(
            quads_view(r@),
            5 * bb,
        ) by {
            lemma_catmull_once_bounds(qv, creases, bb);
        }
    }
    r
}

/// `levels` Catmull-Clark passes; zero levels is the identity. Coordinates
/// may grow by a factor of five per pass at valence-one or valence-two
/// corners, so the input must leave that much headroom.
pub fn catmull_subdivide(quads: Vec<Quad>, levels: u32, creases: bool) -> (r: Vec<Quad>)
    requires
        quads_in_bounds(
            quads_view(quads@),
            (MAXC as int) / (crate::arith::pow5(levels as nat) as int),
        ),
    ensures
        quads_view(r@) == catmull_spec(quads_view(quads@), levels as nat, creases),
        levels == 0 ==> r@ == quads@,
{
    let ghost q0 = quads@;
    let ghost qv0 = quads_view(quads@);
    let ghost base = (MAXC as int) / (crate::arith::pow5(levels as nat) as int);
    proof {
        crate::arith::lemma_pow5_mono(0, levels as nat);
        vstd::arithmetic::div_mod::lemma_div_pos_is_pos(
            MAXC as int,
            crate::arith::pow5(levels as nat) as int,
        );
    }
    let mut quads = quads;
    let mut l: u32 = 0;
    while l < levels
        invariant
            l <= levels,
            base == (MAXC as int) / (crate::arith::pow5(levels as nat) as int),
            base >= 0,
            quads_view(quads@) == catmull_spec(qv0, l as nat, creases),
            quads_in_bounds(quads_view(quads@), crate::arith::pow5(l as nat) as int * base),
            l == 0 ==> quads@ == q0,
        decreases levels - l,
    {
        proof {
            let p5l = crate::arith::pow5(l as nat) as int;
            let p5all = crate::arith::pow5(levels as nat) as int;
            crate::arith::lemma_pow5_mono(l as nat, levels as nat);
            vstd::arithmetic::div_mod::lemma_fundamental_div_mod(MAXC as int, p5all);
            assert(p5all * base <= MAXC as int);
            assert(p5l * base <= p5all * base) by (nonlinear_arith)
                requires
                    p5l <= p5all,
                    base >= 0,
            ;
            assert forall|i: int|
                0 <= i < quads_view(quads@).len() implies quad_in_bounds(
                #[trigger] quads_view(quads@)[i],
                MAXC as int,
            ) by {
                assert(quad_in_bounds(quads_view(quads@)[i], p5l * base));
            }
        }
        quads = catmull_subdivide_once(quads, creases);
        proof {
            let p5l = crate::arith::pow5(l as nat) as int;
            let p5next = crate::arith::pow5((l + 1) as nat) as int;
            assert(quads_in_bounds(quads_view(quads@), 5 * (p5l * base)));
            assert(crate::arith::pow5((l + 1) as nat) == 5 * crate::arith::pow5(
                ((l + 1) as nat - 1) as nat,
            ));
            assert(((l + 1) as nat - 1) as nat == l as nat);
            assert(p5next * base == 5 * (p5l * base)) by (nonlinear_arith)
                requires
                    p5next == 5 * p5l,
            ;
        }
        l += 1;
    }
    quads
}


/// The neighbors of a quad across its four edges a-b, b-c, c-d, d-a.
#[derive(Clone, Copy, Debug)]
pub struct QuadNeighbors {
    pub ab: Option<usize>,
    pub bc: Option<usize>,
    pub cd: Option<usize>,
    pub da: Option<usize>,
}

/// The two slots of edge `e` of a quad.
pub open spec fn qedge_slots(e: int) -> (int, int) {
    if e == 0 {
        (0int, 1int)
    } else if e == 1 {
        (1int, 2int)
    } else if e == 2 {
        (2int, 3int)
    } else {
        (3int, 0int)
    }
}

/// The neighbor of face `f` across its edge `e`.
pub open spec fn qadj(cs: Seq<GPos>, nfaces: int, f: int, e: int) -> Option<int> {
    let st = qedge_slots(e);
    adjacent_spec(cs, 4, nfaces, corner_id(cs, f * 4 + st.0), corner_id(cs, f * 4 + st.1), f)
}

/// Entry `e` of a neighbor record.
pub open spec fn qn_entry(x: QuadNeighbors, e: int) -> Option<int> {
    let o = if e == 0 {
        x.ab
    } else if e == 1 {
        x.bc
    } else if e == 2 {
        x.cd
    } else {
        x.da
    };
    match o {
        Some(u) => Some(u as int),
        None => None,
    }
}

/// Entry `e` of a neighbor record, at run time.
pub fn qn_at(x: &QuadNeighbors, e: usize) -> (r: Option<usize>)
    requires
        e < 4,
    ensures
        qn_entry(*x, e as int) == (match r {
            Some(u) => Some(u as int),
            None => None::<int>,
        }),
{
    if e == 0 {
        x.ab
    } else if e == 1 {
        x.bc
    } else if e == 2 {
        x.cd
    } else {
        x.da
    }
}

/// The per-face adjacency table: for each quad and each of its edges, the
/// neighbor across that edge, if any.
pub fn get_adjacency(quads: &Vec<Quad>) -> (r: Vec<QuadNeighbors>)
    requires
        quads_in_bounds(quads_view(quads@), MAXC as int),
    ensures
        r@.len() == quads@.len(),
        forall|f: int, e: int|
            0 <= f < quads@.len() && 0 <= e < 4 ==> #[trigger] qn_entry(r@[f], e) == qadj(
                qcorners(quads_view(quads@)),
                quads@.len() as int,
                f,
                e,
            ),
{
    let ghost qv = quads_view(quads@);
    let ghost cs = qcorners(qv);
    let map = get_vertex_map(quads);
    let mut r: Vec<QuadNeighbors> = Vec::new();
    let mut f: usize = 0;
    while f < quads.len()
        invariant
            f <= quads.len(),
            qv == quads_view(quads@),
            cs == qcorners(qv),
            qv.len() == quads.len(),
            quads_in_bounds(qv, MAXC as int),
            map.wf(cs, 4),
            r.len() == f,
            forall|g: int, e: int|
                0 <= g < f && 0 <= e < 4 ==> #[trigger] qn_entry(r@[g], e) == qadj(
                    cs,
                    qv.len() as int,
                    g,
                    e,
                ),
        decreases quads.len() - f,
    {
        proof {
            lemma_corner_index(qv.len() as int, f as int, 0);
            lemma_corner_index(qv.len() as int, f as int, 1);
            lemma_corner_index(qv.len() as int, f as int, 2);
            lemma_corner_index(qv.len() as int, f as int, 3);
            assert(cs.len() == qv.len() * 4);
            vstd::arithmetic::div_mod::lemma_fundamental_div_mod_converse(
                cs.len() as int,
                4,
                qv.len() as int,
                0,
            );
        }
        let i0 = map.ids[f * 4 + 0];
        let i1 = map.ids[f * 4 + 1];
        let i2 = map.ids[f * 4 + 2];
        let i3 = map.ids[f * 4 + 3];
        let ab = get_adjacent(i0, i1, f, quads, &map);
        let bc = get_adjacent(i1, i2, f, quads, &map);
        let cd = get_adjacent(i2, i3, f, quads, &map);
        let da = get_adjacent(i3, i0, f, quads, &map);
        r.push(QuadNeighbors { ab, bc, cd, da });
        f += 1;
    }
    r
}

/// Whether the neighbor across edge `e` of face `f` is already colored with
/// `cidx`.
pub open spec fn edge_taken(
    cs: Seq<GPos>,
    nfaces: int,
    f: int,
    e: int,
    prev: Seq<int>,
    cidx: int,
) -> bool {
    match qadj(cs, nfaces, f, e) {
        Some(j) => 0 <= j < prev.len() && prev[j] == cidx,
        None => false,
    }
}

/// Whether some already-colored neighbor of face `f` holds color `cidx`.
pub open spec fn color_taken(cs: Seq<GPos>, nfaces: int, f: int, prev: Seq<int>, cidx: int) -> bool {
    exists|e: int| 0 <= e < 4 && #[trigger] edge_taken(cs, nfaces, f, e, prev, cidx)
}

/// The lowest palette index not taken by an already-colored neighbor; `5`
/// never happens, since a quad has only four edges.
pub open spec fn pick_color(cs: Seq<GPos>, nfaces: int, f: int, prev: Seq<int>) -> int {
    if !color_taken(cs, nfaces, f, prev, 0) {
        0
    } else if !color_taken(cs, nfaces, f, prev, 1) {
        1
    } else if !color_taken(cs, nfaces, f, prev, 2) {
        2
    } else if !color_taken(cs, nfaces, f, prev, 3) {
        3
    } else if !color_taken(cs, nfaces, f, prev, 4) {
        4
    } else {
        5
    }
}

/// The greedy colors of faces `0 .. f`, in face order.
pub open spec fn colors_upto(cs: Seq<GPos>, nfaces: int, f: int) -> Seq<int>
    decreases f,
{
    if f <= 0 {
        Seq::empty()
    } else {
        let prev = colors_upto(cs, nfaces, f - 1);
        prev.push(pick_color(cs, nfaces, f - 1, prev))
    }
}

pub proof fn lemma_colors_upto_len(cs: Seq<GPos>, nfaces: int, f: int)
    requires
        f >= 0,
    ensures
        colors_upto(cs, nfaces, f).len() == f,
    decreases f,
{
    if f > 0 {
        lemma_colors_upto_len(cs, nfaces, f - 1);
    }
}

/// With only four edges, at most four palette indexes can be taken, so the
/// greedy pick always finds a free color among the five.
pub proof fn lemma_pick_color_free(cs: Seq<GPos>, nfaces: int, f: int, prev: Seq<int>)
    ensures
        0 <= pick_color(cs, nfaces, f, prev) < 5,
        !color_taken(cs, nfaces, f, prev, pick_color(cs, nfaces, f, prev)),
{
    if color_taken(cs, nfaces, f, prev, 0) && color_taken(cs, nfaces, f, prev, 1) && color_taken(
        cs,
        nfaces,
        f,
        prev,
        2,
    ) && color_taken(cs, nfaces, f, prev, 3) && color_taken(cs, nfaces, f, prev, 4) {
        let e0 = choose|e: int| 0 <= e < 4 && #[trigger] edge_taken(cs, nfaces, f, e, prev, 0);
        let e1 = choose|e: int| 0 <= e < 4 && #[trigger] edge_taken(cs, nfaces, f, e, prev, 1);
        let e2 = choose|e: int| 0 <= e < 4 && #[trigger] edge_taken(cs, nfaces, f, e, prev, 2);
        let e3 = choose|e: int| 0 <= e < 4 && #[trigger] edge_taken(cs, nfaces, f, e, prev, 3);
        let e4 = choose|e: int| 0 <= e < 4 && #[trigger] edge_taken(cs, nfaces, f, e, prev, 4);
        assert(e0 == e1 || e0 == e2 || e0 == e3 || e0 == e4 || e1 == e2 || e1 == e3 || e1 == e4
            || e2 == e3 || e2 == e4 || e3 == e4);
        assert(false);
    }
}

/// Sum of the four raw corner positions of every quad.
pub open spec fn centroid_sum(qs: Seq<GQuad>) -> GPos
    decreases qs.len(),
{
    if qs.len() == 0 {
        gzero()
    } else {
        gadd(
            centroid_sum(qs.drop_last()),
            gadd(gadd(qs.last().a, qs.last().b), gadd(qs.last().c, qs.last().d)),
        )
    }
}

/// Slot `k` of the six-entry triangle-list emission of a quad: the two
/// windings (a, b, c) and (c, a, d) of its fixed diagonal split.
pub open spec fn quad_stream_slot(q: GQuad, k: int) -> GPos {
    if k == 0 {
        q.a
    } else if k == 1 {
        q.b
    } else if k == 2 {
        q.c
    } else if k == 3 {
        q.c
    } else if k == 4 {
        q.a
    } else {
        q.d
    }
}

/// Every corner shifted by `-cpos`.
pub open spec fn shift_quad(q: GQuad, cpos: GPos) -> GQuad {
    GQuad { a: gsub(q.a, cpos), b: gsub(q.b, cpos), c: gsub(q.c, cpos), d: gsub(q.d, cpos) }
}

pub open spec fn shifted(qs: Seq<GQuad>, cpos: GPos) -> Seq<GQuad> {
    Seq::new(qs.len(), |i: int| shift_quad(qs[i], cpos))
}

/// The full transform: greedy face coloring over the adjacency of the welded
/// mesh, emission of each quad as two triangles, and recentering by the
/// per-quad centroid approximation (each corner counted once per face).
pub open spec fn transform_spec(qs: Seq<GQuad>) -> Seq<GColored> {
    let n = qs.len() as int;
    let cpos = gdiv(centroid_sum(qs), 4 * n);
    let cols = colors_upto(qcorners(qs), n, n);
    Seq::new(
        (6 * qs.len()) as nat,
        |i: int|
            GColored { pos: gsub(quad_stream_slot(qs[i / 6], i % 6), cpos), color: cols[i / 6] },
    )
}


/// Whether edge `e` of face `f` hands color `cidx` to the taken set.
fn edge_gives(
    nb: &QuadNeighbors,
    colors: &Vec<usize>,
    e: usize,
    cidx: usize,
    cs: Ghost<Seq<GPos>>,
    nfaces: Ghost<int>,
    f: Ghost<int>,
    prev: Ghost<Seq<int>>,
) -> (r: bool)
    requires
        e < 4,
        qn_entry(*nb, e as int) == qadj(cs@, nfaces@, f@, e as int),
        colors.len() == prev@.len(),
        forall|k: int| 0 <= k < colors.len() ==> colors[k] as int == #[trigger] prev@[k],
    ensures
        r == edge_taken(cs@, nfaces@, f@, e as int, prev@, cidx as int),
{
    match qn_at(nb, e) {
        Some(j) => j < colors.len() && colors[j] == cidx,
        None => false,
    }
}

/// Whether some already-colored neighbor of face `f` holds color `cidx`.
fn color_is_taken(
    nb: &QuadNeighbors,
    colors: &Vec<usize>,
    cidx: usize,
    cs: Ghost<Seq<GPos>>,
    nfaces: Ghost<int>,
    f: Ghost<int>,
    prev: Ghost<Seq<int>>,
) -> (r: bool)
    requires
        forall|e: int| 0 <= e < 4 ==> #[trigger] qn_entry(*nb, e) == qadj(cs@, nfaces@, f@, e),
        colors.len() == prev@.len(),
        forall|k: int| 0 <= k < colors.len() ==> colors[k] as int == #[trigger] prev@[k],
    ensures
        r == color_taken(cs@, nfaces@, f@, prev@, cidx as int),
{
    let g0 = edge_gives(nb, colors, 0, cidx, cs, nfaces, f, prev);
    let g1 = edge_gives(nb, colors, 1, cidx, cs, nfaces, f, prev);
    let g2 = edge_gives(nb, colors, 2, cidx, cs, nfaces, f, prev);
    let g3 = edge_gives(nb, colors, 3, cidx, cs, nfaces, f, prev);
    let r = g0 || g1 || g2 || g3;
    proof {
        if r {
            assert(color_taken(cs@, nfaces@, f@, prev@, cidx as int)) by {
                if g0 {
                    assert(edge_taken(cs@, nfaces@, f@, 0, prev@, cidx as int));
                } else if g1 {
                    assert(edge_taken(cs@, nfaces@, f@, 1, prev@, cidx as int));
                } else if g2 {
                    assert(edge_taken(cs@, nfaces@, f@, 2, prev@, cidx as int));
                } else {
                    assert(edge_taken(cs@, nfaces@, f@, 3, prev@, cidx as int));
                }
            }
        } else {
            if color_taken(cs@, nfaces@, f@, prev@, cidx as int) {
                let e = choose|e: int|
                    0 <= e < 4 && #[trigger] edge_taken(cs@, nfaces@, f@, e, prev@, cidx as int);
                assert(e == 0 || e == 1 || e == 2 || e == 3);
                assert(false);
            }
        }
    }
    r
}

/// The coloring and normalization transform: greedily color the faces so
/// that neighbors differ, emit each quad as two triangles carrying its
/// palette index, and recenter every emitted position by the per-quad
/// centroid approximation.
#[verifier::rlimit(100)]
#[verifier::spinoff_prover]
pub fn transform(quads: Vec<Quad>) -> (r: Vec<ColoredVertex>)
    requires
        quads_in_bounds(quads_view(quads@), MAXC as int),
    ensures
        r@.len() == 6 * quads@.len(),
        crate::mesh::stream_view(r@) == transform_spec(quads_view(quads@)),
{
    let ghost qv = quads_view(quads@);
    let ghost cs = qcorners(qv);
    let n = quads.len();
    if n == 0 {
        let r: Vec<ColoredVertex> = Vec::new();
        proof {
            assert(crate::mesh::stream_view(r@) =~= transform_spec(qv));
        }
        return r;
    }
    let adj = get_adjacency(&quads);
    let mut colors: Vec<usize> = Vec::new();
    let mut raw: Vec<ColoredVertex> = Vec::new();
    let mut sx: i128 = 0;
    let mut sy: i128 = 0;
    let mut sz: i128 = 0;
    let mut f: usize = 0;
    proof {
        assert(qv.take(0) =~= Seq::<GQuad>::empty());
    }
    while f < n
        invariant
            f <= n,
            n == quads.len(),
            n >= 1,
            qv == quads_view(quads@),
            cs == qcorners(qv),
            qv.len() == n,
            quads_in_bounds(qv, MAXC as int),
            adj@.len() == n,
            forall|g: int, e: int|
                0 <= g < n && 0 <= e < 4 ==> #[trigger] qn_entry(adj@[g], e) == qadj(
                    cs,
                    n as int,
                    g,
                    e,
                ),
            colors.len() == f,
            colors_upto(cs, n as int, f as int).len() == f,
            forall|k: int|
                0 <= k < f ==> colors[k] as int == #[trigger] colors_upto(cs, n as int, f as int)[k],
            raw.len() == 6 * f,
            forall|x: int|
                0 <= x < raw.len() ==> #[trigger] raw[x]@.pos == quad_stream_slot(
                    qv[x / 6],
                    x % 6,
                ),
            forall|x: int|
                0 <= x < raw.len() ==> #[trigger] raw[x]@.color == colors_upto(
                    cs,
                    n as int,
                    f as int,
                )[x / 6],
            sx as int == centroid_sum(qv.take(f as int)).x,
            sy as int == centroid_sum(qv.take(f as int)).y,
            sz as int == centroid_sum(qv.take(f as int)).z,
            -(4 * f as int * (MAXC as int)) <= sx as int <= 4 * f as int * (MAXC as int),
            -(4 * f as int * (MAXC as int)) <= sy as int <= 4 * f as int * (MAXC as int),
            -(4 * f as int * (MAXC as int)) <= sz as int <= 4 * f as int * (MAXC as int),
        decreases n - f,
    {
        let ghost prev = colors_upto(cs, n as int, f as int);
        let nb = adj[f];
        proof {
            assert(qn_entry(adj@[f as int], 0) == qadj(cs, n as int, f as int, 0));
        }
        let t0 = color_is_taken(&nb, &colors, 0, Ghost(cs), Ghost(n as int), Ghost(f as int), Ghost(prev));
        let t1 = color_is_taken(&nb, &colors, 1, Ghost(cs), Ghost(n as int), Ghost(f as int), Ghost(prev));
        let t2 = color_is_taken(&nb, &colors, 2, Ghost(cs), Ghost(n as int), Ghost(f as int), Ghost(prev));
        let t3 = color_is_taken(&nb, &colors, 3, Ghost(cs), Ghost(n as int), Ghost(f as int), Ghost(prev));
        let t4 = color_is_taken(&nb, &colors, 4, Ghost(cs), Ghost(n as int), Ghost(f as int), Ghost(prev));
        let c: usize = if !t0 {
            0
        } else if !t1 {
            1
        } else if !t2 {
            2
        } else if !t3 {
            3
        } else if !t4 {
            4
        } else {
            5
        };
        proof {
            lemma_pick_color_free(cs, n as int, f as int, prev);
            assert(c as int == pick_color(cs, n as int, f as int, prev));
        }
        colors.push(c);
        let q = quads[f];
        proof {
            assert(q@ == qv[f as int]);
        }
        raw.push(ColoredVertex { position: q.a, color: c });
        raw.push(ColoredVertex { position: q.b, color: c });
        raw.push(ColoredVertex { position: q.c, color: c });
        raw.push(ColoredVertex { position: q.c, color: c });
        raw.push(ColoredVertex { position: q.a, color: c });
        raw.push(ColoredVertex { position: q.d, color: c });
        sx = sx + q.a.x as i128 + q.b.x as i128 + q.c.x as i128 + q.d.x as i128;
        sy = sy + q.a.y as i128 + q.b.y as i128 + q.c.y as i128 + q.d.y as i128;
        sz = sz + q.a.z as i128 + q.b.z as i128 + q.c.z as i128 + q.d.z as i128;
        proof {
            let ff = f as int;
            assert(colors_upto(cs, n as int, ff + 1) == prev.push(pick_color(cs, n as int, ff, prev)));
            assert(qv.take(ff + 1).drop_last() =~= qv.take(ff));
            assert(qv.take(ff + 1).last() == qv[ff]);
            assert forall|x: int| 0 <= x < 6 implies #[trigger] ((6 * ff + x) / 6) == ff && (6 * ff
                + x) % 6 == x by {
                vstd::arithmetic::div_mod::lemma_fundamental_div_mod_converse(
                    6 * ff + x,
                    6,
                    ff,
                    x,
                );
            }
            assert(raw[6 * ff + 0]@.pos == quad_stream_slot(qv[ff], 0));
            assert(raw[6 * ff + 1]@.pos == quad_stream_slot(qv[ff], 1));
            assert(raw[6 * ff + 2]@.pos == quad_stream_slot(qv[ff], 2));
            assert(raw[6 * ff + 3]@.pos == quad_stream_slot(qv[ff], 3));
            assert(raw[6 * ff + 4]@.pos == quad_stream_slot(qv[ff], 4));
            assert(raw[6 * ff + 5]@.pos == quad_stream_slot(qv[ff], 5));
        }
        f += 1;
    }
    proof {
        assert(qv.take(n as int) =~= qv);
        assert(4 * (n as int) * (MAXC as int) < 0x4000_0000_0000_0000_0000_0000_0000_0000 && 4 * (
        n as int) <= 0x4000_0000_0000_0000_0000_0000_0000_0000) by (nonlinear_arith)
            requires
                n as int <= 0x1_0000_0000_0000_0000,
                MAXC == 536870912,
        ;
        lemma_div_bound(sx as int, 4 * n as int, MAXC as int);
        lemma_div_bound(sy as int, 4 * n as int, MAXC as int);
        lemma_div_bound(sz as int, 4 * n as int, MAXC as int);
    }
    let ni = n as i128;
    let avx = crate::arith::div_floor(sx, 4 * ni) as i64;
    let avy = crate::arith::div_floor(sy, 4 * ni) as i64;
    let avz = crate::arith::div_floor(sz, 4 * ni) as i64;
    let ghost cpos = gdiv(centroid_sum(qv), 4 * qv.len() as int);
    proof {
        assert(cpos.x == avx as int && cpos.y == avy as int && cpos.z == avz as int);
    }
    let mut r = raw;
    let total = r.len();
    let mut i: usize = 0;
    while i < total
        invariant
            i <= total,
            total == r.len(),
            total == 6 * n,
            n == qv.len(),
            n >= 1,
            cpos == gdiv(centroid_sum(qv), 4 * qv.len() as int),
            in_bounds(cpos, MAXC as int),
            quads_in_bounds(qv, MAXC as int),
            avx as int == cpos.x,
            avy as int == cpos.y,
            avz as int == cpos.z,
            forall|x: int|
                i <= x < total ==> #[trigger] r[x]@.pos == quad_stream_slot(qv[x / 6], x % 6),
            forall|x: int|
                0 <= x < total ==> #[trigger] r[x]@.color == colors_upto(
                    cs,
                    n as int,
                    n as int,
                )[x / 6],
            forall|x: int|
                0 <= x < i ==> #[trigger] r[x]@.pos == gsub(
                    quad_stream_slot(qv[x / 6], x % 6),
                    cpos,
                ),
        decreases total - i,
    {
        let old_cv = r[i];
        proof {
            vstd::arithmetic::div_mod::lemma_fundamental_div_mod(i as int, 6);
            assert(0 <= (i as int) / 6 < n) by (nonlinear_arith)
                requires
                    0 <= i as int,
                    (i as int) < 6 * (n as int),
                    i as int == 6 * ((i as int) / 6) + (i as int) % 6,
                    0 <= (i as int) % 6 < 6,
            ;
            assert(quad_in_bounds(qv[(i as int) / 6], MAXC as int));
            assert(r[i as int]@.pos == quad_stream_slot(qv[(i as int) / 6], (i as int) % 6));
            assert(in_bounds(r[i as int]@.pos, MAXC as int));
        }
        let np = Vertex {
            x: old_cv.position.x - avx,
            y: old_cv.position.y - avy,
            z: old_cv.position.z - avz,
        };
        r.set(i, ColoredVertex { position: np, color: old_cv.color });
        proof {
            assert(r[i as int]@.color == old_cv@.color);
            assert(r[i as int]@.pos == gsub(quad_stream_slot(qv[(i as int) / 6], (i as int) % 6), cpos));
        }
        i += 1;
    }
    proof {
        lemma_colors_upto_len(cs, n as int, n as int);
        assert forall|x: int| 0 <= x < total implies crate::mesh::stream_view(r@)[x]
            == #[trigger] transform_spec(qv)[x] by {
            vstd::arithmetic::div_mod::lemma_fundamental_div_mod(x, 6);
            assert(0 <= x / 6 < n) by (nonlinear_arith)
                requires
                    0 <= x,
                    x < 6 * (n as int),
                    x == 6 * (x / 6) + x % 6,
                    0 <= x % 6 < 6,
            ;
            assert(r[x]@.pos == gsub(quad_stream_slot(qv[x / 6], x % 6), cpos));
            assert(r[x]@.color == colors_upto(cs, n as int, n as int)[x / 6]);
        }
        assert(crate::mesh::stream_view(r@) =~= transform_spec(qv));
    }
    r
}


pub proof fn lemma_quads_in_bounds_mono(qs: Seq<GQuad>, b1: int, b2: int)
    requires
        quads_in_bounds(qs, b1),
        b1 <= b2,
    ensures
        quads_in_bounds(qs, b2),
{
    assert forall|i: int| 0 <= i < qs.len() implies quad_in_bounds(#[trigger] qs[i], b2) by {
        assert(quad_in_bounds(qs[i], b1));
    }
}

pub proof fn lemma_linear_spec_bounds(qs: Seq<GQuad>, levels: nat, bound: int)
    requires
        0 <= bound,
        quads_in_bounds(qs, bound),
    ensures
        quads_in_bounds(linear_spec(qs, levels), bound),
    decreases levels,
{
    if levels > 0 {
        lemma_linear_spec_bounds(qs, (levels - 1) as nat, bound);
        lemma_linear_once_bounds(linear_spec(qs, (levels - 1) as nat), bound);
    }
}

pub proof fn lemma_catmull_spec_bounds(qs: Seq<GQuad>, levels: nat, creases: bool, bound: int)
    requires
        0 <= bound,
        quads_in_bounds(qs, bound),
    ensures
        quads_in_bounds(
            catmull_spec(qs, levels, creases),
            crate::arith::pow5(levels) as int * bound,
        ),
    decreases levels,
{
    crate::arith::lemma_pow5_mono(0, levels);
    if levels == 0 {
        assert(crate::arith::pow5(0) as int * bound == bound) by (nonlinear_arith)
            requires
                crate::arith::pow5(0) == 1,
        ;
    } else {
        let lm1 = (levels - 1) as nat;
        lemma_catmull_spec_bounds(qs, lm1, creases, bound);
        crate::arith::lemma_pow5_mono(0, lm1);
        let p5m = crate::arith::pow5(lm1) as int;
        assert(p5m * bound >= 0) by (nonlinear_arith)
            requires
                p5m >= 1,
                bound >= 0,
        ;
        lemma_catmull_once_bounds(catmull_spec(qs, lm1, creases), creases, p5m * bound);
        assert(crate::arith::pow5(levels) == 5 * crate::arith::pow5(lm1));
        assert(crate::arith::pow5(levels) as int * bound == 5 * (p5m * bound)) by (nonlinear_arith)
            requires
                crate::arith::pow5(levels) as int == 5 * p5m,
        ;
    }
}

/// The full quad pipeline: `linear_levels` uniform splits, then
/// `smooth_levels` Catmull-Clark passes, then the coloring and recentering
/// transform.
pub fn get_vertices(
    quads: Vec<Quad>,
    linear_levels: u32,
    smooth_levels: u32,
    creases: bool,
) -> (r: Vec<ColoredVertex>)
    requires
        quads_in_bounds(
            quads_view(quads@),
            (MAXC as int) / (crate::arith::pow5(smooth_levels as nat) as int),
        ),
    ensures
        crate::mesh::stream_view(r@) == transform_spec(
            catmull_spec(
                linear_spec(quads_view(quads@), linear_levels as nat),
                smooth_levels as nat,
                creases,
            ),
        ),
{
    let ghost qv0 = quads_view(quads@);
    let ghost base = (MAXC as int) / (crate::arith::pow5(smooth_levels as nat) as int);
    proof {
        crate::arith::lemma_pow5_mono(0, smooth_levels as nat);
        vstd::arithmetic::div_mod::lemma_div_pos_is_pos(
            MAXC as int,
            crate::arith::pow5(smooth_levels as nat) as int,
        );
        lemma_linear_spec_bounds(qv0, linear_levels as nat, base);
    }
    let q1 = linear_subdivide(quads, linear_levels);
    let ghost qv1 = quads_view(q1@);
    let q2 = catmull_subdivide(q1, smooth_levels, creases);
    proof {
        lemma_catmull_spec_bounds(qv1, smooth_levels as nat, creases, base);
        let p5 = crate::arith::pow5(smooth_levels as nat) as int;
        vstd::arithmetic::div_mod::lemma_fundamental_div_mod(MAXC as int, p5);
        assert(p5 * base <= MAXC as int);
        lemma_quads_in_bounds_mono(quads_view(q2@), p5 * base, MAXC as int);
    }
    transform(q2)
}

/// On a boundary edge (no second face shares its endpoints), the smooth
/// subdivider's edge point degenerates to the plain midpoint of the edge,
/// with or without crease preservation: an isolated quad is refined by the
/// linear rule.
pub proof fn lemma_boundary_edge_is_midpoint(
    qs: Seq<GQuad>,
    me: int,
    ta: int,
    tb: int,
    creases: bool,
)
    requires
        0 <= me < qs.len(),
        adjacent_spec(
            qcorners(qs),
            4,
            qs.len() as int,
            corner_id(qcorners(qs), me * 4 + ta),
            corner_id(qcorners(qs), me * 4 + tb),
            me,
        ) is None,
    ensures
        edge_point_spec(qs, qcorners(qs), me, ta, tb, creases) == mid2(
            qcorner(qs[me], ta),
            qcorner(qs[me], tb),
        ),
{
}

/// A mesh of a single quad has no second face at all, so every edge of it is
/// a boundary edge and every Catmull-Clark edge point is a plain midpoint.
pub proof fn lemma_isolated_quad_edges(q: GQuad, ta: int, tb: int, creases: bool)
    requires
        0 <= ta < 4,
        0 <= tb < 4,
    ensures
        edge_point_spec(seq![q], qcorners(seq![q]), 0, ta, tb, creases) == mid2(
            qcorner(q, ta),
            qcorner(q, tb),
        ),
{
    let qs = seq![q];
    let cs = qcorners(qs);
    let a_id = corner_id(cs, ta);
    let b_id = corner_id(cs, tb);
    let fs = incident_upto(cs, 4, a_id, 1);
    lemma_incident_upto(cs, 4, a_id, 1);
    crate::weld::lemma_first_other(fs, cs, 4, b_id, 0);
    match adjacent_spec(cs, 4, 1, a_id, b_id, 0) {
        Some(f) => {
            assert(fs.contains(f));
            let k = choose|k: int| 0 <= k < fs.len() && fs[k] == f;
            assert(0 <= f < 1 && f != 0);
            assert(false);
        },
        None => {},
    }
    assert(edge_point_spec(qs, cs, 0, ta, tb, creases) == mid2(qcorner(q, ta), qcorner(q, tb)));
    assert(qs[0] == q);
}

/// Shifting every corner by `-cpos` lowers the corner sum by `4 n` times
/// `cpos`.
pub proof fn lemma_centroid_sum_shift(qs: Seq<GQuad>, cpos: GPos)
    ensures
        centroid_sum(shifted(qs, cpos)).x == centroid_sum(qs).x - 4 * qs.len() as int * cpos.x,
        centroid_sum(shifted(qs, cpos)).y == centroid_sum(qs).y - 4 * qs.len() as int * cpos.y,
        centroid_sum(shifted(qs, cpos)).z == centroid_sum(qs).z - 4 * qs.len() as int * cpos.z,
    decreases qs.len(),
{
    if qs.len() == 0 {
        assert(shifted(qs, cpos) =~= Seq::<GQuad>::empty());
    } else {
        lemma_centroid_sum_shift(qs.drop_last(), cpos);
        assert(shifted(qs, cpos).drop_last() =~= shifted(qs.drop_last(), cpos));
        assert(shifted(qs, cpos).last() == shift_quad(qs.last(), cpos));
        assert(4 * (qs.len() - 1) as int * cpos.x + 4 * cpos.x == 4 * qs.len() as int
            * cpos.x) by (nonlinear_arith);
        assert(4 * (qs.len() - 1) as int * cpos.y + 4 * cpos.y == 4 * qs.len() as int
            * cpos.y) by (nonlinear_arith);
        assert(4 * (qs.len() - 1) as int * cpos.z + 4 * cpos.z == 4 * qs.len() as int
            * cpos.z) by (nonlinear_arith);
    }
}

/// Recentering zeroes the mean: the transform's output positions are the
/// shifted corners, and their centroid, computed by the same per-quad
/// formula (sum of the four raw corners of every emitted quad over `4 n`,
/// rounding toward negative infinity), is exactly the origin.
pub proof fn lemma_transform_recenters(qs: Seq<GQuad>)
    requires
        qs.len() >= 1,
    ensures
        ({
            let n = qs.len() as int;
            let cpos = gdiv(centroid_sum(qs), 4 * n);
            &&& gdiv(centroid_sum(shifted(qs, cpos)), 4 * n) == gzero()
            &&& forall|i: int|
                0 <= i < 6 * n ==> #[trigger] transform_spec(qs)[i].pos == quad_stream_slot(
                    shifted(qs, cpos)[i / 6],
                    i % 6,
                )
        }),
{
    let n = qs.len() as int;
    let s = centroid_sum(qs);
    let cpos = gdiv(s, 4 * n);
    lemma_centroid_sum_shift(qs, cpos);
    vstd::arithmetic::div_mod::lemma_fundamental_div_mod(s.x, 4 * n);
    vstd::arithmetic::div_mod::lemma_fundamental_div_mod(s.y, 4 * n);
    vstd::arithmetic::div_mod::lemma_fundamental_div_mod(s.z, 4 * n);
    let sh = centroid_sum(shifted(qs, cpos));
    assert(sh.x == s.x % (4 * n) && sh.y == s.y % (4 * n) && sh.z == s.z % (4 * n)) by {
        assert(4 * n * cpos.x == (4 * n) * ((s.x) / (4 * n)));
    }
    vstd::arithmetic::div_mod::lemma_basic_div(sh.x, 4 * n);
    vstd::arithmetic::div_mod::lemma_basic_div(sh.y, 4 * n);
    vstd::arithmetic::div_mod::lemma_basic_div(sh.z, 4 * n);
    assert forall|i: int|
        0 <= i < 6 * n implies #[trigger] transform_spec(qs)[i].pos == quad_stream_slot(
        shifted(qs, cpos)[i / 6],
        i % 6,
    ) by {
        vstd::arithmetic::div_mod::lemma_fundamental_div_mod(i, 6);
        assert(0 <= i / 6 < n) by (nonlinear_arith)
            requires
                0 <= i,
                i < 6 * n,
                i == 6 * (i / 6) + i % 6,
                0 <= i % 6 < 6,
        ;
    }
}


/// Colors agree on a prefix: coloring more faces never changes the colors
/// already assigned.
pub proof fn lemma_colors_prefix(cs: Seq<GPos>, nfaces: int, i: int, j: int)
    requires
        0 <= i <= j,
    ensures
        forall|k: int| 0 <= k < i ==> colors_upto(cs, nfaces, j)[k] == #[trigger] colors_upto(
            cs,
            nfaces,
            i,
        )[k],
    decreases j,
{
    if i < j {
        lemma_colors_prefix(cs, nfaces, i, j - 1);
        lemma_colors_upto_len(cs, nfaces, j - 1);
    }
}

/// Coloring validity: in a mesh that is two-manifold at a shared edge (no
/// third face touches both of its endpoints), the two faces sharing that
/// edge are assigned different palette indexes. The transform emits exactly
/// these indexes with each face's vertices.
#[verifier::rlimit(100)]
#[verifier::spinoff_prover]
pub proof fn lemma_coloring_valid(qs: Seq<GQuad>, f: int, g: int, ef: int, eg: int)
    requires
        0 <= f < qs.len(),
        0 <= g < qs.len(),
        f != g,
        0 <= ef < 4,
        0 <= eg < 4,
        ({
            let cs = qcorners(qs);
            let fa = corner_id(cs, f * 4 + qedge_slots(ef).0);
            let fb = corner_id(cs, f * 4 + qedge_slots(ef).1);
            let ga = corner_id(cs, g * 4 + qedge_slots(eg).0);
            let gb = corner_id(cs, g * 4 + qedge_slots(eg).1);
            (fa == ga && fb == gb) || (fa == gb && fb == ga)
        }),
        ({
            let cs = qcorners(qs);
            let fa = corner_id(cs, f * 4 + qedge_slots(ef).0);
            let fb = corner_id(cs, f * 4 + qedge_slots(ef).1);
            &&& (forall|h: int|
                0 <= h < qs.len() && h != f && face_has(cs, 4, h, fa) && face_has(cs, 4, h, fb)
                    ==> h == g)
            &&& (forall|h: int|
                0 <= h < qs.len() && h != g && face_has(cs, 4, h, fa) && face_has(cs, 4, h, fb)
                    ==> h == f)
        }),
    ensures
        colors_upto(qcorners(qs), qs.len() as int, qs.len() as int)[f] != colors_upto(
            qcorners(qs),
            qs.len() as int,
            qs.len() as int,
        )[g],
{
    let cs = qcorners(qs);
    let n = qs.len() as int;
    let fa = corner_id(cs, f * 4 + qedge_slots(ef).0);
    let fb = corner_id(cs, f * 4 + qedge_slots(ef).1);
    let lo = if f < g {
        f
    } else {
        g
    };
    let hi = if f < g {
        g
    } else {
        f
    };
    let ehi = if f < g {
        eg
    } else {
        ef
    };
    let elo = if f < g {
        ef
    } else {
        eg
    };
    let prev = colors_upto(cs, n, hi);
    lemma_colors_upto_len(cs, n, hi);
    let a_id = corner_id(cs, hi * 4 + qedge_slots(ehi).0);
    let b_id = corner_id(cs, hi * 4 + qedge_slots(ehi).1);
    // both faces touch both endpoints of the shared edge
    assert(face_has(cs, 4, hi, a_id)) by {
        assert(corner_id(cs, hi * 4 + qedge_slots(ehi).0) == a_id);
    }
    assert(face_has(cs, 4, hi, b_id)) by {
        assert(corner_id(cs, hi * 4 + qedge_slots(ehi).1) == b_id);
    }
    assert(face_has(cs, 4, lo, a_id) && face_has(cs, 4, lo, b_id)) by {
        assert(corner_id(cs, lo * 4 + qedge_slots(elo).0) == corner_id(
            cs,
            lo * 4 + qedge_slots(elo).0,
        ));
        assert(corner_id(cs, lo * 4 + qedge_slots(elo).1) == corner_id(
            cs,
            lo * 4 + qedge_slots(elo).1,
        ));
    }
    // the adjacency lookup at hi's shared edge finds exactly lo
    let fs = incident_upto(cs, 4, a_id, n);
    lemma_incident_upto(cs, 4, a_id, n);
    crate::weld::lemma_first_other(fs, cs, 4, b_id, hi);
    match adjacent_spec(cs, 4, n, a_id, b_id, hi) {
        None => {
            assert(fs.contains(lo));
            let k = choose|k: int| 0 <= k < fs.len() && fs[k] == lo;
            assert(!(fs[k] != hi && face_has(cs, 4, fs[k], b_id)));
            assert(false);
        },
        Some(j) => {
            assert(fs.contains(j));
            let k = choose|k: int| 0 <= k < fs.len() && fs[k] == j;
            assert(0 <= j < n && face_has(cs, 4, j, a_id));
            assert(j == lo);
            // so hi's pick saw lo's color as taken
            assert(qadj(cs, n, hi, ehi) == Some(lo));
            assert(edge_taken(cs, n, hi, ehi, prev, prev[lo]));
            assert(color_taken(cs, n, hi, prev, prev[lo]));
            lemma_pick_color_free(cs, n, hi, prev);
            assert(pick_color(cs, n, hi, prev) != prev[lo]);
            lemma_colors_upto_len(cs, n, n);
            lemma_colors_prefix(cs, n, hi + 1, n);
            lemma_colors_prefix(cs, n, hi, n);
            assert(colors_upto(cs, n, hi + 1)[hi] == pick_color(cs, n, hi, prev));
            assert(colors_upto(cs, n, n)[hi] == colors_upto(cs, n, hi + 1)[hi]) by {
                lemma_colors_upto_len(cs, n, hi + 1);
            }
            assert(colors_upto(cs, n, n)[lo] == prev[lo]);
        },
    }
}

} // verus!
