//! The mesh model: fixed-point vertices, approximate vertex identity, and
//! the specification-level geometry the subdividers are stated over.

use vstd::prelude::*;
use crate::arith::{EPS, MAXC, SCALE, div_trunc, tdiv};

verus! {

/// A position at the specification level: one unbounded integer per axis.
pub ghost struct GPos {
    pub x: int,
    pub y: int,
    pub z: int,
}

/// A mesh vertex: a 3D position in fixed-point units.
#[derive(Clone, Copy, Debug)]
pub struct Vertex {
    pub x: i64,
    pub y: i64,
    pub z: i64,
}

impl View for Vertex {
    type V = GPos;

    open spec fn view(&self) -> GPos {
        GPos { x: self.x as int, y: self.y as int, z: self.z as int }
    }
}

/// Componentwise sum.
pub open spec fn gadd(p: GPos, q: GPos) -> GPos {
    GPos { x: p.x + q.x, y: p.y + q.y, z: p.z + q.z }
}

/// Componentwise difference.
pub open spec fn gsub(p: GPos, q: GPos) -> GPos {
    GPos { x: p.x - q.x, y: p.y - q.y, z: p.z - q.z }
}

/// Componentwise scaling.
pub open spec fn gscale(k: int, p: GPos) -> GPos {
    GPos { x: k * p.x, y: k * p.y, z: k * p.z }
}

/// Componentwise floor quotient by a positive divisor.
pub open spec fn gdiv(p: GPos, d: int) -> GPos {
    GPos { x: p.x / d, y: p.y / d, z: p.z / d }
}

pub open spec fn gzero() -> GPos {
    GPos { x: 0, y: 0, z: 0 }
}

/// Midpoint, each coordinate rounded toward negative infinity.
pub open spec fn mid2(p: GPos, q: GPos) -> GPos {
    gdiv(gadd(p, q), 2)
}

/// Dot product.
pub open spec fn dot(p: GPos, q: GPos) -> int {
    p.x * q.x + p.y * q.y + p.z * q.z
}

/// Cross product.
pub open spec fn cross(p: GPos, q: GPos) -> GPos {
    GPos {
        x: p.y * q.z - p.z * q.y,
        y: p.z * q.x - p.x * q.z,
        z: p.x * q.y - p.y * q.x,
    }
}

/// Squared length.
pub open spec fn norm2(p: GPos) -> int {
    dot(p, p)
}

/// Two positions are the same mesh vertex when every coordinate differs by
/// less than `EPS` units (one ten-thousandth of a model unit).
pub open spec fn approx_eq(p: GPos, q: GPos) -> bool {
    &&& -(EPS as int) < p.x - q.x < EPS as int
    &&& -(EPS as int) < p.y - q.y < EPS as int
    &&& -(EPS as int) < p.z - q.z < EPS as int
}

/// The bucketing key of a position: each coordinate truncated to whole model
/// units. The key is coarser than `approx_eq`, and two positions within
/// `EPS` of each other may straddle a unit boundary and get distinct keys;
/// welding asks for both, reproducing that quantize-then-epsilon behavior.
pub open spec fn pos_key(p: GPos) -> GPos {
    GPos { x: tdiv(p.x, SCALE as int), y: tdiv(p.y, SCALE as int), z: tdiv(p.z, SCALE as int) }
}

/// Welding identity: same key and approximately equal.
pub open spec fn welds_with(p: GPos, q: GPos) -> bool {
    pos_key(p) == pos_key(q) && approx_eq(p, q)
}

/// Every coordinate within `b` units of zero.
pub open spec fn in_bounds(p: GPos, b: int) -> bool {
    &&& -b <= p.x <= b
    &&& -b <= p.y <= b
    &&& -b <= p.z <= b
}

/// The crease predicate on two (unnormalized) face normals: true exactly
/// when the cosine of the angle between them is below 3/5, the sharp-edge
/// threshold. Stated without square roots by sign analysis and squaring; a
/// degenerate (zero) normal never makes a crease.
pub open spec fn crease_test(n1: GPos, n2: GPos) -> bool {
    let d = dot(n1, n2);
    d < 0 || 25 * d * d < 9 * norm2(n1) * norm2(n2)
}

/// A quotient of a value between `-d * b` and `d * b` lies between `-b` and
/// `b`.
pub proof fn lemma_div_bound(s: int, d: int, b: int)
    requires
        d >= 1,
        b >= 0,
        -(d * b) <= s <= d * b,
    ensures
        -b <= s / d <= b,
{
    vstd::arithmetic::div_mod::lemma_div_is_ordered(-(d * b), s, d);
    vstd::arithmetic::div_mod::lemma_div_is_ordered(s, d * b, d);
    vstd::arithmetic::div_mod::lemma_div_multiples_vanish(b, d);
    vstd::arithmetic::div_mod::lemma_div_multiples_vanish(-b, d);
    assert(d * -b == -(d * b)) by (nonlinear_arith);
}

/// Same mesh vertex: every coordinate within `EPS` units.
pub fn vertex_equals(a: &Vertex, b: &Vertex) -> (r: bool)
    ensures
        r == approx_eq(a@, b@),
{
    let dx: i128 = a.x as i128 - b.x as i128;
    let dy: i128 = a.y as i128 - b.y as i128;
    let dz: i128 = a.z as i128 - b.z as i128;
    let e: i128 = EPS as i128;
    -e < dx && dx < e && -e < dy && dy < e && -e < dz && dz < e
}

/// The bucketing key of a vertex: each coordinate truncated to whole model
/// units.
pub fn vertex_key(a: &Vertex) -> (r: (i64, i64, i64))
    requires
        in_bounds(a@, MAXC as int),
    ensures
        (GPos { x: r.0 as int, y: r.1 as int, z: r.2 as int }) == pos_key(a@),
{
    (div_trunc(a.x, SCALE), div_trunc(a.y, SCALE), div_trunc(a.z, SCALE))
}

/// Welding identity: same key and approximately equal.
pub fn vertex_welds(a: &Vertex, b: &Vertex) -> (r: bool)
    requires
        in_bounds(a@, MAXC as int),
        in_bounds(b@, MAXC as int),
    ensures
        r == welds_with(a@, b@),
{
    let ka = vertex_key(a);
    let kb = vertex_key(b);
    vertex_equals(a, b) && ka.0 == kb.0 && ka.1 == kb.1 && ka.2 == kb.2
}

/// Midpoint of two vertices, each coordinate rounded toward negative
/// infinity. The result lies between its inputs, so it needs no bound of its
/// own.
pub fn midpoint(a: &Vertex, b: &Vertex) -> (r: Vertex)
    ensures
        r@ == mid2(a@, b@),
{
    Vertex {
        x: mid_coord(a.x, b.x),
        y: mid_coord(a.y, b.y),
        z: mid_coord(a.z, b.z),
    }
}

fn mid_coord(a: i64, b: i64) -> (r: i64)
    ensures
        r == (a + b) / 2,
{
    let s: i128 = a as i128 + b as i128;
    proof {
        vstd::arithmetic::div_mod::lemma_div_is_ordered(s as int, 2 * (i64::MAX as int), 2);
        vstd::arithmetic::div_mod::lemma_div_is_ordered(2 * (i64::MIN as int), s as int, 2);
        vstd::arithmetic::div_mod::lemma_div_multiples_vanish(i64::MAX as int, 2);
        vstd::arithmetic::div_mod::lemma_div_multiples_vanish(i64::MIN as int, 2);
    }
    let q: i128 = crate::arith::div_floor(s, 2);
    q as i64
}

impl PartialEq for Vertex {
    fn eq(&self, other: &Vertex) -> (r: bool) {
        vertex_equals(self, other)
    }
}

impl Eq for Vertex {}

impl vstd::std_specs::cmp::PartialEqSpecImpl for Vertex {
    open spec fn obeys_eq_spec() -> bool {
        true
    }

    open spec fn eq_spec(&self, other: &Vertex) -> bool {
        approx_eq(self@, other@)
    }
}

/// The position a triple of machine integers stands for.
pub open spec fn npos(t: (i128, i128, i128)) -> GPos {
    GPos { x: t.0 as int, y: t.1 as int, z: t.2 as int }
}

/// Every component of the triple within `b` of zero.
pub open spec fn triple_in_bounds(t: (i128, i128, i128), b: int) -> bool {
    &&& -b <= t.0 <= b
    &&& -b <= t.1 <= b
    &&& -b <= t.2 <= b
}

/// A product of values bounded by `m` and `n` is bounded by `m * n`.
pub proof fn lemma_abs_mul_bound(x: int, y: int, m: int, n: int)
    requires
        -m <= x <= m,
        -n <= y <= n,
        0 <= m,
        0 <= n,
    ensures
        -(m * n) <= x * y <= m * n,
{
    assert(-(m * n) <= x * y <= m * n) by (nonlinear_arith)
        requires
            -m <= x <= m,
            -n <= y <= n,
            0 <= m,
            0 <= n,
    ;
}

/// The cross product of the two differences `p1 - p2` and `q1 - q2`: the
/// unnormalized direction a face normal points in. Normalizing the
/// differences first, as a floating-point implementation would, only scales
/// the result by a positive factor, which the crease predicate ignores.
pub fn cross_of_diffs(p1: &Vertex, p2: &Vertex, q1: &Vertex, q2: &Vertex) -> (r: (i128, i128, i128))
    requires
        in_bounds(p1@, MAXC as int),
        in_bounds(p2@, MAXC as int),
        in_bounds(q1@, MAXC as int),
        in_bounds(q2@, MAXC as int),
    ensures
        npos(r) == cross(gsub(p1@, p2@), gsub(q1@, q2@)),
        triple_in_bounds(r, crate::arith::NORMAL_BOUND as int),
{
    let ux: i128 = p1.x as i128 - p2.x as i128;
    let uy: i128 = p1.y as i128 - p2.y as i128;
    let uz: i128 = p1.z as i128 - p2.z as i128;
    let vx: i128 = q1.x as i128 - q2.x as i128;
    let vy: i128 = q1.y as i128 - q2.y as i128;
    let vz: i128 = q1.z as i128 - q2.z as i128;
    proof {
        let m = 2 * (MAXC as int);
        lemma_abs_mul_bound(uy as int, vz as int, m, m);
        lemma_abs_mul_bound(uz as int, vy as int, m, m);
        lemma_abs_mul_bound(uz as int, vx as int, m, m);
        lemma_abs_mul_bound(ux as int, vz as int, m, m);
        lemma_abs_mul_bound(ux as int, vy as int, m, m);
        lemma_abs_mul_bound(uy as int, vx as int, m, m);
    }
    (uy * vz - uz * vy, uz * vx - ux * vz, ux * vy - uy * vx)
}

/// Whether two unnormalized face normals make a crease: the cosine of their
/// angle is below the 3/5 sharpness threshold. Decided exactly, by sign
/// analysis and a widened comparison of the squared products.
pub fn edge_is_crease(n1: (i128, i128, i128), n2: (i128, i128, i128)) -> (r: bool)
    requires
        triple_in_bounds(n1, crate::arith::NORMAL_BOUND as int),
        triple_in_bounds(n2, crate::arith::NORMAL_BOUND as int),
    ensures
        r == crease_test(npos(n1), npos(n2)),
{
    proof {
        let nb = crate::arith::NORMAL_BOUND as int;
        lemma_abs_mul_bound(n1.0 as int, n2.0 as int, nb, nb);
        lemma_abs_mul_bound(n1.1 as int, n2.1 as int, nb, nb);
        lemma_abs_mul_bound(n1.2 as int, n2.2 as int, nb, nb);
        lemma_abs_mul_bound(n1.0 as int, n1.0 as int, nb, nb);
        lemma_abs_mul_bound(n1.1 as int, n1.1 as int, nb, nb);
        lemma_abs_mul_bound(n1.2 as int, n1.2 as int, nb, nb);
        lemma_abs_mul_bound(n2.0 as int, n2.0 as int, nb, nb);
        lemma_abs_mul_bound(n2.1 as int, n2.1 as int, nb, nb);
        lemma_abs_mul_bound(n2.2 as int, n2.2 as int, nb, nb);
        lemma_square_nonneg(n1.0 as int);
        lemma_square_nonneg(n1.1 as int);
        lemma_square_nonneg(n1.2 as int);
        lemma_square_nonneg(n2.0 as int);
        lemma_square_nonneg(n2.1 as int);
        lemma_square_nonneg(n2.2 as int);
    }
    let d: i128 = n1.0 * n2.0 + n1.1 * n2.1 + n1.2 * n2.2;
    if d < 0 {
        true
    } else {
        let a2: i128 = n1.0 * n1.0 + n1.1 * n1.1 + n1.2 * n1.2;
        let b2: i128 = n2.0 * n2.0 + n2.1 * n2.1 + n2.2 * n2.2;
        let lhs: u128 = (5 * d) as u128;
        let rhs: u128 = (9 * a2) as u128;
        let r = crate::arith::wide_lt(lhs, lhs, rhs, b2 as u128);
        proof {
            let di = dot(npos(n1), npos(n2));
            let ai = norm2(npos(n1));
            let bi = norm2(npos(n2));
            assert((5 * di) * (5 * di) == 25 * di * di) by (nonlinear_arith);
            assert((9 * ai) * bi == 9 * ai * bi) by (nonlinear_arith);
        }
        r
    }
}

proof fn lemma_square_nonneg(x: int)
    ensures
        x * x >= 0,
{
    assert(x * x >= 0) by (nonlinear_arith);
}

/// A colored stream entry at the specification level.
pub ghost struct GColored {
    pub pos: GPos,
    pub color: int,
}

/// One entry of the final vertex stream: a position and the palette index of
/// its face.
#[derive(Clone, Copy, Debug)]
pub struct ColoredVertex {
    pub position: Vertex,
    pub color: usize,
}

impl View for ColoredVertex {
    type V = GColored;

    open spec fn view(&self) -> GColored {
        GColored { pos: self.position@, color: self.color as int }
    }
}

/// The entries a colored vertex sequence stands for.
pub open spec fn stream_view(s: Seq<ColoredVertex>) -> Seq<GColored> {
    Seq::new(s.len(), |i: int| s[i]@)
}

} // verus!
