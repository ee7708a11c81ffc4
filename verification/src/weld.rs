//! Vertex welding and the incidence map.
//!
//! Every corner of every face is assigned a stable integer id: corners are
//! visited in face order, and a corner joins the first earlier representative
//! it welds with (same truncation key and approximately equal), else becomes
//! a new representative. The incidence map then lists, for each id, the faces
//! it touches, in face order and without repetition.
//!
//! The face list is handed in flattened: a corner sequence whose length is a
//! multiple of the face arity, corner `f * arity + t` being corner `t` of
//! face `f`.

use vstd::prelude::*;
use crate::arith::MAXC;
use crate::mesh::{GPos, Vertex, in_bounds, vertex_welds, welds_with};

verus! {

/// Index of the first representative that `p` welds with, `-1` when none.
pub open spec fn match_at(reps: Seq<GPos>, p: GPos) -> int
    decreases reps.len(),
{
    if reps.len() == 0 {
        -1
    } else if welds_with(reps[0], p) {
        0
    } else {
        let r = match_at(reps.skip(1), p);
        if r < 0 {
            -1
        } else {
            r + 1
        }
    }
}

/// `match_at` finds exactly the first welding representative.
pub proof fn lemma_match_at(reps: Seq<GPos>, p: GPos)
    ensures
        match_at(reps, p) < 0 ==> forall|k: int|
            0 <= k < reps.len() ==> !welds_with(reps[k], p),
        match_at(reps, p) >= 0 ==> {
            &&& match_at(reps, p) < reps.len()
            &&& welds_with(reps[match_at(reps, p)], p)
            &&& forall|k: int| 0 <= k < match_at(reps, p) ==> !welds_with(reps[k], p)
        },
    decreases reps.len(),
{
    if reps.len() == 0 {
    } else if welds_with(reps[0], p) {
    } else {
        lemma_match_at(reps.skip(1), p);
        assert(forall|k: int|
            0 <= k < reps.skip(1).len() ==> reps.skip(1)[k] == reps[k + 1]);
        let m = match_at(reps, p);
        if m >= 0 {
            assert(welds_with(reps[m], p)) by {
                assert(reps[m] == reps.skip(1)[m - 1]);
            }
            assert forall|k: int| 0 <= k < m implies !welds_with(reps[k], p) by {
                if k > 0 {
                    assert(reps[k] == reps.skip(1)[k - 1]);
                    assert(!welds_with(reps.skip(1)[k - 1], p));
                }
            }
        } else {
            assert forall|k: int| 0 <= k < reps.len() implies !welds_with(reps[k], p) by {
                if k > 0 {
                    assert(reps[k] == reps.skip(1)[k - 1]);
                    assert(!welds_with(reps.skip(1)[k - 1], p));
                }
            }
        }
    }
}

/// The representatives after welding the whole corner sequence, in first
/// appearance order.
pub open spec fn weld_reps(cs: Seq<GPos>) -> Seq<GPos>
    decreases cs.len(),
{
    if cs.len() == 0 {
        Seq::empty()
    } else {
        let rs = weld_reps(cs.drop_last());
        if match_at(rs, cs.last()) >= 0 {
            rs
        } else {
            rs.push(cs.last())
        }
    }
}

/// The id corner `j` welds to: its match among the representatives of the
/// corners before it, or the next fresh id.
pub open spec fn corner_id(cs: Seq<GPos>, j: int) -> int {
    let rs = weld_reps(cs.take(j));
    let m = match_at(rs, cs[j]);
    if m >= 0 {
        m
    } else {
        rs.len() as int
    }
}

/// Welding ids are indexes into the ever-growing representative list.
pub proof fn lemma_weld_grows(cs: Seq<GPos>, i: int, j: int)
    requires
        0 <= i <= j <= cs.len(),
    ensures
        weld_reps(cs.take(i)).len() <= weld_reps(cs.take(j)).len(),
        weld_reps(cs.take(j)).take(weld_reps(cs.take(i)).len() as int) == weld_reps(cs.take(i)),
    decreases j - i,
{
    if i < j {
        lemma_weld_grows(cs, i, j - 1);
        assert(cs.take(j).drop_last() =~= cs.take(j - 1));
        let prev = weld_reps(cs.take(j - 1));
        let cur = weld_reps(cs.take(j));
        if match_at(prev, cs.take(j).last()) >= 0 {
            assert(cur == prev);
        } else {
            assert(cur == prev.push(cs.take(j).last()));
            assert(cur.take(prev.len() as int) =~= prev);
        }
        let ni = weld_reps(cs.take(i)).len() as int;
        assert(cur.take(ni) =~= prev.take(ni));
    } else {
        assert(cs.take(i) == cs.take(j));
    }
}

/// Every representative is one of the corners, so a bound on the corners
/// bounds the representatives.
pub proof fn lemma_weld_reps_bounds(cs: Seq<GPos>, b: int)
    requires
        forall|j: int| 0 <= j < cs.len() ==> in_bounds(#[trigger] cs[j], b),
    ensures
        forall|k: int|
            0 <= k < weld_reps(cs).len() ==> in_bounds(#[trigger] weld_reps(cs)[k], b),
    decreases cs.len(),
{
    if cs.len() > 0 {
        assert(forall|j: int|
            0 <= j < cs.drop_last().len() ==> #[trigger] cs.drop_last()[j] == cs[j]);
        lemma_weld_reps_bounds(cs.drop_last(), b);
        let prev = weld_reps(cs.drop_last());
        if match_at(prev, cs.last()) >= 0 {
        } else {
            assert(forall|k: int|
                0 <= k < prev.len() ==> #[trigger] prev.push(cs.last())[k] == prev[k]);
            assert(prev.push(cs.last()).last() == cs.last());
        }
    }
}

/// The welded mesh: representative vertices, one id per corner, and for each
/// id the faces it touches.
pub struct VertexMap {
    pub reps: Vec<Vertex>,
    pub ids: Vec<usize>,
    pub incident: Vec<Vec<usize>>,
}

/// Face `f` touches welded vertex `vid`.
pub open spec fn face_has(cs: Seq<GPos>, arity: int, f: int, vid: int) -> bool {
    exists|t: int| 0 <= t < arity && #[trigger] corner_id(cs, f * arity + t) == vid
}

/// The faces among `0 .. n` touching `vid`, in face order.
pub open spec fn incident_upto(cs: Seq<GPos>, arity: int, vid: int, n: int) -> Seq<int>
    decreases n,
{
    if n <= 0 {
        Seq::empty()
    } else if face_has(cs, arity, n - 1, vid) {
        incident_upto(cs, arity, vid, n - 1).push(n - 1)
    } else {
        incident_upto(cs, arity, vid, n - 1)
    }
}

/// The incidence list of `vid` holds exactly the faces touching it, in
/// increasing order.
pub proof fn lemma_incident_upto(cs: Seq<GPos>, arity: int, vid: int, n: int)
    ensures
        forall|k: int| 0 <= k < incident_upto(cs, arity, vid, n).len() ==> {
            &&& 0 <= #[trigger] incident_upto(cs, arity, vid, n)[k] < n
            &&& face_has(cs, arity, incident_upto(cs, arity, vid, n)[k], vid)
        },
        forall|k1: int, k2: int|
            0 <= k1 < k2 < incident_upto(cs, arity, vid, n).len() ==> incident_upto(
                cs,
                arity,
                vid,
                n,
            )[k1] < incident_upto(cs, arity, vid, n)[k2],
        forall|f: int|
            0 <= f < n && face_has(cs, arity, f, vid) ==> incident_upto(
                cs,
                arity,
                vid,
                n,
            ).contains(f),
    decreases n,
{
    if n > 0 {
        lemma_incident_upto(cs, arity, vid, n - 1);
        let prev = incident_upto(cs, arity, vid, n - 1);
        let cur = incident_upto(cs, arity, vid, n);
        assert(forall|f: int| prev.contains(f) ==> 0 <= f < n - 1);
        if face_has(cs, arity, n - 1, vid) {
            assert(cur.last() == n - 1);
            assert(cur.contains(n - 1)) by {
                assert(cur[cur.len() - 1] == n - 1);
            }
            assert(forall|f: int|
                0 <= f < n - 1 && face_has(cs, arity, f, vid) ==> #[trigger] cur.contains(f))
                by {
                assert(forall|f: int| #[trigger] prev.contains(f) ==> cur.contains(f)) by {
                    assert(forall|k: int|
                        0 <= k < prev.len() ==> cur[k] == #[trigger] prev[k]);
                }
            }
        } else {
            assert(cur == prev);
        }
    }
}

/// The welded structure of the flattened corner sequence `cs` with the given
/// face arity: ids name representatives, and the incidence lists are exact.
impl VertexMap {
    pub open spec fn wf(self, cs: Seq<GPos>, arity: int) -> bool {
        let n = cs.len() as int / arity;
        &&& arity >= 1
        &&& cs.len() == n * arity
        &&& self.ids.len() == cs.len()
        &&& self.reps.len() == weld_reps(cs).len()
        &&& (forall|k: int|
            0 <= k < self.reps.len() ==> self.reps[k]@ == #[trigger] weld_reps(cs)[k])
        &&& (forall|k: int|
            0 <= k < self.reps.len() ==> in_bounds(#[trigger] self.reps[k]@, MAXC as int))
        &&& (forall|j: int|
            0 <= j < cs.len() ==> self.ids[j] as int == #[trigger] corner_id(cs, j))
        &&& (forall|j: int| 0 <= j < cs.len() ==> #[trigger] self.ids[j] < self.reps.len())
        &&& self.incident.len() == self.reps.len()
        &&& (forall|v: int, k: int|
            0 <= v < self.incident.len() && 0 <= k < self.incident[v].len()
                ==> #[trigger] self.incident[v][k] as int == incident_upto(cs, arity, v, n)[k])
        &&& (forall|v: int|
            0 <= v < self.incident.len() ==> #[trigger] self.incident[v].len()
                == incident_upto(cs, arity, v, n).len())
    }
}

/// First representative `v` welds with, as `match_at` names it.
fn find_weld_match(reps: &Vec<Vertex>, v: &Vertex, rvs: Ghost<Seq<GPos>>) -> (r: Option<usize>)
    requires
        reps.len() == rvs@.len(),
        forall|k: int| 0 <= k < reps.len() ==> reps[k]@ == #[trigger] rvs@[k],
        forall|k: int| 0 <= k < reps.len() ==> in_bounds(#[trigger] reps[k]@, MAXC as int),
        in_bounds(v@, MAXC as int),
    ensures
        match r {
            Some(m) => match_at(rvs@, v@) == m as int,
            None => match_at(rvs@, v@) < 0,
        },
{
    proof {
        lemma_match_at(rvs@, v@);
    }
    let mut k: usize = 0;
    while k < reps.len()
        invariant
            k <= reps.len(),
            reps.len() == rvs@.len(),
            forall|i: int| 0 <= i < reps.len() ==> reps[i]@ == #[trigger] rvs@[i],
            forall|i: int| 0 <= i < reps.len() ==> in_bounds(#[trigger] reps[i]@, MAXC as int),
            in_bounds(v@, MAXC as int),
            forall|i: int| 0 <= i < k ==> !welds_with(rvs@[i], v@),
        decreases reps.len() - k,
    {
        if vertex_welds(&reps[k], v) {
            proof {
                lemma_match_at(rvs@, v@);
                let m = match_at(rvs@, v@);
                assert(welds_with(rvs@[k as int], v@));
                if m < 0 {
                    assert(!welds_with(rvs@[k as int], v@));
                    assert(false);
                } else if m < k as int {
                    assert(welds_with(rvs@[m], v@));
                    assert(!welds_with(rvs@[m], v@));
                    assert(false);
                } else if m > k as int {
                    assert(!welds_with(rvs@[k as int], v@));
                    assert(false);
                }
            }
            return Some(k);
        }
        k += 1;
    }
    proof {
        lemma_match_at(rvs@, v@);
        if match_at(rvs@, v@) >= 0 {
            assert(!welds_with(rvs@[match_at(rvs@, v@)], v@));
            assert(false);
        }
    }
    None
}

/// The positions a vertex sequence stands for.
pub open spec fn pos_seq(s: Seq<Vertex>) -> Seq<GPos> {
    Seq::new(s.len(), |i: int| s[i]@)
}

/// First slot of face `f` welded to `vid`, searching from slot `t` on; `-1`
/// when none.
pub open spec fn pos_in_face_from(cs: Seq<GPos>, arity: int, f: int, vid: int, t: int) -> int
    decreases arity - t,
{
    if t < 0 || t >= arity {
        -1
    } else if corner_id(cs, f * arity + t) == vid {
        t
    } else {
        pos_in_face_from(cs, arity, f, vid, t + 1)
    }
}

/// First slot of face `f` welded to `vid`, `-1` when the face does not touch
/// it.
pub open spec fn pos_in_face(cs: Seq<GPos>, arity: int, f: int, vid: int) -> int {
    pos_in_face_from(cs, arity, f, vid, 0)
}

pub proof fn lemma_pos_in_face_from(cs: Seq<GPos>, arity: int, f: int, vid: int, t: int)
    requires
        0 <= t <= arity,
    ensures
        pos_in_face_from(cs, arity, f, vid, t) >= 0 ==> {
            &&& t <= pos_in_face_from(cs, arity, f, vid, t) < arity
            &&& corner_id(cs, f * arity + pos_in_face_from(cs, arity, f, vid, t)) == vid
        },
        pos_in_face_from(cs, arity, f, vid, t) < 0 ==> forall|x: int|
            t <= x < arity ==> #[trigger] corner_id(cs, f * arity + x) != vid,
    decreases arity - t,
{
    if t < arity {
        lemma_pos_in_face_from(cs, arity, f, vid, t + 1);
    }
}

/// A face touches a welded vertex exactly when some slot of it locates the
/// vertex.
pub proof fn lemma_pos_in_face(cs: Seq<GPos>, arity: int, f: int, vid: int)
    requires
        arity >= 1,
    ensures
        (pos_in_face(cs, arity, f, vid) >= 0) == face_has(cs, arity, f, vid),
        pos_in_face(cs, arity, f, vid) >= 0 ==> {
            &&& 0 <= pos_in_face(cs, arity, f, vid) < arity
            &&& corner_id(cs, f * arity + pos_in_face(cs, arity, f, vid)) == vid
        },
{
    lemma_pos_in_face_from(cs, arity, f, vid, 0);
}

/// First slot of face `f` welded to `vid`, or `None` when the face does not
/// touch it.
pub fn find_in_face(
    map: &VertexMap,
    f: usize,
    vid: usize,
    cs: Ghost<Seq<GPos>>,
    arity: usize,
) -> (r: Option<usize>)
    requires
        map.wf(cs@, arity as int),
        (f as int) * (arity as int) + (arity as int) <= cs@.len(),
        0 <= f,
    ensures
        match r {
            Some(t) => pos_in_face(cs@, arity as int, f as int, vid as int) == t as int,
            None => pos_in_face(cs@, arity as int, f as int, vid as int) < 0,
        },
        (matches!(r, Some(_))) == face_has(cs@, arity as int, f as int, vid as int),
{
    proof {
        lemma_pos_in_face(cs@, arity as int, f as int, vid as int);
    }
    let mut t: usize = 0;
    while t < arity
        invariant
            t <= arity,
            map.wf(cs@, arity as int),
            (f as int) * (arity as int) + (arity as int) <= cs@.len(),
            pos_in_face(cs@, arity as int, f as int, vid as int) == pos_in_face_from(
                cs@,
                arity as int,
                f as int,
                vid as int,
                t as int,
            ),
        decreases arity - t,
    {
        proof {
            assert((f as int) * (arity as int) + (t as int) < cs@.len());
        }
        if map.ids[f * arity + t] == vid {
            return Some(t);
        }
        t += 1;
    }
    None
}

/// First face in `fs` other than `me` touching `b_id`.
pub open spec fn first_other(
    fs: Seq<int>,
    cs: Seq<GPos>,
    arity: int,
    b_id: int,
    me: int,
) -> Option<int>
    decreases fs.len(),
{
    if fs.len() == 0 {
        None
    } else if fs[0] != me && face_has(cs, arity, fs[0], b_id) {
        Some(fs[0])
    } else {
        first_other(fs.skip(1), cs, arity, b_id, me)
    }
}

/// The face adjacent across the edge `(a_id, b_id)` of face `me`: the first
/// face, in face order, other than `me` that touches both endpoints. `a_id`'s
/// own incidence list is searched, so the result touches `a_id` as well.
pub open spec fn adjacent_spec(
    cs: Seq<GPos>,
    arity: int,
    nfaces: int,
    a_id: int,
    b_id: int,
    me: int,
) -> Option<int> {
    first_other(incident_upto(cs, arity, a_id, nfaces), cs, arity, b_id, me)
}

pub proof fn lemma_first_other(fs: Seq<int>, cs: Seq<GPos>, arity: int, b_id: int, me: int)
    ensures
        match first_other(fs, cs, arity, b_id, me) {
            Some(f) => fs.contains(f) && f != me && face_has(cs, arity, f, b_id),
            None => forall|k: int|
                0 <= k < fs.len() ==> !(fs[k] != me && face_has(cs, arity, #[trigger] fs[k], b_id)),
        },
    decreases fs.len(),
{
    if fs.len() > 0 {
        if fs[0] != me && face_has(cs, arity, fs[0], b_id) {
            assert(fs.contains(fs[0]));
        } else {
            lemma_first_other(fs.skip(1), cs, arity, b_id, me);
            match first_other(fs.skip(1), cs, arity, b_id, me) {
                Some(f) => {
                    let k = choose|k: int| 0 <= k < fs.skip(1).len() && fs.skip(1)[k] == f;
                    assert(fs[k + 1] == f);
                    assert(fs.contains(f));
                },
                None => {
                    assert forall|k: int|
                        0 <= k < fs.len() implies !(fs[k] != me && face_has(
                        cs,
                        arity,
                        #[trigger] fs[k],
                        b_id,
                    )) by {
                        if k > 0 {
                            assert(fs.skip(1)[k - 1] == fs[k]);
                            assert(!(fs.skip(1)[k - 1] != me && face_has(
                                cs,
                                arity,
                                fs.skip(1)[k - 1],
                                b_id,
                            )));
                        }
                    }
                },
            }
        }
    }
}

/// The face adjacent across the edge `(a, b)` of face `me`, as
/// `adjacent_spec` names it.
pub fn adjacent_core(
    map: &VertexMap,
    a: usize,
    b: usize,
    me: usize,
    cs: Ghost<Seq<GPos>>,
    arity: usize,
) -> (r: Option<usize>)
    requires
        map.wf(cs@, arity as int),
        a < map.incident.len(),
    ensures
        ({
            let nfaces = (cs@.len() as int) / (arity as int);
            match r {
                Some(f) => {
                    &&& adjacent_spec(cs@, arity as int, nfaces, a as int, b as int, me as int)
                        == Some(f as int)
                    &&& f < nfaces
                    &&& f != me
                },
                None => adjacent_spec(cs@, arity as int, nfaces, a as int, b as int, me as int)
                    is None,
            }
        }),
{
    let ghost nfaces = (cs@.len() as int) / (arity as int);
    let ghost fs = incident_upto(cs@, arity as int, a as int, nfaces);
    proof {
        lemma_incident_upto(cs@, arity as int, a as int, nfaces);
        assert(fs.skip(0) =~= fs);
    }
    let row_len = map.incident[a].len();
    let mut idx: usize = 0;
    while idx < row_len
        invariant
            idx <= row_len,
            map.wf(cs@, arity as int),
            a < map.incident.len(),
            nfaces == (cs@.len() as int) / (arity as int),
            fs == incident_upto(cs@, arity as int, a as int, nfaces),
            row_len == fs.len(),
            row_len == map.incident[a as int].len(),
            first_other(fs, cs@, arity as int, b as int, me as int) == first_other(
                fs.skip(idx as int),
                cs@,
                arity as int,
                b as int,
                me as int,
            ),
        decreases row_len - idx,
    {
        let f = map.incident[a][idx];
        proof {
            lemma_incident_upto(cs@, arity as int, a as int, nfaces);
            assert(f as int == fs[idx as int]);
            assert(0 <= fs[idx as int] < nfaces);
            assert((f as int) * (arity as int) + (arity as int) <= cs@.len()) by (nonlinear_arith)
                requires
                    0 <= f as int,
                    (f as int) < nfaces,
                    nfaces == (cs@.len() as int) / (arity as int),
                    cs@.len() == nfaces * (arity as int),
                    arity as int >= 1,
            ;
        }
        let touches_b = match find_in_face(map, f, b, cs, arity) {
            Some(_) => true,
            None => false,
        };
        proof {
            assert(fs.skip(idx as int)[0] == fs[idx as int]);
        }
        if f != me && touches_b {
            return Some(f);
        }
        proof {
            assert(fs.skip(idx as int).skip(1) =~= fs.skip(idx as int + 1));
        }
        idx += 1;
    }
    proof {
        assert(fs.skip(row_len as int) =~= Seq::<int>::empty());
    }
    None
}

/// Weld the flattened corner sequence and build the incidence map.
pub fn build_vertex_map(corners: &Vec<Vertex>, arity: usize) -> (m: VertexMap)
    requires
        1 <= arity <= 4,
        corners.len() % arity == 0,
        forall|j: int| 0 <= j < corners.len() ==> in_bounds(#[trigger] corners[j]@, MAXC as int),
    ensures
        m.wf(pos_seq(corners@), arity as int),
{
    let ghost cs = pos_seq(corners@);
    let mut reps: Vec<Vertex> = Vec::new();
    let mut ids: Vec<usize> = Vec::new();
    let mut j: usize = 0;
    proof {
        assert(cs.take(0) =~= Seq::<GPos>::empty());
    }
    while j < corners.len()
        invariant
            j <= corners.len(),
            cs == pos_seq(corners@),
            cs.len() == corners.len(),
            forall|i: int| 0 <= i < corners.len() ==> in_bounds(#[trigger] corners[i]@, MAXC as int),
            ids.len() == j,
            reps.len() == weld_reps(cs.take(j as int)).len(),
            forall|k: int|
                0 <= k < reps.len() ==> reps[k]@ == #[trigger] weld_reps(cs.take(j as int))[k],
            forall|k: int| 0 <= k < reps.len() ==> in_bounds(#[trigger] reps[k]@, MAXC as int),
            forall|i: int| 0 <= i < j ==> ids[i] as int == #[trigger] corner_id(cs, i),
            forall|i: int| 0 <= i < j ==> #[trigger] ids[i] < reps.len(),
        decreases corners.len() - j,
    {
        let ghost pre = weld_reps(cs.take(j as int));
        let v = corners[j];
        proof {
            assert(v@ == cs[j as int]);
        }
        let found = find_weld_match(&reps, &v, Ghost(pre));
        proof {
            assert(cs.take(j as int + 1).drop_last() =~= cs.take(j as int));
            assert(cs.take(j as int + 1).last() == cs[j as int]);
            lemma_weld_grows(cs, j as int, j as int + 1);
        }
        match found {
            Some(m) => {
                ids.push(m);
                proof {
                    lemma_match_at(pre, cs[j as int]);
                    assert(weld_reps(cs.take(j as int + 1)) == pre);
                    assert(corner_id(cs, j as int) == m as int);
                    assert(m < reps.len());
                }
            },
            None => {
                let m = reps.len();
                reps.push(v);
                ids.push(m);
                proof {
                    assert(weld_reps(cs.take(j as int + 1)) == pre.push(cs[j as int]));
                    assert(corner_id(cs, j as int) == m as int);
                }
            },
        }
        j += 1;
    }
    proof {
        assert(cs.take(corners.len() as int) =~= cs);
    }
    let nreps = reps.len();
    let nfaces = corners.len() / arity;
    proof {
        vstd::arithmetic::div_mod::lemma_fundamental_div_mod(corners.len() as int, arity as int);
        assert(corners.len() as int == (arity as int) * (nfaces as int) + (corners.len() as int)
            % (arity as int));
        assert((corners.len() as int) % (arity as int) == 0);
        assert(cs.len() == (nfaces as int) * (arity as int)) by (nonlinear_arith)
            requires
                cs.len() == corners.len(),
                corners.len() as int == (arity as int) * (nfaces as int),
        ;
    }
    let mut incident: Vec<Vec<usize>> = Vec::new();
    let mut v: usize = 0;
    while v < nreps
        invariant
            v <= nreps,
            incident.len() == v,
            forall|u: int| 0 <= u < v ==> #[trigger] incident[u].len() == 0,
        decreases nreps - v,
    {
        incident.push(Vec::new());
        v += 1;
    }
    let mut f: usize = 0;
    while f < nfaces
        invariant
            f <= nfaces,
            nfaces == (cs.len() as int) / (arity as int),
            cs.len() == nfaces * arity,
            1 <= arity <= 4,
            cs == pos_seq(corners@),
            ids.len() == cs.len(),
            forall|i: int| 0 <= i < cs.len() ==> ids[i] as int == #[trigger] corner_id(cs, i),
            forall|i: int| 0 <= i < cs.len() ==> #[trigger] ids[i] < nreps,
            incident.len() == nreps,
            forall|u: int, k: int|
                0 <= u < nreps && 0 <= k < incident[u].len() ==> #[trigger] incident[u][k] as int
                    == incident_upto(cs, arity as int, u, f as int)[k],
            forall|u: int|
                0 <= u < nreps ==> #[trigger] incident[u].len() == incident_upto(
                    cs,
                    arity as int,
                    u,
                    f as int,
                ).len(),
        decreases nfaces - f,
    {
        let mut t: usize = 0;
        while t < arity
            invariant
                t <= arity,
                f < nfaces,
                nfaces == (cs.len() as int) / (arity as int),
                cs.len() == nfaces * arity,
                1 <= arity <= 4,
                ids.len() == cs.len(),
                forall|i: int| 0 <= i < cs.len() ==> ids[i] as int == #[trigger] corner_id(cs, i),
                forall|i: int| 0 <= i < cs.len() ==> #[trigger] ids[i] < nreps,
                incident.len() == nreps,
                forall|u: int, k: int|
                    0 <= u < nreps && 0 <= k < incident[u].len() && k
                        < incident_upto(cs, arity as int, u, f as int).len()
                        ==> #[trigger] incident[u][k] as int
                        == incident_upto(cs, arity as int, u, f as int)[k],
                forall|u: int|
                    0 <= u < nreps ==> #[trigger] incident[u].len() == (if (exists|tt: int|
                        0 <= tt < t && #[trigger] corner_id(cs, (f as int) * (arity as int) + tt) == u) {
                        incident_upto(cs, arity as int, u, f as int).len() + 1
                    } else {
                        incident_upto(cs, arity as int, u, f as int).len()
                    }),
                forall|u: int|
                    0 <= u < nreps && incident[u].len() == incident_upto(
                        cs,
                        arity as int,
                        u,
                        f as int,
                    ).len() + 1 ==> #[trigger] incident[u][incident[u].len() - 1] as int
                        == f as int,
            decreases arity - t,
        {
            proof {
                assert((f as int) * (arity as int) + (t as int) < cs.len()) by (nonlinear_arith)
                    requires
                        (f as int) < nfaces,
                        (t as int) < (arity as int),
                        cs.len() == nfaces * (arity as int),
                        arity >= 1,
                ;
            }
            let vid = ids[f * arity + t];
            // has this face already been recorded for vid, from an earlier
            // corner of the same face?
            let mut seen = false;
            let mut tt: usize = 0;
            while tt < t
                invariant
                    tt <= t,
                    t < arity,
                    f < nfaces,
                    nfaces == (cs.len() as int) / (arity as int),
                    cs.len() == nfaces * arity,
                    1 <= arity <= 4,
                    ids.len() == cs.len(),
                    forall|i: int|
                        0 <= i < cs.len() ==> ids[i] as int == #[trigger] corner_id(cs, i),
                    vid as int == corner_id(cs, (f as int) * (arity as int) + (t as int)),
                    seen == (exists|x: int|
                        0 <= x < tt && #[trigger] corner_id(cs, (f as int) * (arity as int) + x) == vid as int),
                decreases t - tt,
            {
                proof {
                    assert((f as int) * (arity as int) + (tt as int) < cs.len()) by (nonlinear_arith)
                        requires
                            (f as int) < nfaces,
                            (tt as int) < (arity as int),
                            cs.len() == nfaces * (arity as int),
                            arity >= 1,
                    ;
                }
                if ids[f * arity + tt] == vid {
                    seen = true;
                    proof {
                        assert(corner_id(cs, (f as int) * (arity as int) + (tt as int)) == vid as int);
                    }
                }
                tt += 1;
            }
            if !seen {
                let lst = incident[vid].len();
                let mut row = incident[vid].clone();
                proof {
                    assert(row@ =~= incident[vid as int]@);
                }
                row.push(f);
                incident.set(vid, row);
                proof {
                    assert(corner_id(cs, (f as int) * (arity as int) + (t as int)) == vid as int);
                }
            }
            t += 1;
        }
        proof {
            assert(forall|u: int|
                0 <= u < nreps ==> (face_has(cs, arity as int, f as int, u) <==> (exists|tt: int|
                    0 <= tt < arity as int && #[trigger] corner_id(cs, (f as int) * (arity as int) + tt) == u)));
            assert(forall|u: int|
                0 <= u < nreps ==> #[trigger] incident_upto(cs, arity as int, u, f as int + 1)
                    == (if face_has(cs, arity as int, f as int, u) {
                    incident_upto(cs, arity as int, u, f as int).push(f as int)
                } else {
                    incident_upto(cs, arity as int, u, f as int)
                }));
            assert forall|u: int|
                0 <= u < nreps implies #[trigger] incident[u].len() == incident_upto(
                cs,
                arity as int,
                u,
                f as int + 1,
            ).len() by {
                let prev = incident_upto(cs, arity as int, u, f as int);
                if face_has(cs, arity as int, f as int, u) {
                    assert(incident[u].len() == prev.len() + 1);
                } else {
                    assert(incident[u].len() == prev.len());
                }
            }
            assert forall|u: int, k: int|
                0 <= u < nreps && 0 <= k < incident[u].len()
                    implies #[trigger] incident[u][k] as int == incident_upto(
                cs,
                arity as int,
                u,
                f as int + 1,
            )[k] by {
                let prev = incident_upto(cs, arity as int, u, f as int);
                if face_has(cs, arity as int, f as int, u) {
                    let cur = prev.push(f as int);
                    assert(incident_upto(cs, arity as int, u, f as int + 1) == cur);
                    if k < prev.len() {
                        assert(cur[k] == prev[k]);
                        assert(incident[u][k] as int == prev[k]);
                    } else {
                        assert(k == prev.len());
                        assert(cur[k] == f as int);
                        assert(incident[u][incident[u].len() - 1] as int == f as int);
                    }
                } else {
                    assert(incident_upto(cs, arity as int, u, f as int + 1) == prev);
                }
            }
        }
        f += 1;
    }
    VertexMap { reps, ids, incident }
}

} // verus!
