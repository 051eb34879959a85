//! Cleaving a face from its coplanar neighbours.
//!
//! Before a face is pushed or pulled, the neighbours that lie on its plane
//! are found, and the face is given boundary vertices and edges of its
//! own, so that it no longer shares edges with them. Which neighbours are
//! coplanar is decided on coordinates by the caller, who also places the
//! new vertices where the old ones were.

use vstd::prelude::*;
use crate::ids::{VertId, EdgeId, FaceId, NULL_RAW};
use crate::mesh::{
    Mesh, MeshError, Edge, Face, CurveKind, SurfaceKind, loop_closes, loop_len, loop_verts, loop_edges, loop_error,
    face_on_edge, face_added, hole_views, edge_joins, new_loop_he_ok,
};
use crate::offset::{verts_pushed, fresh_verts};
use crate::smooth_group::outer_loop_edges;
use crate::shared_merge::face_removed;
use crate::results::CleaveResult;
use crate::fx_set::{fx_set_new, fx_set_insert, fx_set_contains};

verus! {

/// Face `g` is flagged coplanar with the source face (`coplanar[g]`;
/// slots past the flags are not).
pub open spec fn flagged(coplanar: Seq<bool>, g: int) -> bool {
    0 <= g < coplanar.len() && coplanar[g]
}

/// Face `g` is another face owning a live half-edge on an edge of the
/// outer loop of face `f`.
pub open spec fn sibling_candidate(m: Mesh, f: FaceId, g: FaceId) -> bool {
    &&& g != f
    &&& exists|k: int| 0 <= k < outer_loop_edges(m, f).len() && face_on_edge(m, #[trigger] outer_loop_edges(m, f)[k], g)
}

/// The faces strictly increasing by handle.
pub open spec fn faces_increasing(s: Seq<FaceId>) -> bool {
    forall|i: int, j: int| 0 <= i < j < s.len() ==> s[i].id < s[j].id
}

/// Why the siblings of face `f` cannot be collected, in the order of the
/// checks, or `None` when they can.
pub open spec fn siblings_error(m: Mesh, f: FaceId) -> Option<MeshError> {
    let st = m.faces@[f.ix()].outer.start;
    if !m.face_present(f) {
        Some(MeshError::FaceNotFound(f))
    } else if !m.faces@[f.ix()].active {
        Some(MeshError::FaceInactive(f))
    } else if !loop_closes(m.hes@, st) {
        Some(loop_error(m, st))
    } else if loop_len(m.hes@, st) < 3 {
        Some(MeshError::DegenerateLoop)
    } else {
        None
    }
}

/// The inner loops of face `f` among its first `k` that close, as vertex
/// loops.
pub open spec fn cleave_holes_upto(m: Mesh, f: FaceId, k: nat) -> Seq<Seq<VertId>>
    decreases k,
{
    if k == 0 {
        Seq::empty()
    } else {
        let p = cleave_holes_upto(m, f, (k - 1) as nat);
        let st = m.faces@[f.ix()].inners@[k - 1].start;
        if st.id != NULL_RAW && loop_closes(m.hes@, st) {
            p.push(loop_verts(m.hes@, st, loop_len(m.hes@, st)))
        } else {
            p
        }
    }
}

/// The inner loops of face `f` that close.
pub open spec fn cleave_holes(m: Mesh, f: FaceId) -> Seq<Seq<VertId>> {
    cleave_holes_upto(m, f, m.faces@[f.ix()].inners@.len())
}

/// The curves of the edges of the outer loop of face `f`, in loop order.
pub open spec fn outer_curves(m: Mesh, f: FaceId) -> Seq<Option<CurveKind>> {
    let es = outer_loop_edges(m, f);
    Seq::new(es.len(), |j: int| m.edges@[es[j].ix()].curve)
}

/// From `c`, the mesh after adding the cleaved face `nf`, `new` has the
/// face carry surface `surf` and normal flag `flag`, and the edge of the
/// `j`-th half-edge of its outer loop carry `curves[j]` where that is a
/// curve; nothing else changed.
pub open spec fn cleave_finished(
    c: Mesh,
    new: Mesh,
    nf: FaceId,
    surf: Option<SurfaceKind>,
    flag: bool,
    curves: Seq<Option<CurveKind>>,
) -> bool {
    let st = c.faces@[nf.ix()].outer.start.ix();
    &&& new.verts@ == c.verts@
    &&& new.hes@ == c.hes@
    &&& new.faces@ == c.faces@.update(nf.ix(), Face { surface: surf, normal_flipped: flag, ..c.faces@[nf.ix()] })
    &&& new.edges@.len() == c.edges@.len()
    &&& forall|j: int| 0 <= j < curves.len() ==> #[trigger] new.edges@[c.hes@[st + j].edge.ix()] == (if curves[j] is Some {
        Edge { curve: curves[j], ..c.edges@[c.hes@[st + j].edge.ix()] }
    } else {
        c.edges@[c.hes@[st + j].edge.ix()]
    })
    &&& forall|i: int| 0 <= i < c.edges@.len() && (forall|j: int| 0 <= j < curves.len() ==> (#[trigger] c.hes@[st + j]).edge.ix() != i)
        ==> #[trigger] new.edges@[i] == c.edges@[i]
}

/// `new` and `r` are what cleaving face `f` gives from `old`, where
/// `no_siblings` tells whether it has no coplanar siblings: nothing then;
/// otherwise, after the checks of `siblings_error`, the face is removed,
/// one new vertex is added per outer-loop vertex, and a face is added
/// along the new vertices with the old face's closed hole loops and
/// material, taking its surface, normal flag and boundary curves.
pub open spec fn cleave_done(old: Mesh, new: Mesh, f: FaceId, no_siblings: bool, r: Result<CleaveResult, MeshError>) -> bool {
    let face = old.faces@[f.ix()];
    let st = face.outer.start;
    if no_siblings {
        r == Ok::<CleaveResult, MeshError>(CleaveResult { new_face_id: f, new_vert_count: 0, new_edge_count: 0 }) && new == old
    } else {
        match siblings_error(old, f) {
            Some(e) => r == Err::<CleaveResult, MeshError>(e) && new == old,
            None => {
                let n = loop_len(old.hes@, st);
                if old.verts@.len() + n >= NULL_RAW {
                    r == Err::<CleaveResult, MeshError>(MeshError::CapacityExceeded) && new == old
                } else {
                    exists|a: Mesh, b: Mesh, c: Mesh, ra: Result<FaceId, MeshError>|
                        #![trigger face_removed(old, a, f), verts_pushed(a, b, n), face_added(b, c, fresh_verts(old.verts@.len() as nat, n), cleave_holes(old, f), face.material, ra)]
                        face_removed(old, a, f) && verts_pushed(a, b, n) && face_added(
                            b,
                            c,
                            fresh_verts(old.verts@.len() as nat, n),
                            cleave_holes(old, f),
                            face.material,
                            ra,
                        ) && match ra {
                            Err(e) => r == Err::<CleaveResult, MeshError>(e) && new == c,
                            Ok(nf) => r == Ok::<CleaveResult, MeshError>(
                                CleaveResult { new_face_id: nf, new_vert_count: n as usize, new_edge_count: n as usize },
                            ) && cleave_finished(c, new, nf, face.surface, face.normal_flipped, outer_curves(old, f)),
                        }
                }
            },
        }
    }
}

/// The edges of a freshly appended loop along distinct vertices are
/// distinct.
proof fn lemma_new_loop_edges_distinct(hes: Seq<crate::mesh::HalfEdge>, edges: Seq<Edge>, base: int, w: Seq<VertId>, f: FaceId, o: bool)
    requires
        crate::mesh::new_loop_fields(hes, edges, base, w, f, o),
        w.len() >= 3,
        w.no_duplicates(),
    ensures
        forall|j: int, k: int| 0 <= j < w.len() && 0 <= k < w.len() && j != k ==> #[trigger] hes[base + j].edge != #[trigger] hes[base + k].edge,
{
    let n = w.len() as int;
    assert forall|j: int, k: int| 0 <= j < w.len() && 0 <= k < w.len() && j != k implies #[trigger] hes[base + j].edge != #[trigger] hes[base + k].edge by {
        assert(new_loop_he_ok(hes[base + j], edges, base, j, w, f, o));
        assert(new_loop_he_ok(hes[base + k], edges, base, k, w, f, o));
        let j1 = (j + 1) % n;
        let k1 = (k + 1) % n;
        assert(j1 == if j + 1 < n { j + 1 } else { 0 }) by (nonlinear_arith) requires j1 == (j + 1) % n, 0 <= j < n;
        assert(k1 == if k + 1 < n { k + 1 } else { 0 }) by (nonlinear_arith) requires k1 == (k + 1) % n, 0 <= k < n;
        if hes[base + j].edge == hes[base + k].edge {
            let e = edges[hes[base + j].edge.ix()];
            assert(edge_joins(e, w[j], w[j1]));
            assert(edge_joins(e, w[k], w[k1]));
            assert(w[j] != w[k]);
            assert(w[j] == w[k1] && w[j1] == w[k]);
            assert(j == k1 && j1 == k);
        }
    }
}

impl Mesh {
    /// The coplanar siblings of face `f`: the other faces owning a live
    /// half-edge on an edge of its outer loop, kept where flagged
    /// coplanar, in increasing order.
    pub fn collect_coplanar_siblings(&self, f: FaceId, coplanar: &[bool]) -> (r: Result<Vec<FaceId>, MeshError>)
        requires
            self.wf(),
        ensures
            match siblings_error(*self, f) {
                Some(e) => r == Err::<Vec<FaceId>, MeshError>(e),
                None => r matches Ok(s) && {
                    &&& faces_increasing(s@)
                    &&& forall|g: FaceId| #[trigger] s@.contains(g) <==> sibling_candidate(*self, f, g) && flagged(coplanar@, g.ix())
                },
            },
    {
        if f.id as usize >= self.faces.len() || !self.faces[f.id as usize].present {
            return Err(MeshError::FaceNotFound(f));
        }
        if !self.faces[f.id as usize].active {
            return Err(MeshError::FaceInactive(f));
        }
        let verts = match self.collect_loop_verts(self.faces[f.id as usize].outer.start) {
            Ok(v) => v,
            Err(e) => {
                return Err(e);
            },
        };
        if verts.len() < 3 {
            return Err(MeshError::DegenerateLoop);
        }
        let edges = match self.face_outer_edges(f) {
            Ok(e) => e,
            Err(e) => {
                return Err(e);
            },
        };
        let ghost oe = outer_loop_edges(*self, f);
        proof {
            assert(edges@ == oe);
        }
        let nf = self.faces.len();
        let mut cands = fx_set_new();
        let ne = edges.len();
        let mut k: usize = 0;
        while k < ne
            invariant
                self.wf(),
                ne == edges@.len(),
                edges@ == oe,
                oe == outer_loop_edges(*self, f),
                nf == self.faces@.len(),
                nf < NULL_RAW,
                k <= ne,
                forall|q: u32| #[trigger] cands@.contains(q) <==> (q < nf && exists|j: int| 0 <= j < k
                    && face_on_edge(*self, #[trigger] oe[j], FaceId { id: q })),
            decreases ne - k,
        {
            let ghost cb = cands@;
            let fs = self.get_faces_sharing_edge(edges[k]);
            let m = fs.len();
            proof {
                assert forall|t: int| 0 <= t < m implies (#[trigger] fs@[t]).ix() < nf by {
                    assert(fs@.contains(fs@[t]));
                }
            }
            let mut i: usize = 0;
            while i < m
                invariant
                    m == fs@.len(),
                    nf == self.faces@.len(),
                    nf < NULL_RAW,
                    i <= m,
                    forall|q: u32| #[trigger] cands@.contains(q) <==> (cb.contains(q) || exists|t: int| 0 <= t < i
                        && fs@[t] == FaceId { id: q }),
                    forall|t: int| 0 <= t < m ==> (#[trigger] fs@[t]).ix() < nf,
                decreases m - i,
            {
                let x = fs[i];
                let ghost c1 = cands@;
                fx_set_insert(&mut cands, x.id);
                proof {
                    assert forall|q: u32| #[trigger] cands@.contains(q) <==> (cb.contains(q) || exists|t: int| 0 <= t < i + 1
                        && fs@[t] == FaceId { id: q }) by {
                        if q == x.id {
                            assert(fs@[i as int] == FaceId { id: q });
                        } else {
                            assert(cands@.contains(q) == c1.contains(q));
                            if exists|t: int| 0 <= t < i + 1 && fs@[t] == (FaceId { id: q }) {
                                let t = choose|t: int| 0 <= t < i + 1 && fs@[t] == (FaceId { id: q });
                                assert(fs@[i as int] == x);
                                assert(t != i);
                            }
                        }
                    }
                }
                i += 1;
            }
            proof {
                assert forall|q: u32| #[trigger] cands@.contains(q) <==> (q < nf && exists|j: int| 0 <= j < k + 1
                    && face_on_edge(*self, #[trigger] oe[j], FaceId { id: q })) by {
                    let y = FaceId { id: q };
                    if exists|t: int| 0 <= t < m && fs@[t] == y {
                        let t = choose|t: int| 0 <= t < m && fs@[t] == y;
                        assert(fs@.contains(y));
                        assert(face_on_edge(*self, oe[k as int], y));
                        assert(fs@[t].ix() < nf);
                    }
                    if face_on_edge(*self, oe[k as int], y) {
                        assert(fs@.contains(y));
                        let t = choose|t: int| 0 <= t < m && fs@[t] == y;
                    }
                    if exists|j: int| 0 <= j < k + 1 && face_on_edge(*self, #[trigger] oe[j], y) {
                        let j = choose|j: int| 0 <= j < k + 1 && face_on_edge(*self, #[trigger] oe[j], y);
                        if j < k {
                            assert(cb.contains(q));
                        } else {
                            assert(fs@.contains(y));
                            let t = choose|t: int| 0 <= t < m && fs@[t] == y;
                            assert(fs@[t].ix() < nf);
                        }
                    }
                }
            }
            k += 1;
        }
        let mut out: Vec<FaceId> = Vec::new();
        let mut g: usize = 0;
        while g < nf
            invariant
                self.wf(),
                nf == self.faces@.len(),
                nf < NULL_RAW,
                g <= nf,
                oe == outer_loop_edges(*self, f),
                ne == oe.len(),
                forall|q: u32| #[trigger] cands@.contains(q) <==> (q < nf && exists|j: int| 0 <= j < ne
                    && face_on_edge(*self, #[trigger] oe[j], FaceId { id: q })),
                faces_increasing(out@),
                forall|t: int| 0 <= t < out@.len() ==> (#[trigger] out@[t]).ix() < g,
                forall|y: FaceId| #[trigger] out@.contains(y) <==> y.ix() < g && sibling_candidate(*self, f, y) && flagged(coplanar@, y.ix()),
            decreases nf - g,
        {
            let y = FaceId::new(g as u32);
            let keep = fx_set_contains(&cands, g as u32) && y != f && g < coplanar.len() && coplanar[g];
            let ghost ob = out@;
            proof {
                assert(cands@.contains(g as u32) <==> exists|j: int| 0 <= j < ne && face_on_edge(*self, #[trigger] oe[j], y));
            }
            if keep {
                out.push(y);
            }
            proof {
                assert forall|z: FaceId| #[trigger] out@.contains(z) <==> z.ix() < g + 1 && sibling_candidate(*self, f, z)
                    && flagged(coplanar@, z.ix()) by {
                    if z.ix() == g {
                        assert(z == y);
                        if keep {
                            assert(out@[ob.len() as int] == y);
                        } else if out@.contains(z) {
                            let t = choose|t: int| 0 <= t < out@.len() && out@[t] == z;
                            assert(ob[t] == z);
                        }
                    } else {
                        if out@.contains(z) {
                            let t = choose|t: int| 0 <= t < out@.len() && out@[t] == z;
                            if keep && t == ob.len() {
                                assert(z == y);
                            } else {
                                assert(ob[t] == z);
                            }
                        }
                        if ob.contains(z) {
                            let t = choose|t: int| 0 <= t < ob.len() && ob[t] == z;
                            assert(out@[t] == z);
                        }
                    }
                    if z.ix() < g + 1 && sibling_candidate(*self, f, z) && flagged(coplanar@, z.ix()) && z.ix() < nf {
                        let j = choose|j: int| 0 <= j < oe.len() && face_on_edge(*self, #[trigger] oe[j], z);
                        assert(FaceId { id: z.ix() as u32 } == z);
                    }
                }
            }
            g += 1;
        }
        proof {
            assert forall|z: FaceId| #[trigger] out@.contains(z) <==> sibling_candidate(*self, f, z) && flagged(coplanar@, z.ix()) by {
                if sibling_candidate(*self, f, z) {
                    let j = choose|j: int| 0 <= j < oe.len() && face_on_edge(*self, #[trigger] oe[j], z);
                    assert(self.face_present(z));
                }
            }
        }
        Ok(out)
    }

    /// The closed inner loops of face `f`, as vertex loops.
    fn cleave_hole_loops(&self, f: FaceId) -> (holes: Vec<Vec<VertId>>)
        requires
            self.wf(),
            self.face_present(f),
        ensures
            hole_views(holes@) == cleave_holes(*self, f),
    {
        let mut holes: Vec<Vec<VertId>> = Vec::new();
        let n = self.faces[f.id as usize].inners.len();
        let mut k: usize = 0;
        proof {
            assert(hole_views(holes@) =~= cleave_holes_upto(*self, f, 0));
        }
        while k < n
            invariant
                self.wf(),
                self.face_present(f),
                n == self.faces@[f.ix()].inners@.len(),
                k <= n,
                hole_views(holes@) == cleave_holes_upto(*self, f, k as nat),
            decreases n - k,
        {
            let st = self.faces[f.id as usize].inners[k].start;
            let ghost hb = holes@;
            if !st.is_null() {
                match self.collect_loop_verts(st) {
                    Ok(v) => {
                        holes.push(v);
                        proof {
                            assert(hole_views(holes@) =~= hole_views(hb).push(v@));
                        }
                    },
                    Err(_) => {},
                }
            }
            k += 1;
        }
        holes
    }

    /// The curves of the outer-loop edges `es` of face `f` (see
    /// `outer_curves`).
    fn outer_curve_kinds(&self, f: FaceId, es: &Vec<EdgeId>) -> (curves: Vec<Option<CurveKind>>)
        requires
            self.wf(),
            self.face_present(f),
            loop_closes(self.hes@, self.faces@[f.ix()].outer.start),
            es@ == outer_loop_edges(*self, f),
        ensures
            curves@ == outer_curves(*self, f),
    {
        let n = es.len();
        let ghost st = self.faces@[f.ix()].outer.start;
        let mut curves: Vec<Option<CurveKind>> = Vec::new();
        let mut j: usize = 0;
        while j < n
            invariant
                self.wf(),
                self.face_present(f),
                st == self.faces@[f.ix()].outer.start,
                loop_closes(self.hes@, st),
                n == es@.len(),
                es@ == outer_loop_edges(*self, f),
                j <= n,
                curves@ == outer_curves(*self, f).take(j as int),
            decreases n - j,
        {
            proof {
                assert(outer_curves(*self, f).take(j + 1) =~= outer_curves(*self, f).take(j as int).push(
                    outer_curves(*self, f)[j as int],
                ));
                crate::mesh::lemma_walk_valid(self.hes@, self.verts@.len() as int, self.edges@.len() as int,
                    self.faces@.len() as int, st, j as nat);
                assert(es@[j as int] == self.hes@[crate::mesh::walk(self.hes@, st, j as nat).ix()].edge);
            }
            let e = es[j];
            curves.push(self.edges[e.id as usize].curve);
            j += 1;
        }
        proof {
            assert(outer_curves(*self, f).take(n as int) =~= outer_curves(*self, f));
        }
        curves
    }

    /// Gives the edge of each half-edge `st + j` of a freshly added loop
    /// along `fresh` the curve `curves[j]`, where that is a curve.
    fn copy_loop_curves(&mut self, nf: FaceId, st: usize, curves: &Vec<Option<CurveKind>>, fresh: Ghost<Seq<VertId>>)
        requires
            old(self).wf(),
            curves@.len() == fresh@.len(),
            fresh@.len() >= 3,
            st + curves@.len() <= old(self).hes@.len(),
            forall|q: int| 0 <= q < curves@.len() ==> new_loop_he_ok(#[trigger] old(self).hes@[st + q], old(self).edges@, st as int, q, fresh@, nf, true),
            forall|x: int, y: int| 0 <= x < curves@.len() && 0 <= y < curves@.len() && x != y
                ==> #[trigger] old(self).hes@[st + x].edge != #[trigger] old(self).hes@[st + y].edge,
        ensures
            final(self).wf(),
            final(self).verts@ == old(self).verts@,
            final(self).hes@ == old(self).hes@,
            final(self).faces@ == old(self).faces@,
            final(self).edges@.len() == old(self).edges@.len(),
            forall|q: int| 0 <= q < curves@.len() ==> #[trigger] final(self).edges@[old(self).hes@[st + q].edge.ix()] == (if curves@[q] is Some {
                Edge { curve: curves@[q], ..old(self).edges@[old(self).hes@[st + q].edge.ix()] }
            } else {
                old(self).edges@[old(self).hes@[st + q].edge.ix()]
            }),
            forall|i: int| 0 <= i < old(self).edges@.len() && (forall|q: int| 0 <= q < curves@.len() ==> (#[trigger] old(self).hes@[st + q]).edge.ix() != i)
                ==> #[trigger] final(self).edges@[i] == old(self).edges@[i],
    {
        let ghost c = *self;
        let n = curves.len();
        let mut j: usize = 0;
        while j < n
            invariant
                self.wf(),
                j <= n,
                n == curves@.len(),
                st + n <= c.hes@.len(),
                self.verts@ == c.verts@,
                self.hes@ == c.hes@,
                self.faces@ == c.faces@,
                self.edges@.len() == c.edges@.len(),
                forall|q: int| 0 <= q < n ==> new_loop_he_ok(#[trigger] c.hes@[st + q], c.edges@, st as int, q, fresh@, nf, true),
                forall|x: int, y: int| 0 <= x < n && 0 <= y < n && x != y ==> #[trigger] c.hes@[st + x].edge != #[trigger] c.hes@[st + y].edge,
                forall|q: int| 0 <= q < j ==> #[trigger] self.edges@[c.hes@[st + q].edge.ix()] == (if curves@[q] is Some {
                    Edge { curve: curves@[q], ..c.edges@[c.hes@[st + q].edge.ix()] }
                } else {
                    c.edges@[c.hes@[st + q].edge.ix()]
                }),
                forall|i: int| 0 <= i < c.edges@.len() && (forall|q: int| 0 <= q < j ==> (#[trigger] c.hes@[st + q]).edge.ix() != i)
                    ==> #[trigger] self.edges@[i] == c.edges@[i],
            decreases n - j,
        {
            let e = self.hes[st + j].edge;
            let ghost before = self.edges@;
            proof {
                assert(new_loop_he_ok(c.hes@[st + j], c.edges@, st as int, j as int, fresh@, nf, true));
                assert forall|q: int| 0 <= q < j implies (#[trigger] c.hes@[st + q]).edge.ix() != e.ix() by {
                    assert(c.hes@[st + q].edge != c.hes@[st + j].edge);
                }
                assert(before[e.ix()] == c.edges@[e.ix()]);
            }
            match curves[j] {
                Some(k) => {
                    let _ = self.set_edge_curve(e, Some(k));
                },
                None => {},
            }
            proof {
                assert forall|q: int| 0 <= q < j + 1 implies #[trigger] self.edges@[c.hes@[st + q].edge.ix()] == (if curves@[q] is Some {
                    Edge { curve: curves@[q], ..c.edges@[c.hes@[st + q].edge.ix()] }
                } else {
                    c.edges@[c.hes@[st + q].edge.ix()]
                }) by {
                    if q < j {
                        assert(c.hes@[st + q].edge != c.hes@[st + j].edge);
                        assert(new_loop_he_ok(c.hes@[st + q], c.edges@, st as int, q, fresh@, nf, true));
                    }
                }
                assert forall|i: int| 0 <= i < c.edges@.len() && (forall|q: int| 0 <= q < j + 1 ==> (#[trigger] c.hes@[st + q]).edge.ix() != i)
                    implies #[trigger] self.edges@[i] == c.edges@[i] by {
                    assert(c.hes@[st + j].edge.ix() != i);
                }
            }
            j += 1;
        }
    }

    /// Gives the freshly added face `nf`, whose outer loop runs along the
    /// distinct vertices `fresh`, the surface, normal flag and boundary
    /// curves of the face it replaces (see `cleave_finished`).
    fn finish_cleave(
        &mut self,
        nf: FaceId,
        surface: Option<SurfaceKind>,
        flag: bool,
        curves: &Vec<Option<CurveKind>>,
        fresh: Ghost<Seq<VertId>>,
    )
        requires
            old(self).wf(),
            0 <= nf.ix() < old(self).faces@.len(),
            curves@.len() == fresh@.len(),
            fresh@.len() >= 3,
            fresh@.no_duplicates(),
            0 <= old(self).faces@[nf.ix()].outer.start.ix(),
            old(self).faces@[nf.ix()].outer.start.ix() + fresh@.len() <= old(self).hes@.len(),
            crate::mesh::new_loop_fields(old(self).hes@, old(self).edges@, old(self).faces@[nf.ix()].outer.start.ix(), fresh@, nf, true),
        ensures
            final(self).wf(),
            cleave_finished(*old(self), *final(self), nf, surface, flag, curves@),
    {
        let ghost c = *self;
        let fi = nf.id as usize;
        self.faces[fi].surface = surface;
        self.faces[fi].normal_flipped = flag;
        proof {
            assert forall|i: int| 0 <= i < self.faces@.len() implies crate::mesh::face_wf(#[trigger] self.faces@[i], self.hes@.len() as int) by {
                assert(i == fi || self.faces@[i] == c.faces@[i]);
            }
            assert(self.faces@ =~= c.faces@.update(nf.ix(), Face { surface: surface, normal_flipped: flag, ..c.faces@[nf.ix()] }));
        }
        let st = self.faces[fi].outer.start.id as usize;
        proof {
            lemma_new_loop_edges_distinct(c.hes@, c.edges@, st as int, fresh@, nf, true);
            assert forall|q: int| 0 <= q < curves@.len() implies new_loop_he_ok(#[trigger] c.hes@[st + q], c.edges@, st as int, q, fresh@, nf, true) by {
                assert(new_loop_he_ok(c.hes@[st + q], c.edges@, st as int, q, fresh@, nf, true));
            }
        }
        self.copy_loop_curves(nf, st, curves, fresh);
    }

    /// Cleaves face `face_id` from its coplanar siblings (see
    /// `cleave_done`): with no sibling nothing changes; otherwise the face
    /// is rebuilt on new boundary vertices, so that it no longer shares
    /// edges with them. The caller places the new vertices, in the order
    /// of the old outer loop, where the old ones are.
    #[verifier::rlimit(40)]
    pub fn cleave_face_from_siblings(&mut self, face_id: FaceId, siblings: &[FaceId]) -> (r: Result<CleaveResult, MeshError>)
        requires
            old(self).wf(),
        ensures
            final(self).wf(),
            cleave_done(*old(self), *final(self), face_id, siblings@.len() == 0, r),
    {
        if siblings.len() == 0 {
            return Ok(CleaveResult { new_face_id: face_id, new_vert_count: 0, new_edge_count: 0 });
        }
        if face_id.id as usize >= self.faces.len() || !self.faces[face_id.id as usize].present {
            return Err(MeshError::FaceNotFound(face_id));
        }
        if !self.faces[face_id.id as usize].active {
            return Err(MeshError::FaceInactive(face_id));
        }
        let ghost m0 = *self;
        let lv = match self.collect_loop_verts(self.faces[face_id.id as usize].outer.start) {
            Ok(v) => v,
            Err(e) => {
                return Err(e);
            },
        };
        let n = lv.len();
        if n < 3 {
            return Err(MeshError::DegenerateLoop);
        }
        let es = match self.face_outer_edges(face_id) {
            Ok(e) => e,
            Err(e) => {
                return Err(e);
            },
        };
        let curves = self.outer_curve_kinds(face_id, &es);
        let holes = self.cleave_hole_loops(face_id);
        let material = self.faces[face_id.id as usize].material;
        let surface = self.faces[face_id.id as usize].surface;
        let flag = self.faces[face_id.id as usize].normal_flipped;
        if self.verts.len() >= 0xffff_ffff - n {
            return Err(MeshError::CapacityExceeded);
        }
        let _ = self.remove_face(face_id);
        let ghost a = *self;
        let nv = self.add_vertices(n);
        let ghost b = *self;
        let ra = self.add_face_with_holes(nv.as_slice(), holes.as_slice(), material);
        let ghost c = *self;
        let nf = match ra {
            Ok(f) => f,
            Err(e) => {
                proof {
                    assert(face_removed(m0, a, face_id));
                }
                return Err(e);
            },
        };
        let ghost fresh = fresh_verts(m0.verts@.len() as nat, n as nat);
        proof {
            assert(nv@ == fresh);
            assert(face_removed(m0, a, face_id));
            assert(crate::mesh::new_face_ok(c, nf, fresh, hole_views(holes@), material));
        }
        self.finish_cleave(nf, surface, flag, &curves, Ghost(fresh));
        Ok(CleaveResult { new_face_id: nf, new_vert_count: n, new_edge_count: n })
    }
}

} // verus!
