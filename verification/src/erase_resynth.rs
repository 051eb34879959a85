//! Erasing an edge and re-synthesizing the faces round it.
//!
//! When the edge lies on a hole loop of one of its faces, erasing it
//! removes that hole: the face is rebuilt with its outer loop and its
//! other holes, and the face that filled the hole goes too. Otherwise the
//! faces round the edge are removed with it, and new faces are to be
//! synthesized from the free-edge cycles through the vertices of the
//! removed region; that synthesis works on positions, which the caller
//! holds, and ends in `finish_erase_resynthesize`. Dangling wires left
//! behind are pruned on request.

use vstd::prelude::*;
use crate::ids::{VertId, HeId, EdgeId, FaceId, MaterialId};
use crate::mesh::{
    Mesh, MeshError, HalfEdge, Face, Edge, LoopRef, faces_on_edge_upto, loop_closes, loop_len, loop_verts,
    loop_error, face_added, hole_views, lemma_loops_same_links,
};
use crate::offset::{detached, on_face_loop};
use crate::cleanup::wires_pruned;

verus! {

/// Result of erasing an edge.
#[derive(Debug)]
pub struct EraseResynthResult {
    /// The faces removed round the edge.
    pub removed_faces: Vec<FaceId>,
    /// The faces synthesized in their place.
    pub new_faces: Vec<FaceId>,
    /// Dangling wire edges pruned afterwards.
    pub cleaned_edges: usize,
    /// Vertices left without edges by the pruning.
    pub cleaned_verts: usize,
}

/// What an edge erasure leaves to do.
#[derive(Debug)]
pub enum EraseStep {
    /// The erasure is complete.
    Done(EraseResynthResult),
    /// The faces round the edge and the edge are removed; faces are still
    /// to be synthesized from the free-edge cycles through `seed_verts`,
    /// and `finish_erase_resynthesize` called with them.
    Resynthesize { removed_faces: Vec<FaceId>, seed_verts: Vec<VertId> },
}

/// Most half-edges examined on one hole loop.
pub const HOLE_SCAN_LIMIT: usize = 4096;

/// Walking the loop that starts at `start` from `h`, with at most `fuel`
/// half-edges left to examine: `None` when a half-edge on the way is not
/// live, `Some(true)` when one on edge `e` comes before the walk gets back
/// to `start`, `Some(false)` otherwise.
pub open spec fn scan_loop(hes: Seq<HalfEdge>, start: HeId, h: HeId, e: EdgeId, fuel: nat) -> Option<bool>
    decreases fuel,
{
    if fuel == 0 {
        Some(false)
    } else if !(0 <= h.ix() < hes.len() && hes[h.ix()].alive) {
        None
    } else if hes[h.ix()].edge == e {
        Some(true)
    } else if hes[h.ix()].next == start {
        Some(false)
    } else {
        scan_loop(hes, start, hes[h.ix()].next, e, (fuel - 1) as nat)
    }
}

/// Scanning the hole loops of face `f` from the `i`-th: `None` when a scan
/// meets a half-edge that is not live, `Some(Some(k))` for the first hole
/// loop `k` found to hold a half-edge on `e`, `Some(None)` when none is.
pub open spec fn scan_holes(m: Mesh, f: FaceId, e: EdgeId, i: nat) -> Option<Option<int>>
    decreases m.faces@[f.ix()].inners@.len() - i,
{
    let inners = m.faces@[f.ix()].inners@;
    if i >= inners.len() {
        Some(None)
    } else {
        match scan_loop(m.hes@, inners[i as int].start, inners[i as int].start, e, HOLE_SCAN_LIMIT as nat) {
            None => None,
            Some(true) => Some(Some(i as int)),
            Some(false) => scan_holes(m, f, e, i + 1),
        }
    }
}

/// The first face of `adj`, from the `a`-th on, with a hole loop holding a
/// half-edge on `e`, and that loop; `None` when there is none, or when a
/// face met on the way is not present or a scan fails before one is found.
pub open spec fn hole_owner(m: Mesh, adj: Seq<FaceId>, e: EdgeId, a: nat) -> Option<(FaceId, int)>
    decreases adj.len() - a,
{
    if a >= adj.len() {
        None
    } else if !m.face_present(adj[a as int]) {
        None
    } else {
        match scan_holes(m, adj[a as int], e, 0) {
            None => None,
            Some(Some(k)) => Some((adj[a as int], k)),
            Some(None) => hole_owner(m, adj, e, a + 1),
        }
    }
}

/// `v` is a vertex of the closed loop at `st`.
pub open spec fn loop_has_vert(m: Mesh, st: HeId, v: VertId) -> bool {
    loop_closes(m.hes@, st) && loop_verts(m.hes@, st, loop_len(m.hes@, st)).contains(v)
}

/// `v` is a vertex of a closed loop (outer or hole) of the present face `f`.
pub open spec fn face_has_vert(m: Mesh, f: FaceId, v: VertId) -> bool {
    let face = m.faces@[f.ix()];
    &&& m.face_present(f)
    &&& (loop_has_vert(m, face.outer.start, v) || exists|k: int|
        0 <= k < face.inners@.len() && loop_has_vert(m, (#[trigger] face.inners@[k]).start, v))
}

/// `v` seeds the face synthesis after erasing edge `e` with the faces
/// `adj` round it: an end of `e`, or a vertex of a closed loop of one of
/// those faces.
pub open spec fn is_seed(m: Mesh, e: EdgeId, adj: Seq<FaceId>, v: VertId) -> bool {
    ||| v == m.edges@[e.ix()].v0
    ||| v == m.edges@[e.ix()].v1
    ||| exists|a: int| 0 <= a < adj.len() && #[trigger] face_has_vert(m, adj[a], v)
}

/// The handles strictly increase.
pub open spec fn ids_increasing(s: Seq<VertId>) -> bool {
    forall|i: int, j: int| 0 <= i < j < s.len() ==> s[i].id < s[j].id
}

/// Inserts `x` into a strictly increasing vector unless it is there.
fn insert_sorted(v: &mut Vec<VertId>, x: VertId)
    requires
        ids_increasing(old(v)@),
    ensures
        ids_increasing(final(v)@),
        forall|y: VertId| #[trigger] final(v)@.contains(y) <==> (old(v)@.contains(y) || y == x),
{
    let n = v.len();
    let mut i: usize = 0;
    while i < n && v[i].id < x.id
        invariant
            n == v@.len(),
            i <= n,
            forall|j: int| 0 <= j < i ==> v@[j].id < x.id,
        decreases n - i,
    {
        i += 1;
    }
    if i < n && v[i].id == x.id {
        assert(v@[i as int] == x);
        return;
    }
    let ghost v0 = v@;
    v.insert(i, x);
    proof {
        assert(v@ == v0.insert(i as int, x));
        assert forall|a: int, b: int| 0 <= a < b < v@.len() implies v@[a].id < v@[b].id by {
            if b < i {
            } else if b == i {
            } else if a < i {
                assert(v@[b] == v0[b - 1]);
                if i < n {
                    assert(v0[i as int].id > x.id);
                    if b - 1 > i {
                        assert(v0[i as int].id < v0[b - 1].id);
                    }
                }
            } else if a == i {
                assert(v@[b] == v0[b - 1]);
                assert(v0[i as int].id > x.id);
                if b - 1 > i {
                    assert(v0[i as int].id < v0[b - 1].id);
                }
            } else {
                assert(v@[a] == v0[a - 1]);
                assert(v@[b] == v0[b - 1]);
            }
        }
        assert forall|y: VertId| #[trigger] v@.contains(y) <==> (v0.contains(y) || y == x) by {
            if v@.contains(y) {
                let q = choose|q: int| 0 <= q < v@.len() && v@[q] == y;
                if q < i {
                    assert(v0[q] == y);
                } else if q > i {
                    assert(v0[q - 1] == y);
                }
            }
            if v0.contains(y) {
                let q = choose|q: int| 0 <= q < v0.len() && v0[q] == y;
                if q < i {
                    assert(v@[q] == y);
                } else {
                    assert(v@[q + 1] == y);
                }
            }
            if y == x {
                assert(v@[i as int] == x);
            }
        }
    }
}

/// Inserts each vertex of `xs` into a strictly increasing vector unless it
/// is there.
pub(crate) fn insert_all_sorted(v: &mut Vec<VertId>, xs: &Vec<VertId>)
    requires
        ids_increasing(old(v)@),
    ensures
        ids_increasing(final(v)@),
        forall|y: VertId| #[trigger] final(v)@.contains(y) <==> (old(v)@.contains(y) || xs@.contains(y)),
{
    let n = xs.len();
    let mut i: usize = 0;
    while i < n
        invariant
            n == xs@.len(),
            i <= n,
            ids_increasing(v@),
            forall|y: VertId| #[trigger] v@.contains(y) <==> (old(v)@.contains(y) || xs@.take(i as int).contains(y)),
        decreases n - i,
    {
        let ghost vb = v@;
        insert_sorted(v, xs[i]);
        proof {
            let t = xs@.take(i as int);
            let t1 = xs@.take(i + 1);
            assert(t1 =~= t.push(xs@[i as int]));
            assert forall|y: VertId| #[trigger] v@.contains(y) <==> (old(v)@.contains(y) || t1.contains(y)) by {
                if t1.contains(y) && y != xs@[i as int] {
                    let q = choose|q: int| 0 <= q < t1.len() && t1[q] == y;
                    assert(t[q] == y);
                }
                if t.contains(y) {
                    let q = choose|q: int| 0 <= q < t.len() && t[q] == y;
                    assert(t1[q] == y);
                }
                if y == xs@[i as int] {
                    assert(t1[i as int] == y);
                }
            }
        }
        i += 1;
    }
    assert(xs@.take(n as int) =~= xs@);
}

/// Face `f` can be the face that filled a hole with vertices `hole`: it is
/// present, has no hole loops, and its outer loop closes with as many
/// vertices as `hole`, each of them in `hole`.
pub open spec fn sibling_fits(m: Mesh, f: FaceId, hole: Seq<VertId>) -> bool {
    let face = m.faces@[f.ix()];
    let st = face.outer.start;
    &&& m.face_present(f)
    &&& face.inners@.len() == 0
    &&& loop_closes(m.hes@, st)
    &&& loop_len(m.hes@, st) == hole.len()
    &&& forall|k: int| 0 <= k < hole.len() ==> hole.contains(#[trigger] loop_verts(m.hes@, st, loop_len(m.hes@, st))[k])
}

/// The first face of `adj`, from the `a`-th on, other than `ring`, that
/// can be the face that filled the hole `hole`.
pub open spec fn sibling_of(m: Mesh, ring: FaceId, adj: Seq<FaceId>, hole: Seq<VertId>, a: nat) -> Option<FaceId>
    decreases adj.len() - a,
{
    if a >= adj.len() {
        None
    } else if adj[a as int] != ring && sibling_fits(m, adj[a as int], hole) {
        Some(adj[a as int])
    } else {
        sibling_of(m, ring, adj, hole, a + 1)
    }
}

/// Whether `x` is among `hole`.
fn vert_in(hole: &Vec<VertId>, x: VertId) -> (b: bool)
    ensures
        b == hole@.contains(x),
{
    let n = hole.len();
    let mut i: usize = 0;
    while i < n
        invariant
            n == hole@.len(),
            i <= n,
            forall|j: int| 0 <= j < i ==> hole@[j] != x,
        decreases n - i,
    {
        if hole[i] == x {
            return true;
        }
        i += 1;
    }
    false
}

/// Whether every vertex of `v` is among `hole`.
fn all_verts_in(v: &Vec<VertId>, hole: &Vec<VertId>) -> (b: bool)
    ensures
        b == (forall|k: int| 0 <= k < v@.len() ==> hole@.contains(#[trigger] v@[k])),
{
    let n = v.len();
    let mut i: usize = 0;
    while i < n
        invariant
            n == v@.len(),
            i <= n,
            forall|k: int| 0 <= k < i ==> hole@.contains(#[trigger] v@[k]),
        decreases n - i,
    {
        if !vert_in(hole, v[i]) {
            return false;
        }
        i += 1;
    }
    true
}

/// The two meshes hold the same values.
pub open spec fn same_mesh(a: Mesh, b: Mesh) -> bool {
    &&& a.verts@ == b.verts@
    &&& a.hes@ == b.hes@
    &&& a.edges@ == b.edges@
    &&& a.faces@ == b.faces@
}

/// `new` is `old` with its dangling wires pruned when `cleanup` is set, and
/// `old` unchanged with no counts otherwise.
pub open spec fn cleaned(old: Mesh, new: Mesh, cleanup: bool, n_edges: nat, n_verts: nat) -> bool {
    if cleanup {
        wires_pruned(old, new, n_edges, n_verts)
    } else {
        same_mesh(old, new) && n_edges == 0 && n_verts == 0
    }
}

/// The start of the first loop of `ls`, from the `i`-th on, that does not
/// close.
pub open spec fn first_open_loop(hes: Seq<HalfEdge>, ls: Seq<LoopRef>, i: nat) -> Option<HeId>
    decreases ls.len() - i,
{
    if i >= ls.len() {
        None
    } else if !loop_closes(hes, ls[i as int].start) {
        Some(ls[i as int].start)
    } else {
        first_open_loop(hes, ls, i + 1)
    }
}

/// The vertices of the closed loop at `st`.
pub open spec fn closed_verts(m: Mesh, st: HeId) -> Seq<VertId> {
    loop_verts(m.hes@, st, loop_len(m.hes@, st))
}

/// The faces removed when hole loop `k` of `ring` is erased: the ring, then
/// the face that filled the hole when there is one among `adj`.
pub open spec fn hole_removed_faces(m: Mesh, ring: FaceId, k: int, adj: Seq<FaceId>) -> Seq<FaceId> {
    let hole = closed_verts(m, m.faces@[ring.ix()].inners@[k].start);
    match sibling_of(m, ring, adj, hole, 0) {
        Some(s) => seq![ring, s],
        None => seq![ring],
    }
}

/// The vertices of the hole loops of `ring` other than the `k`-th, in order.
pub open spec fn kept_holes(m: Mesh, ring: FaceId, k: int) -> Seq<Seq<VertId>> {
    let ins = m.faces@[ring.ix()].inners@;
    Seq::new(ins.len(), |q: int| closed_verts(m, ins[q].start)).remove(k)
}

/// Erasing edge `e`, on hole loop `k` of face `ring`, with the faces `adj`
/// round it, took `old` to `new` with result `r`. When a loop of the ring
/// does not close, the first such gives the error and nothing changes.
/// Otherwise the ring and the face that filled the hole are soft-removed
/// and the edge removed; then a face is added with the ring's outer loop
/// and its other holes, and on success the dangling wires are pruned on
/// request.
pub open spec fn hole_erased(
    old: Mesh,
    new: Mesh,
    ring: FaceId,
    k: int,
    e: EdgeId,
    adj: Seq<FaceId>,
    material: MaterialId,
    cleanup: bool,
    r: Result<EraseStep, MeshError>,
) -> bool {
    let rf = old.faces@[ring.ix()];
    match first_open_loop(old.hes@, seq![rf.outer] + rf.inners@, 0) {
        Some(st) => r == Err::<EraseStep, MeshError>(loop_error(old, st)) && same_mesh(old, new),
        None => {
            let fs = hole_removed_faces(old, ring, k, adj);
            let outer = closed_verts(old, rf.outer.start);
            let holes = kept_holes(old, ring, k);
            exists|mid: Mesh|
                #[trigger] faces_and_edge_removed(old, mid, fs, e) && mid.wf() && match r {
                    Ok(EraseStep::Done(res)) => {
                        &&& res.removed_faces@ == fs
                        &&& res.new_faces@.len() == 1
                        &&& exists|added: Mesh|
                            #[trigger] face_added(mid, added, outer, holes, material, Ok(res.new_faces@[0])) && added.wf()
                                && cleaned(added, new, cleanup, res.cleaned_edges as nat, res.cleaned_verts as nat)
                    },
                    Ok(EraseStep::Resynthesize { .. }) => false,
                    Err(x) => face_added(mid, new, outer, holes, material, Err(x)),
                }
        },
    }
}

/// Erasing edge `e`, with no hole loop round it found to hold it and the
/// faces `adj` round it, took `old` to `new` with result `r`: those faces
/// are soft-removed and the edge removed, and the result lists them and the
/// seed vertices of the synthesis still to be done, in increasing order.
pub open spec fn region_erased(old: Mesh, new: Mesh, e: EdgeId, adj: Seq<FaceId>, r: Result<EraseStep, MeshError>) -> bool {
    &&& faces_and_edge_removed(old, new, adj, e)
    &&& r matches Ok(EraseStep::Resynthesize { removed_faces, seed_verts })
    &&& removed_faces@ == adj
    &&& ids_increasing(seed_verts@)
    &&& forall|v: VertId| #[trigger] seed_verts@.contains(v) <==> is_seed(old, e, adj, v)
}

/// Some face of `fs` has `h` on one of its closed loops.
pub open spec fn on_loops_of(m: Mesh, fs: Seq<FaceId>, h: HeId) -> bool {
    exists|a: int| 0 <= a < fs.len() && #[trigger] on_face_loop(m, fs[a], h)
}

/// `new` is `old` with the faces of `fs` soft-removed.
pub open spec fn faces_soft_removed(old: Mesh, new: Mesh, fs: Seq<FaceId>) -> bool {
    &&& new.verts@ == old.verts@
    &&& new.edges@ == old.edges@
    &&& new.faces@.len() == old.faces@.len()
    &&& forall|g: int|
        0 <= g < old.faces@.len() ==> #[trigger] new.faces@[g] == (if fs.contains(FaceId { id: g as u32 }) {
            Face { present: false, ..old.faces@[g] }
        } else {
            old.faces@[g]
        })
    &&& new.hes@.len() == old.hes@.len()
    &&& forall|i: int|
        0 <= i < old.hes@.len() ==> #[trigger] new.hes@[i] == (if on_loops_of(old, fs, HeId { id: i as u32 }) {
            detached(old.hes@[i])
        } else {
            old.hes@[i]
        })
}

/// `new` is `old` with the faces of `fs` soft-removed, and the edge `e`
/// removed with every half-edge on it.
pub open spec fn faces_and_edge_removed(old: Mesh, new: Mesh, fs: Seq<FaceId>, e: EdgeId) -> bool {
    &&& new.verts@ == old.verts@
    &&& new.edges@ == old.edges@.update(e.ix(), Edge { alive: false, ..old.edges@[e.ix()] })
    &&& new.faces@.len() == old.faces@.len()
    &&& forall|g: int|
        0 <= g < old.faces@.len() ==> #[trigger] new.faces@[g] == (if fs.contains(FaceId { id: g as u32 }) {
            Face { present: false, ..old.faces@[g] }
        } else {
            old.faces@[g]
        })
    &&& new.hes@.len() == old.hes@.len()
    &&& forall|i: int|
        0 <= i < old.hes@.len() ==> #[trigger] new.hes@[i] == ({
            let h = if on_loops_of(old, fs, HeId { id: i as u32 }) {
                detached(old.hes@[i])
            } else {
                old.hes@[i]
            };
            if old.hes@[i].edge == e {
                HalfEdge { alive: false, ..h }
            } else {
                h
            }
        })
}

/// The loops of face `f` are the same in two meshes that agree on the
/// face's loop starts and on the `next` links.
pub proof fn lemma_face_loops_same(a: Mesh, b: Mesh, f: FaceId)
    requires
        a.wf(),
        a.hes@.len() == b.hes@.len(),
        forall|i: int| 0 <= i < a.hes@.len() ==> (#[trigger] a.hes@[i]).next == b.hes@[i].next,
        0 <= f.ix() < a.faces@.len(),
        0 <= f.ix() < b.faces@.len(),
        a.faces@[f.ix()].outer == b.faces@[f.ix()].outer,
        a.faces@[f.ix()].inners@ == b.faces@[f.ix()].inners@,
    ensures
        forall|h: HeId| #[trigger] on_face_loop(a, f, h) == on_face_loop(b, f, h),
{
    let fa = a.faces@[f.ix()];
    assert forall|i: int| 0 <= i < a.hes@.len() implies 0 <= (#[trigger] a.hes@[i]).next.ix() < a.hes@.len() by {}
    lemma_loops_same_links(a.hes@, b.hes@, fa.outer.start);
    assert forall|h: HeId| #[trigger] on_face_loop(a, f, h) == on_face_loop(b, f, h) by {
        if on_face_loop(a, f, h) && !crate::mesh::on_loop(a.hes@, fa.outer.start, h) {
            let k = choose|k: int| 0 <= k < fa.inners@.len() && crate::mesh::on_loop(a.hes@, (#[trigger] fa.inners@[k]).start, h);
            lemma_loops_same_links(a.hes@, b.hes@, fa.inners@[k].start);
            assert(crate::mesh::on_loop(b.hes@, b.faces@[f.ix()].inners@[k].start, h));
        }
        if on_face_loop(b, f, h) && !crate::mesh::on_loop(b.hes@, fa.outer.start, h) {
            let k = choose|k: int| 0 <= k < fa.inners@.len() && crate::mesh::on_loop(b.hes@, (#[trigger] fa.inners@[k]).start, h);
            lemma_loops_same_links(a.hes@, b.hes@, fa.inners@[k].start);
            assert(crate::mesh::on_loop(a.hes@, a.faces@[f.ix()].inners@[k].start, h));
        }
    }
}

impl Mesh {
    /// Soft-removes the faces of `fs`, all present and each once, then
    /// removes the live edge `e` with its half-edges.
    fn remove_faces_and_edge(&mut self, fs: &Vec<FaceId>, e: EdgeId)
        requires
            old(self).wf(),
            old(self).edge_alive(e),
            fs@.no_duplicates(),
            forall|a: int| 0 <= a < fs@.len() ==> old(self).face_present(#[trigger] fs@[a]),
        ensures
            final(self).wf(),
            faces_and_edge_removed(*old(self), *final(self), fs@, e),
    {
        let ghost m0 = *self;
        let n = fs.len();
        let mut k: usize = 0;
        proof {
            assert forall|h: HeId| !on_loops_of(m0, fs@.take(0), h) by {}
            assert forall|x: FaceId| !#[trigger] fs@.take(0).contains(x) by {}
        }
        while k < n
            invariant
                self.wf(),
                m0.wf(),
                m0.edge_alive(e),
                n == fs@.len(),
                k <= n,
                fs@.no_duplicates(),
                forall|a: int| 0 <= a < fs@.len() ==> m0.face_present(#[trigger] fs@[a]),
                faces_soft_removed(m0, *self, fs@.take(k as int)),
            decreases n - k,
        {
            let f = fs[k];
            let ghost cur = *self;
            let ghost tk = fs@.take(k as int);
            proof {
                assert(fs@[k as int] == f);
                assert(m0.face_present(f));
                if tk.contains(f) {
                    let q = choose|q: int| 0 <= q < tk.len() && tk[q] == f;
                    assert(fs@[q] == fs@[k as int]);
                }
                assert(FaceId { id: f.ix() as u32 } == f);
                assert(cur.faces@[f.ix()] == m0.faces@[f.ix()]);
                assert forall|i: int| 0 <= i < m0.hes@.len() implies (#[trigger] m0.hes@[i]).next == cur.hes@[i].next by {
                    assert(cur.hes@[i] == (if on_loops_of(m0, tk, HeId { id: i as u32 }) {
                        detached(m0.hes@[i])
                    } else {
                        m0.hes@[i]
                    }));
                }
                lemma_face_loops_same(m0, cur, f);
            }
            let _ = self.soft_remove_face(f);
            proof {
                let t1 = fs@.take(k + 1);
                assert(t1 =~= tk.push(f));
                assert forall|g: int| 0 <= g < m0.faces@.len() implies #[trigger] self.faces@[g] == (if t1.contains(
                    FaceId { id: g as u32 },
                ) {
                    Face { present: false, ..m0.faces@[g] }
                } else {
                    m0.faces@[g]
                }) by {
                    let x = FaceId { id: g as u32 };
                    if g == f.ix() {
                        assert(x == f);
                        assert(t1[k as int] == f);
                    } else {
                        assert(x != f);
                        if t1.contains(x) {
                            let q = choose|q: int| 0 <= q < t1.len() && t1[q] == x;
                            assert(tk[q] == x);
                        }
                        if tk.contains(x) {
                            let q = choose|q: int| 0 <= q < tk.len() && tk[q] == x;
                            assert(t1[q] == x);
                        }
                    }
                }
                assert forall|i: int| 0 <= i < m0.hes@.len() implies #[trigger] self.hes@[i] == (if on_loops_of(
                    m0,
                    t1,
                    HeId { id: i as u32 },
                ) {
                    detached(m0.hes@[i])
                } else {
                    m0.hes@[i]
                }) by {
                    let x = HeId { id: i as u32 };
                    if on_loops_of(m0, t1, x) {
                        let q = choose|q: int| 0 <= q < t1.len() && #[trigger] on_face_loop(m0, t1[q], x);
                        if q < k {
                            assert(tk[q] == t1[q]);
                            assert(on_loops_of(m0, tk, x));
                        } else {
                            assert(on_face_loop(cur, f, x));
                        }
                    }
                    if on_loops_of(m0, tk, x) {
                        let q = choose|q: int| 0 <= q < tk.len() && #[trigger] on_face_loop(m0, tk[q], x);
                        assert(t1[q] == tk[q]);
                        assert(on_loops_of(m0, t1, x));
                    }
                    if on_face_loop(cur, f, x) {
                        assert(on_face_loop(m0, t1[k as int], x));
                        assert(on_loops_of(m0, t1, x));
                    }
                }
            }
            k += 1;
        }
        let ghost cur = *self;
        let _ = self.remove_edge_and_halfedges(e);
        proof {
            assert(fs@.take(n as int) =~= fs@);
        }
    }

    /// The vertices of the closed loop at `st`; none when it does not close.
    fn closed_loop_verts(&self, st: HeId) -> (r: Vec<VertId>)
        requires
            self.wf(),
        ensures
            forall|v: VertId| #[trigger] r@.contains(v) <==> loop_has_vert(*self, st, v),
    {
        match self.collect_loop_verts(st) {
            Ok(vs) => vs,
            Err(_) => Vec::new(),
        }
    }

    /// The seed vertices of the face synthesis after erasing `e` with the
    /// faces `adj` round it, in increasing order.
    fn collect_seed_verts(&self, e: EdgeId, adj: &Vec<FaceId>) -> (r: Vec<VertId>)
        requires
            self.wf(),
            self.valid_edge(e),
        ensures
            ids_increasing(r@),
            forall|v: VertId| #[trigger] r@.contains(v) <==> is_seed(*self, e, adj@, v),
    {
        let mut seeds: Vec<VertId> = Vec::new();
        let x = self.edges[e.id as usize];
        insert_sorted(&mut seeds, x.v0);
        insert_sorted(&mut seeds, x.v1);
        let na = adj.len();
        let mut a: usize = 0;
        while a < na
            invariant
                self.wf(),
                na == adj@.len(),
                a <= na,
                x == self.edges@[e.ix()],
                ids_increasing(seeds@),
                forall|v: VertId|
                    #[trigger] seeds@.contains(v) <==> (v == x.v0 || v == x.v1 || exists|b: int|
                        0 <= b < a && #[trigger] face_has_vert(*self, adj@[b], v)),
            decreases na - a,
        {
            let fid = adj[a];
            let ghost sb = seeds@;
            if (fid.id as usize) < self.faces.len() && self.faces[fid.id as usize].present {
                let fi = fid.id as usize;
                let outer = self.closed_loop_verts(self.faces[fi].outer.start);
                insert_all_sorted(&mut seeds, &outer);
                let ni = self.faces[fi].inners.len();
                let mut k: usize = 0;
                while k < ni
                    invariant
                        self.wf(),
                        fi == fid.ix(),
                        0 <= fi < self.faces@.len(),
                        ni == self.faces@[fi as int].inners@.len(),
                        k <= ni,
                        ids_increasing(seeds@),
                        forall|v: VertId|
                            #[trigger] seeds@.contains(v) <==> (sb.contains(v) || loop_has_vert(
                                *self,
                                self.faces@[fi as int].outer.start,
                                v,
                            ) || exists|q: int|
                                0 <= q < k && loop_has_vert(*self, (#[trigger] self.faces@[fi as int].inners@[q]).start, v)),
                    decreases ni - k,
                {
                    let vs = self.closed_loop_verts(self.faces[fi].inners[k].start);
                    let ghost sk = seeds@;
                    insert_all_sorted(&mut seeds, &vs);
                    proof {
                        let ins = self.faces@[fi as int].inners@;
                        assert forall|v: VertId| #[trigger] seeds@.contains(v) <==> (sb.contains(v) || loop_has_vert(
                            *self,
                            self.faces@[fi as int].outer.start,
                            v,
                        ) || exists|q: int| 0 <= q < k + 1 && loop_has_vert(*self, (#[trigger] ins[q]).start, v)) by {
                            if exists|q: int| 0 <= q < k + 1 && loop_has_vert(*self, (#[trigger] ins[q]).start, v) {
                                let q = choose|q: int| 0 <= q < k + 1 && loop_has_vert(*self, (#[trigger] ins[q]).start, v);
                                if q < k {
                                    assert(exists|q: int| 0 <= q < k && loop_has_vert(*self, (#[trigger] ins[q]).start, v));
                                }
                            }
                            if exists|q: int| 0 <= q < k && loop_has_vert(*self, (#[trigger] ins[q]).start, v) {
                                let q = choose|q: int| 0 <= q < k && loop_has_vert(*self, (#[trigger] ins[q]).start, v);
                                assert(0 <= q < k + 1 && loop_has_vert(*self, ins[q].start, v));
                            }
                            if vs@.contains(v) {
                                assert(0 <= k < k + 1 && loop_has_vert(*self, ins[k as int].start, v));
                            }
                        }
                    }
                    k += 1;
                }
                proof {
                    assert forall|v: VertId| #[trigger] seeds@.contains(v) <==> (v == x.v0 || v == x.v1 || exists|b: int|
                        0 <= b < a + 1 && #[trigger] face_has_vert(*self, adj@[b], v)) by {
                        assert(adj@[a as int] == fid);
                        if face_has_vert(*self, fid, v) {
                            assert(0 <= a < a + 1 && face_has_vert(*self, adj@[a as int], v));
                        }
                        if exists|b: int| 0 <= b < a + 1 && #[trigger] face_has_vert(*self, adj@[b], v) {
                            let b = choose|b: int| 0 <= b < a + 1 && #[trigger] face_has_vert(*self, adj@[b], v);
                            if b < a {
                                assert(exists|b: int| 0 <= b < a && #[trigger] face_has_vert(*self, adj@[b], v));
                            } else {
                                assert(face_has_vert(*self, fid, v));
                            }
                        }
                        if exists|b: int| 0 <= b < a && #[trigger] face_has_vert(*self, adj@[b], v) {
                            let b = choose|b: int| 0 <= b < a && #[trigger] face_has_vert(*self, adj@[b], v);
                            assert(0 <= b < a + 1 && face_has_vert(*self, adj@[b], v));
                        }
                    }
                }
            } else {
                proof {
                    assert forall|v: VertId| #[trigger] seeds@.contains(v) <==> (v == x.v0 || v == x.v1 || exists|b: int|
                        0 <= b < a + 1 && #[trigger] face_has_vert(*self, adj@[b], v)) by {
                        assert(adj@[a as int] == fid);
                        assert(!face_has_vert(*self, fid, v));
                        if exists|b: int| 0 <= b < a + 1 && #[trigger] face_has_vert(*self, adj@[b], v) {
                            let b = choose|b: int| 0 <= b < a + 1 && #[trigger] face_has_vert(*self, adj@[b], v);
                            assert(b != a);
                            assert(exists|b: int| 0 <= b < a && #[trigger] face_has_vert(*self, adj@[b], v));
                        }
                        if exists|b: int| 0 <= b < a && #[trigger] face_has_vert(*self, adj@[b], v) {
                            let b = choose|b: int| 0 <= b < a && #[trigger] face_has_vert(*self, adj@[b], v);
                            assert(0 <= b < a + 1 && face_has_vert(*self, adj@[b], v));
                        }
                    }
                }
            }
            a += 1;
        }
        seeds
    }

    /// The first of `adj`, other than `ring`, that can be the face that
    /// filled the hole `hole`.
    fn find_sibling(&self, ring: FaceId, adj: &[FaceId], hole: &Vec<VertId>) -> (r: Option<FaceId>)
        requires
            self.wf(),
        ensures
            r == sibling_of(*self, ring, adj@, hole@, 0),
            r matches Some(x) ==> x != ring && sibling_fits(*self, x, hole@),
    {
        let n = adj.len();
        let mut a: usize = 0;
        while a < n
            invariant
                self.wf(),
                n == adj@.len(),
                a <= n,
                sibling_of(*self, ring, adj@, hole@, 0) == sibling_of(*self, ring, adj@, hole@, a as nat),
            decreases n - a,
        {
            let fid = adj[a];
            if fid != ring && (fid.id as usize) < self.faces.len() && self.faces[fid.id as usize].present
                && self.faces[fid.id as usize].inners.len() == 0 {
                match self.collect_loop_verts(self.faces[fid.id as usize].outer.start) {
                    Ok(v) => {
                        if v.len() == hole.len() && all_verts_in(&v, hole) {
                            return Some(fid);
                        }
                    },
                    Err(_) => {},
                }
            }
            a += 1;
        }
        None
    }

    /// The vertices of the outer loop of `ring`, of its hole loops other
    /// than `hole_idx`, and of hole loop `hole_idx`; the error of the first
    /// loop that does not close.
    fn ring_loop_verts(&self, ring: FaceId, hole_idx: usize) -> (r: Result<(Vec<VertId>, Vec<Vec<VertId>>, Vec<VertId>), MeshError>)
        requires
            self.wf(),
            self.face_present(ring),
            hole_idx < self.faces@[ring.ix()].inners@.len(),
        ensures
            ({
                let rf = self.faces@[ring.ix()];
                match first_open_loop(self.hes@, seq![rf.outer] + rf.inners@, 0) {
                    Some(st) => r == Err::<(Vec<VertId>, Vec<Vec<VertId>>, Vec<VertId>), MeshError>(loop_error(*self, st)),
                    None => r matches Ok((o, keep, hole)) && o@ == closed_verts(*self, rf.outer.start) && hole_views(keep@)
                        == kept_holes(*self, ring, hole_idx as int) && hole@ == closed_verts(
                        *self,
                        rf.inners@[hole_idx as int].start,
                    ),
                }
            }),
    {
        let ri = ring.id as usize;
        let ghost rf = self.faces@[ri as int];
        let ghost ls = seq![rf.outer] + rf.inners@;
        let outer_start = self.faces[ri].outer.start;
        assert(ls[0] == rf.outer);
        let outer_verts = match self.collect_loop_verts(outer_start) {
            Ok(v) => v,
            Err(x) => {
                return Err(x);
            },
        };
        let ni = self.faces[ri].inners.len();
        let ghost all = Seq::new(rf.inners@.len(), |q: int| closed_verts(*self, rf.inners@[q].start));
        let mut keep_holes: Vec<Vec<VertId>> = Vec::new();
        let mut removed_hole_verts: Vec<VertId> = Vec::new();
        let mut i: usize = 0;
        while i < ni
            invariant
                self.wf(),
                ri == ring.ix(),
                0 <= ri < self.faces@.len(),
                rf == self.faces@[ri as int],
                ls == seq![rf.outer] + rf.inners@,
                ni == rf.inners@.len(),
                all == Seq::new(rf.inners@.len(), |q: int| closed_verts(*self, rf.inners@[q].start)),
                hole_idx < ni,
                i <= ni,
                first_open_loop(self.hes@, ls, 0) == first_open_loop(self.hes@, ls, (i + 1) as nat),
                keep_holes@.len() == (if i <= hole_idx { i as int } else { i - 1 }),
                forall|q: int|
                    0 <= q < keep_holes@.len() ==> (#[trigger] keep_holes@[q])@ == all[if q < hole_idx { q } else { q + 1 }],
                i > hole_idx ==> removed_hole_verts@ == all[hole_idx as int],
            decreases ni - i,
        {
            assert(ls[i + 1] == rf.inners@[i as int]);
            let verts = match self.collect_loop_verts(self.faces[ri].inners[i].start) {
                Ok(v) => v,
                Err(x) => {
                    return Err(x);
                },
            };
            if i == hole_idx {
                removed_hole_verts = verts;
            } else {
                keep_holes.push(verts);
            }
            i += 1;
        }
        proof {
            assert(hole_views(keep_holes@) =~= kept_holes(*self, ring, hole_idx as int));
        }
        Ok((outer_verts, keep_holes, removed_hole_verts))
    }

    /// Erases edge `edge_id`, which lies on hole loop `hole_idx` of face
    /// `ring_fid`: the ring is rebuilt without that hole, and the face that
    /// filled it is removed.
    fn rebuild_after_hole_edge_erase(
        &mut self,
        ring_fid: FaceId,
        hole_idx: usize,
        edge_id: EdgeId,
        adjacent: &[FaceId],
        material: MaterialId,
        cleanup_dangling: bool,
    ) -> (r: Result<EraseStep, MeshError>)
        requires
            old(self).wf(),
            old(self).face_present(ring_fid),
            hole_idx < old(self).faces@[ring_fid.ix()].inners@.len(),
            old(self).edge_alive(edge_id),
        ensures
            final(self).wf(),
            hole_erased(*old(self), *final(self), ring_fid, hole_idx as int, edge_id, adjacent@, material, cleanup_dangling, r),
    {
        let ghost m0 = *self;
        let ghost rf = m0.faces@[ring_fid.ix()];
        let (outer_verts, keep_holes, removed_hole_verts) = match self.ring_loop_verts(ring_fid, hole_idx) {
            Ok(t) => t,
            Err(x) => {
                return Err(x);
            },
        };
        let sibling = self.find_sibling(ring_fid, adjacent, &removed_hole_verts);
        let mut removed_faces: Vec<FaceId> = Vec::new();
        removed_faces.push(ring_fid);
        match sibling {
            Some(sf) => {
                removed_faces.push(sf);
            },
            None => {},
        }
        proof {
            assert(removed_faces@ =~= hole_removed_faces(m0, ring_fid, hole_idx as int, adjacent@));
        }
        self.remove_faces_and_edge(&removed_faces, edge_id);
        let ghost mid = *self;
        let new_fid = match self.add_face_with_holes(outer_verts.as_slice(), keep_holes.as_slice(), material) {
            Ok(f) => f,
            Err(x) => {
                assert(faces_and_edge_removed(m0, mid, removed_faces@, edge_id));
                return Err(x);
            },
        };
        let ghost added = *self;
        let (ce, cv) = if cleanup_dangling {
            self.cleanup_dangling()
        } else {
            (0, 0)
        };
        let mut new_faces: Vec<FaceId> = Vec::new();
        new_faces.push(new_fid);
        let res = EraseResynthResult { removed_faces, new_faces, cleaned_edges: ce, cleaned_verts: cv };
        proof {
            assert(faces_and_edge_removed(m0, mid, res.removed_faces@, edge_id));
            assert(res.new_faces@[0] == new_fid);
            assert(face_added(mid, added, outer_verts@, hole_views(keep_holes@), material, Ok(new_fid)));
            assert(cleaned(added, *self, cleanup_dangling, res.cleaned_edges as nat, res.cleaned_verts as nat));
            assert(res.removed_faces@ == hole_removed_faces(m0, ring_fid, hole_idx as int, adjacent@));
            assert(first_open_loop(m0.hes@, seq![rf.outer] + rf.inners@, 0) is None);
            assert(face_added(mid, added, closed_verts(m0, rf.outer.start), kept_holes(m0, ring_fid, hole_idx as int),
                material, Ok(res.new_faces@[0])));
            assert(faces_and_edge_removed(m0, mid, hole_removed_faces(m0, ring_fid, hole_idx as int, adjacent@), edge_id));
            assert(mid.wf());
            assert(added.wf());
            let outer = closed_verts(m0, rf.outer.start);
            let holes = kept_holes(m0, ring_fid, hole_idx as int);
            assert(exists|a2: Mesh|
                #[trigger] face_added(mid, a2, outer, holes, material, Ok(res.new_faces@[0])) && a2.wf()
                    && cleaned(a2, *self, cleanup_dangling, res.cleaned_edges as nat, res.cleaned_verts as nat));
        }
        let r: Result<EraseStep, MeshError> = Ok(EraseStep::Done(res));
        proof {
            assert(m0 == *old(self));
            assert(first_open_loop(m0.hes@, seq![rf.outer] + rf.inners@, 0) is None);
            assert(faces_and_edge_removed(m0, mid, hole_removed_faces(m0, ring_fid, hole_idx as int, adjacent@), edge_id)
                && mid.wf() && match r {
                Ok(EraseStep::Done(res)) => {
                    &&& res.removed_faces@ == hole_removed_faces(m0, ring_fid, hole_idx as int, adjacent@)
                    &&& res.new_faces@.len() == 1
                    &&& exists|added: Mesh|
                        #[trigger] face_added(mid, added, closed_verts(m0, rf.outer.start), kept_holes(m0, ring_fid, hole_idx as int), material, Ok(res.new_faces@[0])) && added.wf()
                            && cleaned(added, *self, cleanup_dangling, res.cleaned_edges as nat, res.cleaned_verts as nat)
                },
                Ok(EraseStep::Resynthesize { .. }) => false,
                Err(x) => false,
            });
        }
        r
    }

    /// Erases edge `edge_id` and starts re-synthesizing the faces round it.
    ///
    /// The faces round the edge are those owning a live half-edge on it. If
    /// a hole loop of one of them holds the edge, that hole is erased (see
    /// `hole_erased`) and the step is done. Otherwise those faces and the
    /// edge are removed, and the step lists the seed vertices of the face
    /// synthesis still to be done (see `region_erased`).
    pub fn erase_edge_resynthesize(
        &mut self,
        edge_id: EdgeId,
        material: MaterialId,
        cleanup_dangling: bool,
    ) -> (r: Result<EraseStep, MeshError>)
        requires
            old(self).wf(),
        ensures
            final(self).wf(),
            !old(self).edge_alive(edge_id) ==> r == Err::<EraseStep, MeshError>(MeshError::EdgeNotFound(edge_id))
                && same_mesh(*old(self), *final(self)),
            old(self).edge_alive(edge_id) ==> ({
                let adj = faces_on_edge_upto(*old(self), edge_id, old(self).hes@.len() as nat);
                match hole_owner(*old(self), adj, edge_id, 0) {
                    Some((ring, k)) => hole_erased(
                        *old(self),
                        *final(self),
                        ring,
                        k,
                        edge_id,
                        adj,
                        material,
                        cleanup_dangling,
                        r,
                    ),
                    None => region_erased(*old(self), *final(self), edge_id, adj, r),
                }
            }),
    {
        if edge_id.id as usize >= self.edges.len() || !self.edges[edge_id.id as usize].alive {
            return Err(MeshError::EdgeNotFound(edge_id));
        }
        let adjacent = self.get_faces_sharing_edge(edge_id);
        match self.find_hole_loop_owner(adjacent.as_slice(), edge_id) {
            Some((ring, k)) => {
                return self.rebuild_after_hole_edge_erase(ring, k, edge_id, adjacent.as_slice(), material, cleanup_dangling);
            },
            None => {},
        }
        let seed_verts = self.collect_seed_verts(edge_id, &adjacent);
        proof {
            assert forall|a: int| 0 <= a < adjacent@.len() implies self.face_present(#[trigger] adjacent@[a]) by {
                assert(adjacent@.contains(adjacent@[a]));
            }
        }
        self.remove_faces_and_edge(&adjacent, edge_id);
        Ok(EraseStep::Resynthesize { removed_faces: adjacent, seed_verts })
    }

    /// Completes an erasure that left faces to synthesize: records the
    /// faces removed and those synthesized, and prunes the dangling wires on
    /// request.
    pub fn finish_erase_resynthesize(
        &mut self,
        removed_faces: Vec<FaceId>,
        new_faces: Vec<FaceId>,
        cleanup_dangling: bool,
    ) -> (r: EraseResynthResult)
        requires
            old(self).wf(),
        ensures
            final(self).wf(),
            r.removed_faces@ == removed_faces@,
            r.new_faces@ == new_faces@,
            cleaned(*old(self), *final(self), cleanup_dangling, r.cleaned_edges as nat, r.cleaned_verts as nat),
    {
        let (cleaned_edges, cleaned_verts) = if cleanup_dangling {
            self.cleanup_dangling()
        } else {
            (0, 0)
        };
        EraseResynthResult { removed_faces, new_faces, cleaned_edges, cleaned_verts }
    }

    /// Whether the loop at `start` holds a half-edge on `e` within the scan
    /// limit (`None` when it meets a half-edge that is not live).
    fn scan_hole_loop(&self, start: HeId, e: EdgeId) -> (r: Option<bool>)
        ensures
            r == scan_loop(self.hes@, start, start, e, HOLE_SCAN_LIMIT as nat),
    {
        let mut h = start;
        let mut guard: usize = 0;
        loop
            invariant
                guard <= HOLE_SCAN_LIMIT,
                scan_loop(self.hes@, start, start, e, HOLE_SCAN_LIMIT as nat) == scan_loop(
                    self.hes@,
                    start,
                    h,
                    e,
                    (HOLE_SCAN_LIMIT - guard) as nat,
                ),
            decreases HOLE_SCAN_LIMIT - guard,
        {
            guard += 1;
            if guard > HOLE_SCAN_LIMIT {
                return Some(false);
            }
            if h.id as usize >= self.hes.len() || !self.hes[h.id as usize].alive {
                return None;
            }
            let he = self.hes[h.id as usize];
            if he.edge == e {
                return Some(true);
            }
            h = he.next;
            if h == start {
                return Some(false);
            }
        }
    }

    /// The first of `adjacent_faces` with a hole loop holding a half-edge on
    /// `edge_id`, and the index of that loop.
    fn find_hole_loop_owner(&self, adjacent_faces: &[FaceId], edge_id: EdgeId) -> (r: Option<(FaceId, usize)>)
        requires
            self.wf(),
        ensures
            match r {
                Some((f, k)) => hole_owner(*self, adjacent_faces@, edge_id, 0) == Some((f, k as int)),
                None => hole_owner(*self, adjacent_faces@, edge_id, 0) is None,
            },
            r matches Some((f, k)) ==> self.face_present(f) && k < self.faces@[f.ix()].inners@.len(),
    {
        let na = adjacent_faces.len();
        let mut a: usize = 0;
        while a < na
            invariant
                self.wf(),
                na == adjacent_faces@.len(),
                a <= na,
                hole_owner(*self, adjacent_faces@, edge_id, 0) == hole_owner(*self, adjacent_faces@, edge_id, a as nat),
            decreases na - a,
        {
            let fid = adjacent_faces[a];
            if fid.id as usize >= self.faces.len() || !self.faces[fid.id as usize].present {
                return None;
            }
            let ni = self.faces[fid.id as usize].inners.len();
            let mut i: usize = 0;
            while i < ni
                invariant
                    self.wf(),
                    na == adjacent_faces@.len(),
                    a < na,
                    fid == adjacent_faces@[a as int],
                    self.face_present(fid),
                    hole_owner(*self, adjacent_faces@, edge_id, 0) == hole_owner(*self, adjacent_faces@, edge_id, a as nat),
                    0 <= fid.ix() < self.faces@.len(),
                    ni == self.faces@[fid.ix()].inners@.len(),
                    i <= ni,
                    scan_holes(*self, fid, edge_id, 0) == scan_holes(*self, fid, edge_id, i as nat),
                decreases ni - i,
            {
                let start = self.faces[fid.id as usize].inners[i].start;
                match self.scan_hole_loop(start, edge_id) {
                    None => {
                        return None;
                    },
                    Some(true) => {
                        return Some((fid, i));
                    },
                    Some(false) => {},
                }
                i += 1;
            }
            a += 1;
        }
        None
    }
}

} // verus!
