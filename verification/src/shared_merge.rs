//! Merging two faces that share several outer edges into one face.
//!
//! The edges of the two outer loops are matched up, shared ones (the same
//! two vertices, in either direction) are dropped, and the boundary of the
//! union is walked along the remaining edges. The walk may then be
//! simplified and turned round on coordinates by the caller; the two faces
//! and the shared edges are then replaced by one face bounded by the walk,
//! which keeps the holes of both.

use vstd::prelude::*;
use crate::ids::{VertId, FaceId, EdgeId, HeId, MaterialId, NULL_RAW};
use crate::mesh::{Mesh, MeshError, Edge, HalfEdge, Face, loop_closes, loop_len, loop_verts, loop_error, edge_joins, face_added, hole_views};
use crate::offset::{on_face_loop, released};
use crate::cleanup::wires_pruned;
use crate::smooth_group::outer_loop_verts;
use crate::face_count::{present_faces, lemma_present_removed, lemma_present_added};

verus! {

/// Why two faces cannot be merged along their shared edges.
#[derive(Clone, Copy, Debug, PartialEq, Eq, Structural)]
pub enum SharedMergeError {
    /// An outer loop has fewer than three vertices.
    LoopTooShort,
    /// The loops share no edge.
    NoSharedEdges,
    /// Every edge is shared: nothing bounds the union.
    EmptyGraph,
    /// The unshared edges do not form a simple cycle: this vertex has this
    /// many of them.
    NonSimpleBoundary(VertId, usize),
    /// The walk along the unshared edges does not come back in time.
    WalkOverflow,
    /// The walk came back before passing every unshared edge: the shared
    /// edges lie in separate regions, and the unshared ones form more than
    /// one cycle.
    SeparateRegions,
}

/// The edges of a loop, from each vertex to the next.
pub open spec fn loop_edge_pairs(v: Seq<VertId>) -> Seq<(VertId, VertId)> {
    Seq::new(v.len(), |i: int| (v[i], v[(i + 1) % (v.len() as int)]))
}

/// The two edges join the same two vertices, in either direction.
pub open spec fn same_undirected(a: (VertId, VertId), b: (VertId, VertId)) -> bool {
    (a.0 == b.0 && a.1 == b.1) || (a.0 == b.1 && a.1 == b.0)
}

/// The first edge of `e2` from `from` on, not yet matched, joining the
/// same vertices as `e`; the length of `e2` if none.
pub open spec fn first_match(e: (VertId, VertId), e2: Seq<(VertId, VertId)>, m2: Seq<bool>, from: nat) -> nat
    decreases e2.len() - from,
{
    if from >= e2.len() {
        e2.len()
    } else if !m2[from as int] && same_undirected(e, e2[from as int]) {
        from
    } else {
        first_match(e, e2, m2, from + 1)
    }
}

/// Which edges of each loop are shared, after matching the first `i`
/// edges of `e1`, each with the first unmatched edge of `e2` joining the
/// same vertices.
pub open spec fn marks_upto(e1: Seq<(VertId, VertId)>, e2: Seq<(VertId, VertId)>, i: nat) -> (Seq<bool>, Seq<bool>)
    decreases i,
{
    if i == 0 {
        (Seq::new(e1.len(), |k: int| false), Seq::new(e2.len(), |k: int| false))
    } else {
        let (m1, m2) = marks_upto(e1, e2, (i - 1) as nat);
        let j = first_match(e1[i - 1], e2, m2, 0);
        if j < e2.len() {
            (m1.update(i - 1, true), m2.update(j as int, true))
        } else {
            (m1, m2)
        }
    }
}

/// The edges of `e` not marked shared, in order.
pub open spec fn unshared(e: Seq<(VertId, VertId)>, m: Seq<bool>) -> Seq<(VertId, VertId)>
    decreases e.len(),
{
    if e.len() == 0 {
        Seq::empty()
    } else {
        let p = unshared(e.drop_last(), m);
        if m[e.len() - 1] {
            p
        } else {
            p.push(e.last())
        }
    }
}

/// The neighbours of `v` along the edges `g`, in the order the edges come,
/// an edge from `v` to itself giving `v` twice.
pub open spec fn neighbours(g: Seq<(VertId, VertId)>, v: VertId) -> Seq<VertId>
    decreases g.len(),
{
    if g.len() == 0 {
        Seq::empty()
    } else {
        let p = neighbours(g.drop_last(), v);
        let e = g.last();
        let p1 = if e.0 == v { p.push(e.1) } else { p };
        if e.1 == v { p1.push(e.0) } else { p1 }
    }
}

/// `v` is an end of some edge of `g`.
pub open spec fn on_graph(g: Seq<(VertId, VertId)>, v: VertId) -> bool {
    exists|k: int| 0 <= k < g.len() && ((#[trigger] g[k]).0 == v || g[k].1 == v)
}

/// The vertices met walking from `cur`, having come from `prev`, until
/// `start` is reached, each step leaving by the neighbour not come from;
/// `None` if more than `fuel` steps are needed.
pub open spec fn walk_until(g: Seq<(VertId, VertId)>, start: VertId, prev: VertId, cur: VertId, fuel: nat) -> Option<Seq<VertId>>
    decreases fuel,
{
    if cur == start {
        Some(Seq::empty())
    } else if fuel == 0 {
        None
    } else {
        let nb = neighbours(g, cur);
        let next = if nb[0] == prev { nb[1] } else { nb[0] };
        match walk_until(g, start, cur, next, (fuel - 1) as nat) {
            Some(rest) => Some(seq![cur] + rest),
            None => None,
        }
    }
}

/// The unshared edges of two loops: those of the first, then those of the
/// second.
pub open spec fn union_edges(v1: Seq<VertId>, v2: Seq<VertId>) -> Seq<(VertId, VertId)> {
    let e1 = loop_edge_pairs(v1);
    let e2 = loop_edge_pairs(v2);
    let (m1, m2) = marks_upto(e1, e2, e1.len());
    unshared(e1, m1) + unshared(e2, m2)
}

/// Some edge of the first loop is shared.
pub open spec fn shares_an_edge(v1: Seq<VertId>, v2: Seq<VertId>) -> bool {
    let e1 = loop_edge_pairs(v1);
    let e2 = loop_edge_pairs(v2);
    exists|i: int| 0 <= i < e1.len() && (#[trigger] marks_upto(e1, e2, e1.len()).0[i])
}

/// Every vertex of `g` has exactly two neighbours.
pub open spec fn all_valence_two(g: Seq<(VertId, VertId)>) -> bool {
    forall|v: VertId| on_graph(g, v) ==> #[trigger] neighbours(g, v).len() == 2
}

/// The boundary of the union walked from the first end of the first
/// unshared edge, or `None` if the walk does not come back in time. Read
/// where the unshared edges are not empty and all of valence two.
pub open spec fn union_walk(v1: Seq<VertId>, v2: Seq<VertId>) -> Option<Seq<VertId>> {
    let g = union_edges(v1, v2);
    let start = g[0].0;
    let max_iter = v1.len() + v2.len() + 4;
    match walk_until(g, start, start, neighbours(g, start)[0], (max_iter - 1) as nat) {
        Some(rest) => Some(seq![start] + rest),
        None => None,
    }
}

/// What `multi_shared_boundary` gives for loops `v1` and `v2`: the checks
/// in their order, then the walk.
pub open spec fn boundary_outcome(v1: Seq<VertId>, v2: Seq<VertId>, r: Result<Seq<VertId>, SharedMergeError>) -> bool {
    if v1.len() < 3 || v2.len() < 3 {
        r == Err::<Seq<VertId>, SharedMergeError>(SharedMergeError::LoopTooShort)
    } else {
        let g = union_edges(v1, v2);
        if !shares_an_edge(v1, v2) {
            r == Err::<Seq<VertId>, SharedMergeError>(SharedMergeError::NoSharedEdges)
        } else if g.len() == 0 {
            r == Err::<Seq<VertId>, SharedMergeError>(SharedMergeError::EmptyGraph)
        } else if !all_valence_two(g) {
            r matches Err(SharedMergeError::NonSimpleBoundary(v, c)) && on_graph(g, v) && neighbours(g, v).len() == c && c != 2
        } else {
            match union_walk(v1, v2) {
                Some(w) => if w.len() == g.len() {
                    r == Ok::<Seq<VertId>, SharedMergeError>(w)
                } else {
                    r == Err::<Seq<VertId>, SharedMergeError>(SharedMergeError::SeparateRegions)
                },
                None => r == Err::<Seq<VertId>, SharedMergeError>(SharedMergeError::WalkOverflow),
            }
        }
    }
}

/// Why two faces cannot be merged.
#[derive(Clone, Copy, Debug, PartialEq, Eq, Structural)]
pub enum MergeFacesError {
    SameFace,
    FaceNotFound(FaceId),
    FaceInactive(FaceId),
    NotCoplanar,
    /// An outer loop does not close.
    Loop(MeshError),
    Boundary(SharedMergeError),
    /// Fewer than three vertices are left after simplification.
    DegenerateAfterSimplify,
    /// The merged face cannot be added.
    Mesh(MeshError),
}

/// Vertex `i` of the walk is kept: flagged so, or past the flags.
pub open spec fn keep_at(keep: Seq<bool>, i: int) -> bool {
    i >= keep.len() || keep[i]
}

/// The vertices of `w` that are kept, in order.
pub open spec fn kept(w: Seq<VertId>, keep: Seq<bool>) -> Seq<VertId>
    decreases w.len(),
{
    if w.len() == 0 {
        Seq::empty()
    } else {
        let p = kept(w.drop_last(), keep);
        if keep_at(keep, w.len() - 1) {
            p.push(w.last())
        } else {
            p
        }
    }
}

/// The hole loops of face `f` among its first `k` inner loops that close
/// with at least three vertices.
pub open spec fn face_holes_upto(m: Mesh, f: FaceId, k: nat) -> Seq<Seq<VertId>>
    decreases k,
{
    if k == 0 {
        Seq::empty()
    } else {
        let p = face_holes_upto(m, f, (k - 1) as nat);
        let st = m.faces@[f.ix()].inners@[k - 1].start;
        if st.id != NULL_RAW && loop_closes(m.hes@, st) && loop_len(m.hes@, st) >= 3 {
            p.push(loop_verts(m.hes@, st, loop_len(m.hes@, st)))
        } else {
            p
        }
    }
}

/// The hole loops of face `f` that close with at least three vertices.
pub open spec fn face_holes(m: Mesh, f: FaceId) -> Seq<Seq<VertId>> {
    face_holes_upto(m, f, m.faces@[f.ix()].inners@.len())
}

/// The first live edge from slot `k` on joining `a` and `b`.
pub open spec fn first_joining(es: Seq<Edge>, a: VertId, b: VertId, k: nat) -> Option<EdgeId>
    decreases es.len() - k,
{
    if k >= es.len() {
        None
    } else if edge_joins(es[k as int], a, b) {
        Some(EdgeId { id: k as u32 })
    } else {
        first_joining(es, a, b, k + 1)
    }
}

/// The live edges of the first `i` shared loop edges, each the first
/// edge joining its vertices.
pub open spec fn shared_ids_upto(m: Mesh, e1: Seq<(VertId, VertId)>, m1: Seq<bool>, i: nat) -> Seq<EdgeId>
    decreases i,
{
    if i == 0 {
        Seq::empty()
    } else {
        let p = shared_ids_upto(m, e1, m1, (i - 1) as nat);
        let found = first_joining(m.edges@, e1[i - 1].0, e1[i - 1].1, 0);
        if m1[i - 1] && found is Some {
            p.push(found->0)
        } else {
            p
        }
    }
}

/// The edges of `m` the two loops share, in the order of the first loop.
pub open spec fn shared_edge_ids(m: Mesh, v1: Seq<VertId>, v2: Seq<VertId>) -> Seq<EdgeId> {
    let e1 = loop_edge_pairs(v1);
    let e2 = loop_edge_pairs(v2);
    shared_ids_upto(m, e1, marks_upto(e1, e2, e1.len()).0, e1.len())
}

/// Edge slot `i` is live and among `eids`.
pub open spec fn edge_killed(old: Mesh, eids: Seq<EdgeId>, i: int) -> bool {
    old.edges@[i].alive && eids.contains(EdgeId { id: i as u32 })
}

/// `new` is `old` with each live edge of `eids` and the half-edges on it
/// dead.
pub open spec fn edges_killed(old: Mesh, new: Mesh, eids: Seq<EdgeId>) -> bool {
    &&& new.verts@ == old.verts@
    &&& new.faces@ == old.faces@
    &&& new.edges@.len() == old.edges@.len()
    &&& new.hes@.len() == old.hes@.len()
    &&& forall|i: int| 0 <= i < old.edges@.len() ==> #[trigger] new.edges@[i] == if edge_killed(old, eids, i) {
        Edge { alive: false, ..old.edges@[i] }
    } else {
        old.edges@[i]
    }
    &&& forall|j: int| 0 <= j < old.hes@.len() ==> #[trigger] new.hes@[j] == if edge_killed(old, eids, old.hes@[j].edge.ix()) {
        HalfEdge { alive: false, ..old.hes@[j] }
    } else {
        old.hes@[j]
    }
}

/// `new` is `old` after removing face `f` where it is present (see
/// `Mesh::remove_face`), and `old` itself otherwise.
pub open spec fn face_removed(old: Mesh, new: Mesh, f: FaceId) -> bool {
    &&& new.verts@ == old.verts@
    &&& new.edges@ == old.edges@
    &&& if old.face_present(f) {
        &&& new.faces@.len() == old.faces@.len()
        &&& forall|g: int| 0 <= g < old.faces@.len() && g != f.ix() ==> #[trigger] new.faces@[g] == old.faces@[g]
        &&& new.faces@[f.ix()] == (Face { present: false, ..old.faces@[f.ix()] })
        &&& new.hes@.len() == old.hes@.len()
        &&& forall|i: int| 0 <= i < old.hes@.len() ==> #[trigger] new.hes@[i] == if on_face_loop(old, f, HeId { id: i as u32 }) {
            released(old.hes@[i], true)
        } else {
            old.hes@[i]
        }
    } else {
        new.hes@ == old.hes@ && new.faces@ == old.faces@
    }
}

/// `new` and `r` are what replacing faces `f1` and `f2` by one face
/// bounded by `outer` and `holes` gives from `old`: the edges `eids` die,
/// both faces are removed, the merged face is added with `material`, and
/// the dangling wires left are pruned.
pub open spec fn merged_into(
    old: Mesh,
    new: Mesh,
    f1: FaceId,
    f2: FaceId,
    outer: Seq<VertId>,
    holes: Seq<Seq<VertId>>,
    eids: Seq<EdgeId>,
    material: MaterialId,
    r: Result<FaceId, MergeFacesError>,
) -> bool {
    exists|a: Mesh, b: Mesh, c: Mesh, d: Mesh, ra: Result<FaceId, MeshError>|
        #![trigger edges_killed(old, a, eids), face_removed(a, b, f1), face_removed(b, c, f2), face_added(c, d, outer, holes, material, ra)]
        edges_killed(old, a, eids) && face_removed(a, b, f1) && face_removed(b, c, f2) && face_added(c, d, outer, holes, material, ra)
            && match ra {
            Ok(f) => r == Ok::<FaceId, MergeFacesError>(f) && exists|ne: nat, nv: nat| wires_pruned(d, new, ne, nv),
            Err(e) => r == Err::<FaceId, MergeFacesError>(MergeFacesError::Mesh(e)) && new == d,
        }
}

/// `new` and `r` are what merging faces `f1` and `f2` along their shared
/// outer edges gives from `old`, where `coplanar` tells whether the faces
/// lie on one plane, `keep` which vertices of the walked boundary stay
/// after simplification, and `reverse` whether the boundary is turned
/// round to keep the first face's orientation.
pub open spec fn merge_done(
    old: Mesh,
    new: Mesh,
    f1: FaceId,
    f2: FaceId,
    coplanar: bool,
    keep: Seq<bool>,
    reverse: bool,
    r: Result<FaceId, MergeFacesError>,
) -> bool {
    let s1 = old.faces@[f1.ix()].outer.start;
    let s2 = old.faces@[f2.ix()].outer.start;
    if f1 == f2 {
        r == Err::<FaceId, MergeFacesError>(MergeFacesError::SameFace) && new == old
    } else if !old.face_present(f1) {
        r == Err::<FaceId, MergeFacesError>(MergeFacesError::FaceNotFound(f1)) && new == old
    } else if !old.face_present(f2) {
        r == Err::<FaceId, MergeFacesError>(MergeFacesError::FaceNotFound(f2)) && new == old
    } else if !old.faces@[f1.ix()].active {
        r == Err::<FaceId, MergeFacesError>(MergeFacesError::FaceInactive(f1)) && new == old
    } else if !old.faces@[f2.ix()].active {
        r == Err::<FaceId, MergeFacesError>(MergeFacesError::FaceInactive(f2)) && new == old
    } else if !coplanar {
        r == Err::<FaceId, MergeFacesError>(MergeFacesError::NotCoplanar) && new == old
    } else if !loop_closes(old.hes@, s1) {
        r == Err::<FaceId, MergeFacesError>(MergeFacesError::Loop(loop_error(old, s1))) && new == old
    } else if !loop_closes(old.hes@, s2) {
        r == Err::<FaceId, MergeFacesError>(MergeFacesError::Loop(loop_error(old, s2))) && new == old
    } else {
        let v1 = outer_loop_verts(old, f1);
        let v2 = outer_loop_verts(old, f2);
        exists|w: Result<Seq<VertId>, SharedMergeError>| #[trigger] boundary_outcome(v1, v2, w) && match w {
            Err(e) => r == Err::<FaceId, MergeFacesError>(MergeFacesError::Boundary(e)) && new == old,
            Ok(walk) => {
                let s = kept(walk, keep);
                if s.len() < 3 {
                    r == Err::<FaceId, MergeFacesError>(MergeFacesError::DegenerateAfterSimplify) && new == old
                } else {
                    merged_into(
                        old,
                        new,
                        f1,
                        f2,
                        if reverse { s.reverse() } else { s },
                        face_holes(old, f1) + face_holes(old, f2),
                        shared_edge_ids(old, v1, v2),
                        old.faces@[f1.ix()].material,
                        r,
                    )
                }
            },
        }
    }
}

/// Every neighbour of a vertex lies on the graph.
proof fn lemma_neighbours_on_graph(g: Seq<(VertId, VertId)>, v: VertId)
    ensures
        forall|i: int| 0 <= i < neighbours(g, v).len() ==> on_graph(g, #[trigger] neighbours(g, v)[i]),
    decreases g.len(),
{
    if g.len() > 0 {
        let h = g.drop_last();
        lemma_neighbours_on_graph(h, v);
        let e = g.last();
        let p = neighbours(h, v);
        let p1 = if e.0 == v { p.push(e.1) } else { p };
        assert forall|i: int| 0 <= i < neighbours(g, v).len() implies on_graph(g, #[trigger] neighbours(g, v)[i]) by {
            let x = neighbours(g, v)[i];
            if i < p.len() {
                assert(x == p[i]);
                assert(on_graph(h, x));
                let k = choose|k: int| 0 <= k < h.len() && ((#[trigger] h[k]).0 == x || h[k].1 == x);
                assert(g[k] == h[k]);
            } else {
                assert(g[g.len() - 1] == e);
                if i < p1.len() {
                    assert(x == e.1);
                } else {
                    assert(x == e.0);
                }
            }
        }
    }
}

/// The edges of a loop, from each vertex to the next.
fn edge_pairs(v: &[VertId]) -> (e: Vec<(VertId, VertId)>)
    requires
        v@.len() > 0,
    ensures
        e@ == loop_edge_pairs(v@),
{
    let n = v.len();
    let mut e: Vec<(VertId, VertId)> = Vec::new();
    let mut i: usize = 0;
    while i < n
        invariant
            n == v@.len(),
            n > 0,
            i <= n,
            e@ == loop_edge_pairs(v@).take(i as int),
        decreases n - i,
    {
        let j = if i + 1 < n { i + 1 } else { 0 };
        proof {
            assert(j as int == (i + 1) % (n as int)) by (nonlinear_arith)
                requires j == (if i + 1 < n { i + 1 } else { 0 }), i < n;
            assert(loop_edge_pairs(v@).take(i + 1) =~= loop_edge_pairs(v@).take(i as int).push(loop_edge_pairs(v@)[i as int]));
        }
        e.push((v[i], v[j]));
        i += 1;
    }
    assert(loop_edge_pairs(v@).take(n as int) =~= loop_edge_pairs(v@));
    e
}

/// Whether two edges join the same two vertices.
fn same_pair(a: (VertId, VertId), b: (VertId, VertId)) -> (r: bool)
    ensures
        r == same_undirected(a, b),
{
    (a.0 == b.0 && a.1 == b.1) || (a.0 == b.1 && a.1 == b.0)
}

/// Matches the edges of the first loop with those of the second (see
/// `marks_upto`).
fn shared_marks(e1: &Vec<(VertId, VertId)>, e2: &Vec<(VertId, VertId)>) -> (r: (Vec<bool>, Vec<bool>))
    ensures
        (r.0@, r.1@) == marks_upto(e1@, e2@, e1@.len()),
        r.0@.len() == e1@.len(),
        r.1@.len() == e2@.len(),
{
    let n1 = e1.len();
    let n2 = e2.len();
    let mut m1: Vec<bool> = Vec::new();
    let mut k: usize = 0;
    while k < n1
        invariant
            n1 == e1@.len(),
            k <= n1,
            m1@ == Seq::new(k as nat, |q: int| false),
        decreases n1 - k,
    {
        m1.push(false);
        proof {
            assert(m1@ =~= Seq::new((k + 1) as nat, |q: int| false));
        }
        k += 1;
    }
    let mut m2: Vec<bool> = Vec::new();
    let mut k: usize = 0;
    while k < n2
        invariant
            n2 == e2@.len(),
            k <= n2,
            m2@ == Seq::new(k as nat, |q: int| false),
        decreases n2 - k,
    {
        m2.push(false);
        proof {
            assert(m2@ =~= Seq::new((k + 1) as nat, |q: int| false));
        }
        k += 1;
    }
    let mut i: usize = 0;
    while i < n1
        invariant
            n1 == e1@.len(),
            n2 == e2@.len(),
            i <= n1,
            (m1@, m2@) == marks_upto(e1@, e2@, i as nat),
            m1@.len() == n1,
            m2@.len() == n2,
        decreases n1 - i,
    {
        let e = e1[i];
        let mut j: usize = 0;
        while j < n2
            invariant
                n2 == e2@.len(),
                m2@.len() == n2,
                j <= n2,
                first_match(e, e2@, m2@, 0) == first_match(e, e2@, m2@, j as nat),
            ensures
                j <= n2,
                first_match(e, e2@, m2@, 0) == first_match(e, e2@, m2@, j as nat),
                j < n2 ==> !m2@[j as int] && same_undirected(e, e2@[j as int]),
            decreases n2 - j,
        {
            if !m2[j] && same_pair(e, e2[j]) {
                break;
            }
            j += 1;
        }
        proof {
            if j < n2 {
                assert(first_match(e, e2@, m2@, j as nat) == j);
            }
        }
        if j < n2 {
            m1.set(i, true);
            m2.set(j, true);
        }
        i += 1;
    }
    (m1, m2)
}

/// Appends the unshared edges of `e` to `out`.
fn push_unshared(out: &mut Vec<(VertId, VertId)>, e: &Vec<(VertId, VertId)>, m: &Vec<bool>)
    requires
        m@.len() == e@.len(),
    ensures
        final(out)@ == old(out)@ + unshared(e@, m@),
{
    let ghost o = out@;
    let n = e.len();
    let mut i: usize = 0;
    while i < n
        invariant
            n == e@.len(),
            m@.len() == n,
            i <= n,
            out@ == o + unshared(e@.take(i as int), m@),
        decreases n - i,
    {
        proof {
            let t = e@.take(i + 1);
            assert(t.drop_last() =~= e@.take(i as int));
            assert(t.last() == e@[i as int]);
        }
        if !m[i] {
            out.push(e[i]);
        }
        proof {
            let t = e@.take(i + 1);
            if m@[i as int] {
                assert(unshared(t, m@) == unshared(e@.take(i as int), m@));
            } else {
                assert(unshared(t, m@) == unshared(e@.take(i as int), m@).push(e@[i as int]));
            }
        }
        i += 1;
    }
    assert(e@.take(n as int) =~= e@);
}

/// The neighbours of `v` along the edges `g` (see `neighbours`).
fn neighbours_of(g: &Vec<(VertId, VertId)>, v: VertId) -> (nb: Vec<VertId>)
    ensures
        nb@ == neighbours(g@, v),
{
    let n = g.len();
    let mut nb: Vec<VertId> = Vec::new();
    let mut k: usize = 0;
    while k < n
        invariant
            n == g@.len(),
            k <= n,
            nb@ == neighbours(g@.take(k as int), v),
        decreases n - k,
    {
        proof {
            let t = g@.take(k + 1);
            assert(t.drop_last() =~= g@.take(k as int));
            assert(t.last() == g@[k as int]);
        }
        let e = g[k];
        if e.0 == v {
            nb.push(e.1);
        }
        if e.1 == v {
            nb.push(e.0);
        }
        k += 1;
    }
    assert(g@.take(n as int) =~= g@);
    nb
}

/// The boundary of the union of two faces with outer loops `v1` and
/// `v2` that share edges: see the module documentation, and the checks
/// below in their order.
pub fn multi_shared_boundary(v1: &[VertId], v2: &[VertId]) -> (r: Result<Vec<VertId>, SharedMergeError>)
    ensures
        v1@.len() < 3 || v2@.len() < 3 ==> r == Err::<Vec<VertId>, SharedMergeError>(SharedMergeError::LoopTooShort),
        v1@.len() >= 3 && v2@.len() >= 3 ==> {
            let g = union_edges(v1@, v2@);
            if !shares_an_edge(v1@, v2@) {
                r == Err::<Vec<VertId>, SharedMergeError>(SharedMergeError::NoSharedEdges)
            } else if g.len() == 0 {
                r == Err::<Vec<VertId>, SharedMergeError>(SharedMergeError::EmptyGraph)
            } else if !all_valence_two(g) {
                r matches Err(SharedMergeError::NonSimpleBoundary(v, c)) && on_graph(g, v) && neighbours(g, v).len() == c
                    && c != 2
            } else {
                match union_walk(v1@, v2@) {
                    Some(w) => if w.len() == g.len() {
                        r matches Ok(x) && x@ == w
                    } else {
                        r == Err::<Vec<VertId>, SharedMergeError>(SharedMergeError::SeparateRegions)
                    },
                    None => r == Err::<Vec<VertId>, SharedMergeError>(SharedMergeError::WalkOverflow),
                }
            }
        },
{
    if v1.len() < 3 || v2.len() < 3 {
        return Err(SharedMergeError::LoopTooShort);
    }
    let e1 = edge_pairs(v1);
    let e2 = edge_pairs(v2);
    let (m1, m2) = shared_marks(&e1, &e2);
    let n1 = e1.len();
    let mut any = false;
    let mut i: usize = 0;
    while i < n1
        invariant
            n1 == e1@.len(),
            m1@.len() == n1,
            i <= n1,
            any <==> exists|q: int| 0 <= q < i && #[trigger] m1@[q],
        decreases n1 - i,
    {
        if m1[i] {
            any = true;
        }
        i += 1;
    }
    if !any {
        return Err(SharedMergeError::NoSharedEdges);
    }
    let mut g: Vec<(VertId, VertId)> = Vec::new();
    push_unshared(&mut g, &e1, &m1);
    push_unshared(&mut g, &e2, &m2);
    proof {
        assert(g@ =~= union_edges(v1@, v2@));
    }
    let ng = g.len();
    if ng == 0 {
        return Err(SharedMergeError::EmptyGraph);
    }
    let mut k: usize = 0;
    while k < ng
        invariant
            ng == g@.len(),
            k <= ng,
            g@ == union_edges(v1@, v2@),
            shares_an_edge(v1@, v2@),
            v1@.len() >= 3 && v2@.len() >= 3,
            forall|q: int| 0 <= q < k ==> neighbours(g@, (#[trigger] g@[q]).0).len() == 2 && neighbours(g@, g@[q].1).len() == 2,
        decreases ng - k,
    {
        let e = g[k];
        let a = neighbours_of(&g, e.0);
        if a.len() != 2 {
            proof {
                assert(on_graph(g@, e.0));
            }
            return Err(SharedMergeError::NonSimpleBoundary(e.0, a.len()));
        }
        let b = neighbours_of(&g, e.1);
        if b.len() != 2 {
            proof {
                assert(on_graph(g@, e.1));
            }
            return Err(SharedMergeError::NonSimpleBoundary(e.1, b.len()));
        }
        k += 1;
    }
    proof {
        assert forall|v: VertId| on_graph(g@, v) implies #[trigger] neighbours(g@, v).len() == 2 by {
            let q = choose|q: int| 0 <= q < g@.len() && ((#[trigger] g@[q]).0 == v || g@[q].1 == v);
        }
    }
    let start = g[0].0;
    let nb0 = neighbours_of(&g, start);
    proof {
        assert(on_graph(g@, start));
    }
    let max_iter: u128 = v1.len() as u128 + v2.len() as u128 + 4;
    let ghost fuel0 = (max_iter - 1) as nat;
    let ghost whole = walk_until(g@, start, start, nb0@[0], fuel0);
    let mut walked: Vec<VertId> = Vec::new();
    walked.push(start);
    let mut prev = start;
    let mut cur = nb0[0];
    let mut iter: u128 = 0;
    proof {
        lemma_neighbours_on_graph(g@, start);
        assert(walked@.skip(1) =~= Seq::<VertId>::empty());
        assert(seq![start] + Seq::<VertId>::empty() =~= seq![start]);
    }
    while cur != start && iter < max_iter
        invariant
            ng == g@.len(),
            all_valence_two(g@),
            on_graph(g@, cur),
            iter <= max_iter,
            max_iter >= 1,
            fuel0 == max_iter - 1,
            walked@.len() >= 1,
            walked@[0] == start,
            iter < max_iter ==> whole == match walk_until(g@, start, prev, cur, (max_iter - 1 - iter) as nat) {
                Some(rest) => Some(walked@.skip(1) + rest),
                None => None::<Seq<VertId>>,
            },
            iter == max_iter ==> whole is None,
        decreases max_iter - iter,
    {
        let ghost f = (max_iter - 1 - iter) as nat;
        let ghost before = walked@;
        walked.push(cur);
        let nb = neighbours_of(&g, cur);
        let next = if nb[0] == prev { nb[1] } else { nb[0] };
        proof {
            lemma_neighbours_on_graph(g@, cur);
            if f > 0 {
                let tail = walk_until(g@, start, cur, next, (f - 1) as nat);
                assert(walk_until(g@, start, prev, cur, f) == match tail {
                    Some(rest) => Some(seq![cur] + rest),
                    None => None::<Seq<VertId>>,
                });
                assert(walked@.skip(1) =~= before.skip(1).push(cur));
                match tail {
                    Some(rest) => {
                        assert(before.skip(1) + (seq![cur] + rest) =~= walked@.skip(1) + rest);
                    },
                    None => {},
                }
            }
        }
        prev = cur;
        cur = next;
        iter += 1;
    }
    if iter >= max_iter {
        return Err(SharedMergeError::WalkOverflow);
    }
    proof {
        assert(walked@ =~= seq![start] + walked@.skip(1));
        assert(walked@.skip(1) + Seq::<VertId>::empty() =~= walked@.skip(1));
    }
    if walked.len() != g.len() {
        return Err(SharedMergeError::SeparateRegions);
    }
    Ok(walked)
}

/// The vertices of `w` that are kept (see `kept`).
fn kept_verts(w: &Vec<VertId>, keep: &[bool]) -> (r: Vec<VertId>)
    ensures
        r@ == kept(w@, keep@),
{
    let n = w.len();
    let mut r: Vec<VertId> = Vec::new();
    let mut i: usize = 0;
    while i < n
        invariant
            n == w@.len(),
            i <= n,
            r@ == kept(w@.take(i as int), keep@),
        decreases n - i,
    {
        proof {
            let t = w@.take(i + 1);
            assert(t.drop_last() =~= w@.take(i as int));
            assert(t.last() == w@[i as int]);
        }
        if i >= keep.len() || keep[i] {
            r.push(w[i]);
        }
        i += 1;
    }
    assert(w@.take(n as int) =~= w@);
    r
}

/// `v` in reverse order.
fn reversed(v: &Vec<VertId>) -> (r: Vec<VertId>)
    ensures
        r@ == v@.reverse(),
{
    let n = v.len();
    let mut r: Vec<VertId> = Vec::new();
    let mut i: usize = 0;
    while i < n
        invariant
            n == v@.len(),
            i <= n,
            r@ == Seq::new(i as nat, |k: int| v@[n - 1 - k]),
        decreases n - i,
    {
        r.push(v[n - 1 - i]);
        proof {
            assert(r@ =~= Seq::new((i + 1) as nat, |k: int| v@[n - 1 - k]));
        }
        i += 1;
    }
    proof {
        if n == 0 {
            assert(r@ =~= v@.reverse());
        } else {
            assert(r@ =~= v@.reverse());
        }
    }
    r
}

/// `first_joining` is what `find_edge` finds.
pub proof fn lemma_first_joining(es: Seq<Edge>, a: VertId, b: VertId, k: nat, r: Option<EdgeId>)
    requires
        es.len() < NULL_RAW,
        k <= es.len(),
        r matches Some(e) ==> k <= e.ix() < es.len() && edge_joins(es[e.ix()], a, b)
            && forall|q: int| k <= q < e.ix() ==> !edge_joins(#[trigger] es[q], a, b),
        r is None ==> forall|q: int| k <= q < es.len() ==> !edge_joins(#[trigger] es[q], a, b),
    ensures
        first_joining(es, a, b, k) == r,
    decreases es.len() - k,
{
    if k < es.len() {
        match r {
            Some(e) => {
                if e.ix() == k {
                    assert(EdgeId { id: k as u32 } == e);
                } else {
                    lemma_first_joining(es, a, b, k + 1, r);
                }
            },
            None => {
                lemma_first_joining(es, a, b, k + 1, r);
            },
        }
    }
}

/// The hole loops appended after each push, viewed.
proof fn lemma_hole_views_push(s: Seq<Vec<VertId>>, x: Vec<VertId>)
    ensures
        hole_views(s.push(x)) == hole_views(s).push(x@),
{
    assert(hole_views(s.push(x)) =~= hole_views(s).push(x@));
}

impl Mesh {
    /// Appends the hole loops of face `f` that close with at least three
    /// vertices (see `face_holes`).
    pub(crate) fn collect_face_holes(&self, f: FaceId, holes: &mut Vec<Vec<VertId>>)
        requires
            self.wf(),
            self.face_present(f),
        ensures
            hole_views(final(holes)@) == hole_views(old(holes)@) + face_holes(*self, f),
    {
        let ghost h0 = holes@;
        let n = self.faces[f.id as usize].inners.len();
        let mut k: usize = 0;
        proof {
            assert(hole_views(h0) + face_holes_upto(*self, f, 0) =~= hole_views(h0));
        }
        while k < n
            invariant
                self.wf(),
                self.face_present(f),
                n == self.faces@[f.ix()].inners@.len(),
                k <= n,
                hole_views(holes@) == hole_views(h0) + face_holes_upto(*self, f, k as nat),
            decreases n - k,
        {
            let st = self.faces[f.id as usize].inners[k].start;
            let ghost hb = holes@;
            if !st.is_null() {
                match self.collect_loop_verts(st) {
                    Ok(v) => {
                        if v.len() >= 3 {
                            holes.push(v);
                            proof {
                                lemma_hole_views_push(hb, v);
                                assert(hole_views(h0) + face_holes_upto(*self, f, (k + 1) as nat) =~= (hole_views(h0)
                                    + face_holes_upto(*self, f, k as nat)).push(v@));
                            }
                        }
                    },
                    Err(_) => {},
                }
            }
            k += 1;
        }
        proof {
            assert(face_holes(*self, f) == face_holes_upto(*self, f, n as nat));
        }
    }

    /// The edges the two loops share (see `shared_edge_ids`).
    fn shared_ids(&self, v1: &[VertId], v2: &[VertId]) -> (r: Vec<EdgeId>)
        requires
            self.wf(),
            v1@.len() > 0,
            v2@.len() > 0,
        ensures
            r@ == shared_edge_ids(*self, v1@, v2@),
    {
        let e1 = edge_pairs(v1);
        let e2 = edge_pairs(v2);
        let (m1, _m2) = shared_marks(&e1, &e2);
        let n = e1.len();
        let mut r: Vec<EdgeId> = Vec::new();
        let mut i: usize = 0;
        while i < n
            invariant
                self.wf(),
                n == e1@.len(),
                m1@.len() == n,
                i <= n,
                r@ == shared_ids_upto(*self, e1@, m1@, i as nat),
            decreases n - i,
        {
            if m1[i] {
                let (a, b) = e1[i];
                let found = self.find_edge(a, b);
                proof {
                    lemma_first_joining(self.edges@, a, b, 0, found);
                }
                match found {
                    Some(e) => {
                        r.push(e);
                    },
                    None => {},
                }
            }
            i += 1;
        }
        r
    }

    /// Kills each live edge of `eids` and the half-edges on it.
    fn kill_edges(&mut self, eids: &Vec<EdgeId>)
        requires
            old(self).wf(),
        ensures
            final(self).wf(),
            edges_killed(*old(self), *final(self), eids@),
    {
        let ghost m0 = *self;
        let n = eids.len();
        let mut k: usize = 0;
        proof {
            assert forall|i: int| 0 <= i < m0.edges@.len() implies !edge_killed(m0, eids@.take(0), i) by {}
        }
        while k < n
            invariant
                self.wf(),
                m0.wf(),
                n == eids@.len(),
                k <= n,
                edges_killed(m0, *self, eids@.take(k as int)),
            decreases n - k,
        {
            let e = eids[k];
            let ghost cur = *self;
            let ghost t = eids@.take(k as int);
            let ghost t1 = eids@.take(k + 1);
            proof {
                assert(t1 =~= t.push(e));
                assert forall|i: int| 0 <= i < m0.edges@.len() implies edge_killed(m0, t1, i)
                    == (edge_killed(m0, t, i) || (m0.edges@[i].alive && e == EdgeId { id: i as u32 })) by {
                    let x = EdgeId { id: i as u32 };
                    if t1.contains(x) && x != e {
                        let q = choose|q: int| 0 <= q < t1.len() && t1[q] == x;
                        assert(t[q] == x);
                    }
                    if t.contains(x) {
                        let q = choose|q: int| 0 <= q < t.len() && t[q] == x;
                        assert(t1[q] == x);
                    }
                    if x == e {
                        assert(t1[k as int] == x);
                    }
                }
                if 0 <= e.ix() < m0.edges@.len() {
                    assert(EdgeId { id: e.ix() as u32 } == e);
                    assert(cur.edges@[e.ix()].alive == (m0.edges@[e.ix()].alive && !t.contains(e)));
                }
            }
            let _ = self.remove_edge_and_halfedges(e);
            proof {
                assert forall|i: int| 0 <= i < m0.edges@.len() implies #[trigger] self.edges@[i] == if edge_killed(m0, t1, i) {
                    Edge { alive: false, ..m0.edges@[i] }
                } else {
                    m0.edges@[i]
                } by {
                    if i == e.ix() {
                        assert(EdgeId { id: i as u32 } == e);
                    }
                }
                assert forall|j: int| 0 <= j < m0.hes@.len() implies #[trigger] self.hes@[j] == if edge_killed(
                    m0,
                    t1,
                    m0.hes@[j].edge.ix(),
                ) {
                    HalfEdge { alive: false, ..m0.hes@[j] }
                } else {
                    m0.hes@[j]
                } by {
                    let x = m0.hes@[j].edge;
                    assert(cur.hes@[j].edge == x);
                    assert(0 <= x.ix() < m0.edges@.len());
                    if x == e {
                        assert(EdgeId { id: x.ix() as u32 } == e);
                    }
                    if x.ix() == e.ix() {
                        assert(x == e);
                    }
                }
            }
            k += 1;
        }
        proof {
            assert(eids@.take(n as int) =~= eids@);
        }
    }

    /// Merges faces `f1` and `f2` along the outer edges they share (see
    /// `merge_done`): the two faces and the shared edges give way to one
    /// face with the material of `f1`, bounded by the walked boundary of
    /// the union, simplified by `keep` and turned round where `reverse`,
    /// and keeping the holes of both faces; dangling wires left are pruned.
    /// `coplanar` tells whether the faces lie on one plane.
    pub fn merge_via_multi_shared_edges(
        &mut self,
        f1: FaceId,
        f2: FaceId,
        coplanar: bool,
        keep: &[bool],
        reverse: bool,
    ) -> (r: Result<FaceId, MergeFacesError>)
        requires
            old(self).wf(),
        ensures
            final(self).wf(),
            merge_done(*old(self), *final(self), f1, f2, coplanar, keep@, reverse, r),
            r is Ok ==> present_faces(final(self).faces@) + 1 == present_faces(old(self).faces@),
    {
        if f1 == f2 {
            return Err(MergeFacesError::SameFace);
        }
        if f1.id as usize >= self.faces.len() || !self.faces[f1.id as usize].present {
            return Err(MergeFacesError::FaceNotFound(f1));
        }
        if f2.id as usize >= self.faces.len() || !self.faces[f2.id as usize].present {
            return Err(MergeFacesError::FaceNotFound(f2));
        }
        if !self.faces[f1.id as usize].active {
            return Err(MergeFacesError::FaceInactive(f1));
        }
        if !self.faces[f2.id as usize].active {
            return Err(MergeFacesError::FaceInactive(f2));
        }
        if !coplanar {
            return Err(MergeFacesError::NotCoplanar);
        }
        let ghost m0 = *self;
        let v1 = match self.collect_loop_verts(self.faces[f1.id as usize].outer.start) {
            Ok(v) => v,
            Err(e) => {
                return Err(MergeFacesError::Loop(e));
            },
        };
        let v2 = match self.collect_loop_verts(self.faces[f2.id as usize].outer.start) {
            Ok(v) => v,
            Err(e) => {
                return Err(MergeFacesError::Loop(e));
            },
        };
        let ghost gv1 = outer_loop_verts(m0, f1);
        let ghost gv2 = outer_loop_verts(m0, f2);
        let walked = match multi_shared_boundary(v1.as_slice(), v2.as_slice()) {
            Ok(w) => w,
            Err(e) => {
                proof {
                    assert(boundary_outcome(gv1, gv2, Err::<Seq<VertId>, SharedMergeError>(e)));
                }
                return Err(MergeFacesError::Boundary(e));
            },
        };
        proof {
            assert(boundary_outcome(gv1, gv2, Ok::<Seq<VertId>, SharedMergeError>(walked@)));
        }
        let simplified = kept_verts(&walked, keep);
        if simplified.len() < 3 {
            return Err(MergeFacesError::DegenerateAfterSimplify);
        }
        let fin = if reverse { reversed(&simplified) } else { simplified };
        let mut holes: Vec<Vec<VertId>> = Vec::new();
        self.collect_face_holes(f1, &mut holes);
        self.collect_face_holes(f2, &mut holes);
        proof {
            assert(hole_views(Seq::<Vec<VertId>>::empty()) =~= Seq::<Seq<VertId>>::empty());
            assert(Seq::<Seq<VertId>>::empty() + face_holes(m0, f1) =~= face_holes(m0, f1));
        }
        let eids = self.shared_ids(v1.as_slice(), v2.as_slice());
        let material = self.faces[f1.id as usize].material;
        self.kill_edges(&eids);
        let ghost a = *self;
        let _ = self.remove_face(f1);
        let ghost b = *self;
        let _ = self.remove_face(f2);
        let ghost c = *self;
        let ra = self.add_face_with_holes(fin.as_slice(), holes.as_slice(), material);
        let ghost d = *self;
        proof {
            assert(edges_killed(m0, a, eids@));
            assert(face_removed(a, b, f1));
            assert(face_removed(b, c, f2));
        }
        match ra {
            Ok(nf) => {
                let cleaned = self.cleanup_dangling();
                proof {
                    assert(wires_pruned(d, *self, cleaned.0 as nat, cleaned.1 as nat));
                    assert(face_added(c, d, fin@, hole_views(holes@), material, ra));
                    lemma_present_removed(a, b, f1);
                    lemma_present_removed(b, c, f2);
                    lemma_present_added(c, d, fin@, hole_views(holes@), material, nf);
                }
                Ok(nf)
            },
            Err(e) => {
                proof {
                    assert(face_added(c, d, fin@, hole_views(holes@), material, ra));
                }
                Err(MergeFacesError::Mesh(e))
            },
        }
    }
}

} // verus!
