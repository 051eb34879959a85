//! Half-edge (DCEL) mesh topology.
//!
//! The mesh stores four arenas: vertices, half-edges, edges and faces.
//! Slots are never reused; removing an element clears its `alive` /
//! `present` flag. A face is bounded by one outer loop and any number of
//! inner (hole) loops; a loop is the cycle of half-edges reached from its
//! start by following `next`.
//!
//! Geometry (positions, normals, curve and surface parameters) is kept by
//! the caller; the mesh records only the kind of an edge's curve and of a
//! face's surface, and whether a face's stored normal has been negated.

use vstd::prelude::*;
use crate::ids::{VertId, HeId, EdgeId, FaceId, MaterialId, NULL_RAW};

verus! {

/// Kind of the analytic curve carried by an edge.
#[derive(Clone, Copy, Debug, PartialEq, Eq, Structural)]
pub enum CurveKind {
    Line,
    Circle,
    Arc,
    Bezier,
    BSpline,
    Nurbs,
}

/// Kind of the analytic surface carried by a face.
#[derive(Clone, Copy, Debug, PartialEq, Eq, Structural)]
pub enum SurfaceKind {
    Plane,
    Cylinder,
    Sphere,
    Cone,
    Torus,
    Bezier,
    BSpline,
    Nurbs,
}

#[derive(Clone, Copy, Debug, PartialEq, Eq, Structural)]
pub struct Vertex {
    pub alive: bool,
}

#[derive(Clone, Copy, Debug, PartialEq, Eq, Structural)]
pub struct HalfEdge {
    pub alive: bool,
    /// Vertex the half-edge points to.
    pub dst: VertId,
    pub next: HeId,
    pub prev: HeId,
    pub edge: EdgeId,
    /// Owning face, or the null face for a free half-edge.
    pub face: FaceId,
    /// Whether the half-edge lies on its face's outer loop.
    pub is_outer: bool,
}

#[derive(Clone, Copy, Debug, PartialEq, Eq, Structural)]
pub struct Edge {
    pub alive: bool,
    pub v0: VertId,
    pub v1: VertId,
    pub curve: Option<CurveKind>,
}

#[derive(Clone, Copy, Debug, PartialEq, Eq, Structural)]
pub struct LoopRef {
    pub start: HeId,
    pub is_outer: bool,
}

#[derive(Debug)]
pub struct Face {
    /// False once the face has been removed from storage.
    pub present: bool,
    pub active: bool,
    pub outer: LoopRef,
    pub inners: Vec<LoopRef>,
    pub material: MaterialId,
    pub surface: Option<SurfaceKind>,
    /// Whether the stored normal has been negated an odd number of times.
    pub normal_flipped: bool,
}

/// Errors of the mesh primitives.
#[derive(Clone, Copy, Debug, PartialEq, Eq, Structural)]
pub enum MeshError {
    FaceNotFound(FaceId),
    /// The face is present but deactivated.
    FaceInactive(FaceId),
    EdgeNotFound(EdgeId),
    VertNotFound(VertId),
    HalfEdgeNotFound(HeId),
    /// Following `next` from the half-edge does not come back to it.
    LoopNotClosed(HeId),
    /// A loop has fewer than three vertices, or repeats a vertex in a row.
    DegenerateLoop,
    /// An arena is full.
    CapacityExceeded,
    /// A primitive was asked for too few segments.
    TooFewSegments,
}

#[derive(Debug)]
pub struct Mesh {
    pub verts: Vec<Vertex>,
    pub hes: Vec<HalfEdge>,
    pub edges: Vec<Edge>,
    pub faces: Vec<Face>,
}

/// The half-edge reached from `start` after `k` steps along `next`.
pub open spec fn walk(hes: Seq<HalfEdge>, start: HeId, k: nat) -> HeId
    decreases k,
{
    if k == 0 {
        start
    } else {
        hes[walk(hes, start, (k - 1) as nat).ix()].next
    }
}

/// The first `n` half-edges reached from `start`.
pub open spec fn loop_seq(hes: Seq<HalfEdge>, start: HeId, n: nat) -> Seq<HeId> {
    Seq::new(n, |i: int| walk(hes, start, i as nat))
}

/// Following `next` from `start` first comes back to `start` after `n` steps.
pub open spec fn is_loop(hes: Seq<HalfEdge>, start: HeId, n: nat) -> bool {
    &&& n >= 1
    &&& walk(hes, start, n) == start
    &&& forall|j: nat| 0 < j < n ==> #[trigger] walk(hes, start, j) != start
}

/// The loop at `start` closes.
pub open spec fn loop_closes(hes: Seq<HalfEdge>, start: HeId) -> bool {
    0 <= start.ix() < hes.len() && is_loop(hes, start, loop_len(hes, start))
}

/// `h` lies on the closed loop at `start`.
pub open spec fn on_loop(hes: Seq<HalfEdge>, start: HeId, h: HeId) -> bool {
    loop_closes(hes, start) && loop_seq(hes, start, loop_len(hes, start)).contains(h)
}

/// Only the `next` links decide where a walk goes.
pub proof fn lemma_walk_same_links(a: Seq<HalfEdge>, b: Seq<HalfEdge>, start: HeId, k: nat)
    requires
        a.len() == b.len(),
        forall|i: int| 0 <= i < a.len() ==> (#[trigger] a[i]).next == b[i].next,
        hes_wf(a, 0x1_0000_0000, 0x1_0000_0000, 0x1_0000_0000) || true,
        0 <= start.ix() < a.len(),
        forall|i: int| 0 <= i < a.len() ==> 0 <= (#[trigger] a[i]).next.ix() < a.len(),
    ensures
        walk(a, start, k) == walk(b, start, k),
        0 <= walk(a, start, k).ix() < a.len(),
    decreases k,
{
    if k > 0 {
        lemma_walk_same_links(a, b, start, (k - 1) as nat);
        let p = walk(a, start, (k - 1) as nat);
        assert(a[p.ix()].next == b[p.ix()].next);
    }
}

/// Loops are the same in two arenas with the same links.
pub proof fn lemma_loops_same_links(a: Seq<HalfEdge>, b: Seq<HalfEdge>, start: HeId)
    requires
        a.len() == b.len(),
        forall|i: int| 0 <= i < a.len() ==> (#[trigger] a[i]).next == b[i].next,
        forall|i: int| 0 <= i < a.len() ==> 0 <= (#[trigger] a[i]).next.ix() < a.len(),
    ensures
        forall|h: HeId| on_loop(a, start, h) == on_loop(b, start, h),
        loop_closes(a, start) == loop_closes(b, start),
        loop_closes(a, start) ==> loop_len(a, start) == loop_len(b, start)
            && loop_seq(a, start, loop_len(a, start)) == loop_seq(b, start, loop_len(b, start)),
{
    if 0 <= start.ix() < a.len() {
        assert forall|k: nat| #[trigger] walk(a, start, k) == walk(b, start, k) by {
            lemma_walk_same_links(a, b, start, k);
        }
        assert forall|n: nat| is_loop(a, start, n) <==> is_loop(b, start, n) by {
            if is_loop(a, start, n) {
                assert forall|j: nat| 0 < j < n implies #[trigger] walk(b, start, j) != start by {
                    assert(walk(a, start, j) == walk(b, start, j));
                }
                assert(walk(a, start, n) == walk(b, start, n));
            }
            if is_loop(b, start, n) {
                assert forall|j: nat| 0 < j < n implies #[trigger] walk(a, start, j) != start by {
                    assert(walk(a, start, j) == walk(b, start, j));
                }
                assert(walk(a, start, n) == walk(b, start, n));
            }
        }
        assert forall|n: nat| loop_seq(a, start, n) == loop_seq(b, start, n) by {
            assert(loop_seq(a, start, n) =~= loop_seq(b, start, n));
        }
        if is_loop(a, start, loop_len(a, start)) {
            lemma_loop_len(b, start, loop_len(a, start));
        }
        if is_loop(b, start, loop_len(b, start)) {
            lemma_loop_len(a, start, loop_len(b, start));
        }
    }
}

/// A loop visits distinct slots, so it is no longer than the arena.
pub proof fn lemma_loop_len_bounded(hes: Seq<HalfEdge>, nv: int, ne: int, nf: int, start: HeId, n: nat)
    requires
        hes_wf(hes, nv, ne, nf),
        0 <= start.ix() < hes.len(),
        is_loop(hes, start, n),
    ensures
        n <= hes.len(),
{
    lemma_loop_distinct(hes, start, n);
    let l = loop_seq(hes, start, n);
    let ints = l.map_values(|x: HeId| x.ix());
    assert forall|a: int, b: int| 0 <= a < ints.len() && 0 <= b < ints.len() && a != b implies ints[a] != ints[b] by {
        assert(l[a] != l[b]);
    }
    ints.unique_seq_to_set();
    let r = vstd::set_lib::set_int_range(0, hes.len() as int);
    assert forall|x: int| ints.to_set().contains(x) implies r.contains(x) by {
        let i = choose|i: int| 0 <= i < ints.len() && ints[i] == x;
        lemma_walk_valid(hes, nv, ne, nf, start, i as nat);
    }
    vstd::set_lib::lemma_int_range(0, hes.len() as int);
    vstd::set_lib::lemma_len_subset(ints.to_set(), r);
}

/// The length of the loop at `start` (meaningful when there is one).
pub open spec fn loop_len(hes: Seq<HalfEdge>, start: HeId) -> nat {
    choose|n: nat| is_loop(hes, start, n)
}

/// A loop has one length.
pub proof fn lemma_loop_len(hes: Seq<HalfEdge>, start: HeId, n: nat)
    requires
        is_loop(hes, start, n),
    ensures
        loop_len(hes, start) == n,
{
    let m = loop_len(hes, start);
    assert(is_loop(hes, start, m));
    if m < n {
        assert(walk(hes, start, m) != start);
    } else if m > n {
        assert(walk(hes, start, n) != start);
    }
}

/// The vertices of the loop of length `n` at `start`: the tail of each
/// half-edge, which is the head of the one before it.
pub open spec fn loop_verts(hes: Seq<HalfEdge>, start: HeId, n: nat) -> Seq<VertId> {
    Seq::new(n, |i: int| hes[walk(hes, start, ((i + n - 1) % (n as int)) as nat).ix()].dst)
}

/// The edges of the loop of length `n` at `start`.
pub open spec fn loop_edges(hes: Seq<HalfEdge>, start: HeId, n: nat) -> Seq<EdgeId> {
    Seq::new(n, |i: int| hes[walk(hes, start, i as nat).ix()].edge)
}

pub open spec fn hes_wf(hes: Seq<HalfEdge>, n_verts: int, n_edges: int, n_faces: int) -> bool {
    forall|i: int|
        0 <= i < hes.len() ==> {
            let h = #[trigger] hes[i];
            &&& 0 <= h.next.ix() < hes.len()
            &&& 0 <= h.prev.ix() < hes.len()
            &&& 0 <= h.dst.ix() < n_verts
            &&& 0 <= h.edge.ix() < n_edges
            &&& (h.face.id == NULL_RAW || 0 <= h.face.ix() < n_faces)
        }
}

pub open spec fn loop_ref_wf(l: LoopRef, n_hes: int) -> bool {
    l.start.id == NULL_RAW || 0 <= l.start.ix() < n_hes
}

pub open spec fn face_wf(f: Face, n_hes: int) -> bool {
    &&& loop_ref_wf(f.outer, n_hes)
    &&& forall|k: int| 0 <= k < f.inners@.len() ==> loop_ref_wf(#[trigger] f.inners@[k], n_hes)
}

pub proof fn lemma_walk_valid(hes: Seq<HalfEdge>, nv: int, ne: int, nf: int, start: HeId, k: nat)
    requires
        hes_wf(hes, nv, ne, nf),
        0 <= start.ix() < hes.len(),
    ensures
        0 <= walk(hes, start, k).ix() < hes.len(),
    decreases k,
{
    if k > 0 {
        lemma_walk_valid(hes, nv, ne, nf, start, (k - 1) as nat);
        let p = walk(hes, start, (k - 1) as nat);
        assert(0 <= hes[p.ix()].next.ix() < hes.len());
    }
}

pub proof fn lemma_walk_add(hes: Seq<HalfEdge>, start: HeId, a: nat, b: nat)
    ensures
        walk(hes, start, a + b) == walk(hes, walk(hes, start, a), b),
    decreases b,
{
    if b > 0 {
        lemma_walk_add(hes, start, a, (b - 1) as nat);
        assert(((a + b) - 1) as nat == a + (b - 1) as nat);
    }
}

/// The half-edges of a loop are pairwise distinct.
pub proof fn lemma_loop_distinct(hes: Seq<HalfEdge>, start: HeId, n: nat)
    requires
        is_loop(hes, start, n),
    ensures
        loop_seq(hes, start, n).no_duplicates(),
{
    let s = loop_seq(hes, start, n);
    assert forall|i: int, j: int| 0 <= i < s.len() && 0 <= j < s.len() && i != j implies s[i]
        != s[j] by {
        if s[i] == s[j] {
            let (lo, hi) = if i < j { (i, j) } else { (j, i) };
            let d = (n - hi) as nat;
            lemma_walk_add(hes, start, lo as nat, d);
            lemma_walk_add(hes, start, hi as nat, d);
            assert(hi as nat + d == n);
            assert(walk(hes, start, (lo + d) as nat) == start);
            assert(0 < lo + d < n);
        }
    }
}

/// Going once round the loop returns to where one started.
pub proof fn lemma_walk_mod(hes: Seq<HalfEdge>, start: HeId, n: nat, k: nat)
    requires
        is_loop(hes, start, n),
    ensures
        walk(hes, start, k) == walk(hes, start, k % n),
    decreases k,
{
    if k >= n {
        lemma_walk_add(hes, start, n, (k - n) as nat);
        lemma_walk_mod(hes, start, n, (k - n) as nat);
        assert((k - n) as nat % n == k % n) by (nonlinear_arith)
            requires
                k >= n,
                n >= 1,
        ;
        assert(n + (k - n) as nat == k);
    } else {
        assert(k % n == k) by (nonlinear_arith)
            requires
                k < n,
        ;
    }
}

/// The edge is live and joins `a` and `b`.
pub open spec fn edge_joins(e: Edge, a: VertId, b: VertId) -> bool {
    e.alive && ((e.v0 == a && e.v1 == b) || (e.v0 == b && e.v1 == a))
}

/// The `j`-th half-edge of a loop appended at `base` along `w`.
pub open spec fn new_loop_he_ok(h: HalfEdge, edges: Seq<Edge>, base: int, j: int, w: Seq<VertId>, f: FaceId, is_outer: bool) -> bool {
    let n = w.len() as int;
    &&& h.alive
    &&& h.dst == w[(j + 1) % n]
    &&& h.next.ix() == base + (j + 1) % n
    &&& h.prev.ix() == base + (j + n - 1) % n
    &&& h.face == f
    &&& h.is_outer == is_outer
    &&& 0 <= h.edge.ix() < edges.len()
    &&& edge_joins(edges[h.edge.ix()], w[j], w[(j + 1) % n])
}

/// The fields of a freshly appended half-edge other than its links.
pub open spec fn new_loop_he_partial(h: HalfEdge, edges: Seq<Edge>, j: int, w: Seq<VertId>, f: FaceId, is_outer: bool) -> bool {
    let n = w.len() as int;
    &&& h.alive
    &&& h.dst == w[(j + 1) % n]
    &&& h.face == f
    &&& h.is_outer == is_outer
    &&& 0 <= h.edge.ix() < edges.len()
    &&& edge_joins(edges[h.edge.ix()], w[j], w[(j + 1) % n])
}

pub open spec fn new_loop_fields(hes: Seq<HalfEdge>, edges: Seq<Edge>, base: int, w: Seq<VertId>, f: FaceId, is_outer: bool) -> bool {
    forall|j: int| 0 <= j < w.len() ==> new_loop_he_ok(#[trigger] hes[base + j], edges, base, j, w, f, is_outer)
}

/// Walking a freshly appended loop steps through its slots in order.
pub proof fn lemma_new_loop_walk(hes: Seq<HalfEdge>, edges: Seq<Edge>, start: HeId, w: Seq<VertId>, f: FaceId, o: bool, k: nat)
    requires
        new_loop_fields(hes, edges, start.ix(), w, f, o),
        w.len() >= 3,
    ensures
        walk(hes, start, k).ix() == start.ix() + (k % w.len()) as int,
    decreases k,
{
    let n = w.len() as int;
    if k == 0 {
        assert(0nat % w.len() == 0) by (nonlinear_arith) requires w.len() >= 3;
    } else {
        lemma_new_loop_walk(hes, edges, start, w, f, o, (k - 1) as nat);
        let j = ((k - 1) as nat % w.len()) as int;
        assert(0 <= j < n) by (nonlinear_arith) requires j == ((k - 1) as nat % w.len()) as int, n == w.len(), n >= 3;
        assert(new_loop_he_ok(hes[start.ix() + j], edges, start.ix(), j, w, f, o));
        vstd::arithmetic::div_mod::lemma_add_mod_noop((k - 1) as int, 1, n);
        assert(1int % n == 1) by (nonlinear_arith) requires n >= 3;
        assert(j == (k - 1) as int % n);
        assert(((k - 1) as int + 1) == k as int);
    }
}

/// A freshly appended loop is a loop whose tails are the given vertices.
pub proof fn lemma_new_loop_is_loop(hes: Seq<HalfEdge>, edges: Seq<Edge>, start: HeId, w: Seq<VertId>, f: FaceId, o: bool)
    requires
        new_loop_fields(hes, edges, start.ix(), w, f, o),
        w.len() >= 3,
    ensures
        is_loop(hes, start, w.len()),
        loop_verts(hes, start, w.len()) == w,
        forall|j: nat| j < w.len() ==> (#[trigger] walk(hes, start, j)).ix() == start.ix() + j,
{
    let n = w.len();
    lemma_new_loop_walk(hes, edges, start, w, f, o, n);
    assert(n % n == 0) by (nonlinear_arith) requires n >= 3;
    assert forall|j: nat| j < w.len() implies (#[trigger] walk(hes, start, j)).ix() == start.ix() + j by {
        lemma_new_loop_walk(hes, edges, start, w, f, o, j);
        assert(j % n == j) by (nonlinear_arith) requires j < n;
    }
    assert forall|j: nat| 0 < j < n implies #[trigger] walk(hes, start, j) != start by {
        assert(walk(hes, start, j).ix() == start.ix() + j);
    }
    assert forall|i: int| 0 <= i < n implies #[trigger] loop_verts(hes, start, n)[i] == w[i] by {
        let q = ((i + n - 1) % (n as int)) as nat;
        assert(0 <= (i + n - 1) % (n as int) < n) by (nonlinear_arith) requires n >= 3;
        assert(walk(hes, start, q).ix() == start.ix() + q);
        assert(new_loop_he_ok(hes[start.ix() + q], edges, start.ix(), q as int, w, f, o));
        if i == 0 {
            assert((0 + n - 1) % (n as int) == n - 1) by (nonlinear_arith) requires n >= 3;
            assert((n - 1 + 1) % (n as int) == 0) by (nonlinear_arith) requires n >= 3;
        } else {
            assert((i + n - 1) % (n as int) == i - 1) by (nonlinear_arith) requires 0 < i < n;
            assert((i - 1 + 1) % (n as int) == i) by (nonlinear_arith) requires 0 < i < n;
        }
    }
    assert(loop_verts(hes, start, n) =~= w);
}

/// The fields of an appended loop survive appending to the arenas.
pub proof fn lemma_new_loop_extend(hes: Seq<HalfEdge>, edges: Seq<Edge>, hes2: Seq<HalfEdge>, edges2: Seq<Edge>, base: int, w: Seq<VertId>, f: FaceId, o: bool)
    requires
        new_loop_fields(hes, edges, base, w, f, o),
        0 <= base,
        base + w.len() <= hes.len(),
        hes2.len() >= hes.len(),
        hes2.take(hes.len() as int) == hes,
        edges2.len() >= edges.len(),
        edges2.take(edges.len() as int) == edges,
    ensures
        new_loop_fields(hes2, edges2, base, w, f, o),
{
    assert forall|j: int| 0 <= j < w.len() implies new_loop_he_ok(#[trigger] hes2[base + j], edges2, base, j, w, f, o) by {
        assert(hes2[base + j] == hes2.take(hes.len() as int)[base + j]);
        assert(new_loop_he_ok(hes[base + j], edges, base, j, w, f, o));
        let e = hes[base + j].edge;
        assert(edges2[e.ix()] == edges2.take(edges.len() as int)[e.ix()]);
    }
}

pub open spec fn holes_sum(holes: Seq<Vec<VertId>>, k: nat) -> nat
    decreases k,
{
    if k == 0 {
        0
    } else {
        holes_sum(holes, (k - 1) as nat) + holes[k - 1]@.len()
    }
}

/// Every edge from slot `from` on carries no curve.
pub open spec fn plain_from(edges: Seq<Edge>, from: int) -> bool {
    forall|i: int| from <= i < edges.len() ==> (#[trigger] edges[i]).curve is None
}

/// Plain edges from `from` on stay plain when more plain edges follow.
pub proof fn lemma_plain_chain(a: Seq<Edge>, b: Seq<Edge>, from: int)
    requires
        0 <= from,
        plain_from(a, from),
        b.len() >= a.len(),
        b.take(a.len() as int) == a,
        plain_from(b, a.len() as int),
    ensures
        plain_from(b, from),
{
    assert forall|i: int| from <= i < b.len() implies (#[trigger] b[i]).curve is None by {
        if i < a.len() {
            assert(b[i] == b.take(a.len() as int)[i]);
        }
    }
}

/// The total length of the loops `loops[0..k]`.
pub open spec fn loops_total(loops: Seq<Seq<VertId>>, k: nat) -> nat
    decreases k,
{
    if k == 0 {
        0
    } else {
        loops_total(loops, (k - 1) as nat) + loops[k - 1].len()
    }
}

/// The hole lengths sum the same whether taken from the vectors or their
/// views.
pub proof fn lemma_holes_total(holes: Seq<Vec<VertId>>, k: nat)
    requires
        k <= holes.len(),
    ensures
        holes_sum(holes, k) == loops_total(hole_views(holes), k),
    decreases k,
{
    if k > 0 {
        lemma_holes_total(holes, (k - 1) as nat);
        assert(hole_views(holes)[k - 1] == holes[k - 1]@);
    }
}

/// An arena of `m` would overflow on adding a face bounded by `outer` and
/// `holes`: the face arena, or the half-edge or edge arena by one entry
/// per loop vertex.
pub open spec fn face_arenas_short(m: Mesh, outer: Seq<VertId>, holes: Seq<Seq<VertId>>) -> bool {
    let total = outer.len() + loops_total(holes, holes.len());
    ||| m.faces@.len() + 2 >= NULL_RAW
    ||| m.hes@.len() + total >= NULL_RAW
    ||| m.edges@.len() + total >= NULL_RAW
}

pub proof fn lemma_holes_sum_mono(holes: Seq<Vec<VertId>>, a: nat, b: nat)
    requires
        a <= b,
    ensures
        holes_sum(holes, a) <= holes_sum(holes, b),
    decreases b - a,
{
    if a < b {
        lemma_holes_sum_mono(holes, a, (b - 1) as nat);
    }
}

/// Taking a prefix of a prefix.
pub proof fn lemma_take_trans<T>(a: Seq<T>, b: Seq<T>, c: Seq<T>)
    requires
        b.len() <= a.len(),
        c.len() <= b.len(),
        a.take(b.len() as int) == b,
        b.take(c.len() as int) == c,
    ensures
        a.take(c.len() as int) == c,
{
    assert forall|i: int| 0 <= i < c.len() implies a.take(c.len() as int)[i] == c[i] by {
        assert(a[i] == a.take(b.len() as int)[i]);
        assert(b[i] == b.take(c.len() as int)[i]);
    }
    assert(a.take(c.len() as int) =~= c);
}

/// Updating past a prefix keeps it.
pub proof fn lemma_take_update<T>(a: Seq<T>, p: Seq<T>, i: int)
    requires
        p.len() == i,
        i < a.len(),
        a.take(i) == p,
    ensures
        forall|v: T| #[trigger] a.update(i, v).take(i) == p,
{
    assert forall|v: T| #[trigger] a.update(i, v).take(i) == p by {
        assert forall|k: int| 0 <= k < i implies a.update(i, v).take(i)[k] == p[k] by {
            assert(a[k] == a.take(i)[k]);
        }
        assert(a.update(i, v).take(i) =~= p);
    }
}

/// The face `f` was just added with the given loops.
pub open spec fn new_face_ok(m: Mesh, f: FaceId, outer: Seq<VertId>, holes: Seq<Seq<VertId>>, material: MaterialId) -> bool {
    let face = m.faces@[f.ix()];
    &&& 0 <= f.ix() < m.faces@.len()
    &&& face.present
    &&& face.active
    &&& face.material == material
    &&& face.surface is None
    &&& !face.normal_flipped
    &&& face.outer.is_outer
    &&& new_loop_fields(m.hes@, m.edges@, face.outer.start.ix(), outer, f, true)
    &&& is_loop(m.hes@, face.outer.start, outer.len())
    &&& loop_verts(m.hes@, face.outer.start, outer.len()) == outer
    &&& face.inners@.len() == holes.len()
    &&& forall|k: int| 0 <= k < holes.len() ==> {
        &&& !(#[trigger] face.inners@[k]).is_outer
        &&& new_loop_fields(m.hes@, m.edges@, face.inners@[k].start.ix(), holes[k], f, false)
        &&& is_loop(m.hes@, face.inners@[k].start, holes[k].len())
        &&& loop_verts(m.hes@, face.inners@[k].start, holes[k].len()) == holes[k]
    }
}

/// The vertex sequences of the hole loops.
pub open spec fn hole_views(holes: Seq<Vec<VertId>>) -> Seq<Seq<VertId>> {
    holes.map_values(|h: Vec<VertId>| h@)
}

/// `new` is `old` after adding a face bounded by `outer` and `holes`, with
/// result `r`.
pub open spec fn face_added(
    old: Mesh,
    new: Mesh,
    outer: Seq<VertId>,
    holes: Seq<Seq<VertId>>,
    material: MaterialId,
    r: Result<FaceId, MeshError>,
) -> bool {
    &&& new.verts@ == old.verts@
    &&& match r {
        Ok(f) => {
            &&& loop_input_ok(outer, old.verts@.len() as int)
            &&& forall|k: int| 0 <= k < holes.len() ==> loop_input_ok(#[trigger] holes[k], old.verts@.len() as int)
            &&& f.ix() == old.faces@.len()
            &&& new.faces@.len() == old.faces@.len() + 1
            &&& new.faces@.take(f.ix()) == old.faces@
            &&& new.hes@.len() > old.hes@.len()
            &&& new.hes@.take(old.hes@.len() as int) == old.hes@
            &&& new.edges@.take(old.edges@.len() as int) == old.edges@
            &&& new_face_ok(new, f, outer, holes, material)
        },
        Err(e) => {
            &&& new.faces@ == old.faces@
            &&& new.hes@ == old.hes@
            &&& new.edges@ == old.edges@
            &&& if e == MeshError::CapacityExceeded {
                face_arenas_short(old, outer, holes)
            } else {
                !loop_input_ok(outer, old.verts@.len() as int)
                    || exists|k: int| 0 <= k < holes.len() && !loop_input_ok(#[trigger] holes[k], old.verts@.len() as int)
            }
        },
    }
}

/// A loop given by vertices is usable: at least three of them, all
/// stored, and no vertex repeated by its successor.
pub open spec fn loop_input_ok(w: Seq<VertId>, n_verts: int) -> bool {
    &&& w.len() >= 3
    &&& forall|i: int| 0 <= i < w.len() ==> 0 <= (#[trigger] w[i]).ix() < n_verts
    &&& forall|i: int| 0 <= i < w.len() ==> #[trigger] w[i] != w[(i + 1) % (w.len() as int)]
}


/// Some live half-edge on edge `e` belongs to the present face `x`.
pub open spec fn face_on_edge(m: Mesh, e: EdgeId, x: FaceId) -> bool {
    m.face_present(x) && exists|i: int|
        0 <= i < m.hes@.len() && (#[trigger] m.hes@[i]).alive && m.hes@[i].edge == e && m.hes@[i].face == x
}

/// The present faces owning a live half-edge on `e` among the first `n`
/// half-edge slots, each once, in the order of their first such half-edge.
pub open spec fn faces_on_edge_upto(m: Mesh, e: EdgeId, n: nat) -> Seq<FaceId>
    decreases n,
{
    if n == 0 {
        Seq::empty()
    } else {
        let s = faces_on_edge_upto(m, e, (n - 1) as nat);
        let h = m.hes@[n - 1];
        if h.alive && h.edge == e && m.face_present(h.face) && !s.contains(h.face) {
            s.push(h.face)
        } else {
            s
        }
    }
}

/// The error of collecting the loop at `st` when it does not close.
pub open spec fn loop_error(m: Mesh, st: HeId) -> MeshError {
    if m.valid_he(st) {
        MeshError::LoopNotClosed(st)
    } else {
        MeshError::HalfEdgeNotFound(st)
    }
}

/// The first live half-edge on edge `e` among slots `lo..hi`.
pub open spec fn first_on_edge(hes: Seq<HalfEdge>, e: EdgeId, lo: int, hi: int) -> Option<int>
    decreases hi - lo,
{
    if lo >= hi {
        None
    } else if hes[lo].alive && hes[lo].edge == e {
        Some(lo)
    } else {
        first_on_edge(hes, e, lo + 1, hi)
    }
}

/// The next half-edge round the edge of `h`: the first live half-edge on
/// that edge after `h` in slot order, wrapping round, or `h` itself.
pub open spec fn radial_next_ix(hes: Seq<HalfEdge>, h: int) -> int {
    let e = hes[h].edge;
    match first_on_edge(hes, e, h + 1, hes.len() as int) {
        Some(j) => j,
        None => match first_on_edge(hes, e, 0, h) {
            Some(j) => j,
            None => h,
        },
    }
}

pub proof fn lemma_first_on_edge_range(hes: Seq<HalfEdge>, e: EdgeId, lo: int, hi: int)
    ensures
        first_on_edge(hes, e, lo, hi) matches Some(j) ==> lo <= j < hi,
    decreases hi - lo,
{
    if lo < hi {
        lemma_first_on_edge_range(hes, e, lo + 1, hi);
    }
}

impl Mesh {
    pub open spec fn valid_vert(&self, v: VertId) -> bool {
        0 <= v.ix() < self.verts@.len()
    }

    pub open spec fn valid_he(&self, h: HeId) -> bool {
        0 <= h.ix() < self.hes@.len()
    }

    pub open spec fn valid_edge(&self, e: EdgeId) -> bool {
        0 <= e.ix() < self.edges@.len()
    }

    pub open spec fn valid_face(&self, f: FaceId) -> bool {
        0 <= f.ix() < self.faces@.len()
    }

    /// The face is in storage (`faces.contains` / `faces.get` succeed).
    pub open spec fn face_present(&self, f: FaceId) -> bool {
        self.valid_face(f) && self.faces@[f.ix()].present
    }

    pub open spec fn face_active(&self, f: FaceId) -> bool {
        self.face_present(f) && self.faces@[f.ix()].active
    }

    pub open spec fn edge_alive(&self, e: EdgeId) -> bool {
        self.valid_edge(e) && self.edges@[e.ix()].alive
    }

    /// Bounds of every stored handle, and room for the null handle.
    pub open spec fn wf(&self) -> bool {
        &&& self.verts@.len() < NULL_RAW
        &&& self.hes@.len() < NULL_RAW
        &&& self.edges@.len() < NULL_RAW
        &&& self.faces@.len() < NULL_RAW
        &&& hes_wf(self.hes@, self.verts@.len() as int, self.edges@.len() as int, self.faces@.len() as int)
        &&& forall|i: int| 0 <= i < self.edges@.len() ==> {
            let e = #[trigger] self.edges@[i];
            &&& 0 <= e.v0.ix() < self.verts@.len()
            &&& 0 <= e.v1.ix() < self.verts@.len()
        }
        &&& forall|i: int| 0 <= i < self.faces@.len() ==> face_wf(#[trigger] self.faces@[i], self.hes@.len() as int)
    }

    pub fn new() -> (m: Mesh)
        ensures
            m.wf(),
            m.verts@.len() == 0,
            m.hes@.len() == 0,
            m.edges@.len() == 0,
            m.faces@.len() == 0,
    {
        Mesh { verts: Vec::new(), hes: Vec::new(), edges: Vec::new(), faces: Vec::new() }
    }

    /// Whether every stored handle is in bounds (the exec form of `wf`).
    pub fn is_well_formed(&self) -> (b: bool)
        ensures
            b == self.wf(),
    {
        if self.verts.len() >= 0xffff_ffff || self.hes.len() >= 0xffff_ffff
            || self.edges.len() >= 0xffff_ffff || self.faces.len() >= 0xffff_ffff {
            return false;
        }
        let nv = self.verts.len();
        let ne = self.edges.len();
        let nh = self.hes.len();
        let nf = self.faces.len();
        let mut i: usize = 0;
        while i < nh
            invariant
                nh == self.hes@.len(),
                nv == self.verts@.len(),
                ne == self.edges@.len(),
                nf == self.faces@.len(),
                i <= nh,
                forall|k: int| 0 <= k < i ==> {
                    let h = #[trigger] self.hes@[k];
                    &&& 0 <= h.next.ix() < nh
                    &&& 0 <= h.prev.ix() < nh
                    &&& 0 <= h.dst.ix() < nv
                    &&& 0 <= h.edge.ix() < ne
                    &&& (h.face.id == NULL_RAW || 0 <= h.face.ix() < nf)
                },
            decreases nh - i,
        {
            let h = self.hes[i];
            if !((h.next.id as usize) < nh && (h.prev.id as usize) < nh && (h.dst.id as usize) < nv
                && (h.edge.id as usize) < ne && (h.face.id == NULL_RAW || (h.face.id as usize) < nf)) {
                assert(!hes_wf(self.hes@, nv as int, ne as int, nf as int)) by {
                    let k = i as int;
                    assert(self.hes@[k] == h);
                }
                return false;
            }
            i += 1;
        }
        let mut i: usize = 0;
        while i < ne
            invariant
                ne == self.edges@.len(),
                nv == self.verts@.len(),
                i <= ne,
                forall|k: int| 0 <= k < i ==> {
                    let e = #[trigger] self.edges@[k];
                    &&& 0 <= e.v0.ix() < nv
                    &&& 0 <= e.v1.ix() < nv
                },
            decreases ne - i,
        {
            let e = self.edges[i];
            if !((e.v0.id as usize) < nv && (e.v1.id as usize) < nv) {
                assert(self.edges@[i as int] == e);
                return false;
            }
            i += 1;
        }
        let mut i: usize = 0;
        while i < nf
            invariant
                nf == self.faces@.len(),
                nh == self.hes@.len(),
                i <= nf,
                forall|k: int| 0 <= k < i ==> face_wf(#[trigger] self.faces@[k], nh as int),
            decreases nf - i,
        {
            let f = &self.faces[i];
            if !(f.outer.start.id == NULL_RAW || (f.outer.start.id as usize) < nh) {
                return false;
            }
            let mut k: usize = 0;
            while k < f.inners.len()
                invariant
                    nh == self.hes@.len(),
                    i < nf,
                    nf == self.faces@.len(),
                    f == self.faces@[i as int],
                    k <= f.inners@.len(),
                    forall|j: int| 0 <= j < k ==> loop_ref_wf(#[trigger] f.inners@[j], nh as int),
                decreases f.inners@.len() - k,
            {
                let l = f.inners[k];
                if !(l.start.id == NULL_RAW || (l.start.id as usize) < nh) {
                    assert(f.inners@[k as int] == l);
                    assert(!face_wf(self.faces@[i as int], nh as int));
                    return false;
                }
                k += 1;
            }
            i += 1;
        }
        true
    }

    /// The half-edges of the loop at `start`, in `next` order.
    pub fn collect_loop_hes(&self, start: HeId) -> (r: Result<Vec<HeId>, MeshError>)
        requires
            self.wf(),
        ensures
            match r {
                Ok(v) => {
                    &&& self.valid_he(start)
                    &&& is_loop(self.hes@, start, v@.len())
                    &&& v@ == loop_seq(self.hes@, start, v@.len())
                    &&& v@.len() <= self.hes@.len()
                },
                Err(_) => !self.valid_he(start) || forall|k: nat|
                    1 <= k <= self.hes@.len() ==> #[trigger] walk(self.hes@, start, k) != start,
            },
            r matches Err(e) ==> e == MeshError::HalfEdgeNotFound(start) || e == MeshError::LoopNotClosed(start),
            r is Ok <==> loop_closes(self.hes@, start),
            r matches Ok(v) ==> v@.len() == loop_len(self.hes@, start),
            r matches Err(x) ==> x == loop_error(*self, start),
    {
        let r = self.collect_loop_hes_walk(start);
        proof {
            match &r {
                Ok(v) => {
                    lemma_loop_len(self.hes@, start, v@.len());
                },
                Err(_) => {
                    if loop_closes(self.hes@, start) {
                        lemma_loop_len_bounded(self.hes@, self.verts@.len() as int, self.edges@.len() as int,
                            self.faces@.len() as int, start, loop_len(self.hes@, start));
                        assert(walk(self.hes@, start, loop_len(self.hes@, start)) == start);
                    }
                },
            }
        }
        r
    }

    fn collect_loop_hes_walk(&self, start: HeId) -> (r: Result<Vec<HeId>, MeshError>)
        requires
            self.wf(),
        ensures
            match r {
                Ok(v) => {
                    &&& self.valid_he(start)
                    &&& is_loop(self.hes@, start, v@.len())
                    &&& v@ == loop_seq(self.hes@, start, v@.len())
                    &&& v@.len() <= self.hes@.len()
                },
                Err(_) => !self.valid_he(start) || forall|k: nat|
                    1 <= k <= self.hes@.len() ==> #[trigger] walk(self.hes@, start, k) != start,
            },
            r matches Err(e) ==> e == loop_error(*self, start),
    {
        if start.id as usize >= self.hes.len() {
            return Err(MeshError::HalfEdgeNotFound(start));
        }
        let n = self.hes.len();
        let mut v: Vec<HeId> = Vec::new();
        v.push(start);
        let mut cur = self.hes[start.id as usize].next;
        let mut steps: usize = 1;
        assert(walk(self.hes@, start, 0) == start);
        assert(walk(self.hes@, start, 1) == cur);
        assert(v@ =~= loop_seq(self.hes@, start, 1));
        while cur != start
            invariant
                self.wf(),
                n == self.hes@.len(),
                self.valid_he(start),
                1 <= steps <= n,
                v@.len() == steps,
                v@ == loop_seq(self.hes@, start, steps as nat),
                cur == walk(self.hes@, start, steps as nat),
                forall|j: nat| 0 < j < steps ==> #[trigger] walk(self.hes@, start, j) != start,
            decreases n - steps,
        {
            if steps >= n {
                assert forall|k: nat| 1 <= k <= self.hes@.len() implies #[trigger] walk(self.hes@, start, k)
                    != start by {
                    if k < steps {
                    } else {
                        assert(k == steps);
                    }
                }
                return Err(MeshError::LoopNotClosed(start));
            }
            proof {
                lemma_walk_valid(self.hes@, self.verts@.len() as int, self.edges@.len() as int,
                    self.faces@.len() as int, start, steps as nat);
            }
            v.push(cur);
            let nxt = self.hes[cur.id as usize].next;
            proof {
                assert(walk(self.hes@, start, (steps + 1) as nat) == nxt);
                assert(v@ =~= loop_seq(self.hes@, start, (steps + 1) as nat));
            }
            cur = nxt;
            steps += 1;
        }
        Ok(v)
    }

    /// The vertices of the loop at `start`: the tail of each half-edge.
    pub fn collect_loop_verts(&self, start: HeId) -> (r: Result<Vec<VertId>, MeshError>)
        requires
            self.wf(),
        ensures
            match r {
                Ok(v) => {
                    &&& self.valid_he(start)
                    &&& is_loop(self.hes@, start, v@.len())
                    &&& v@ == loop_verts(self.hes@, start, v@.len())
                    &&& v@.len() <= self.hes@.len()
                },
                Err(_) => !self.valid_he(start) || forall|k: nat|
                    1 <= k <= self.hes@.len() ==> #[trigger] walk(self.hes@, start, k) != start,
            },
            r is Ok <==> loop_closes(self.hes@, start),
            r matches Ok(v) ==> v@ == loop_verts(self.hes@, start, loop_len(self.hes@, start)),
            r matches Err(x) ==> x == loop_error(*self, start),
    {
        let hs = match self.collect_loop_hes(start) {
            Ok(hs) => hs,
            Err(x) => {
                return Err(x);
            },
        };
        let n = hs.len();
        let mut out: Vec<VertId> = Vec::new();
        let mut i: usize = 0;
        while i < n
            invariant
                self.wf(),
                n == hs@.len(),
                1 <= n <= self.hes@.len(),
                self.valid_he(start),
                hs@ == loop_seq(self.hes@, start, n as nat),
                i <= n,
                out@.len() == i,
                forall|k: int| 0 <= k < i ==> out@[k] == #[trigger] loop_verts(self.hes@, start, n as nat)[k],
            decreases n - i,
        {
            let j = if i == 0 { n - 1 } else { i - 1 };
            assert(j as int == (i as int + n as int - 1) % (n as int)) by (nonlinear_arith)
                requires
                    j == (if i == 0 { n - 1 } else { i - 1 }),
                    i < n,
            ;
            proof {
                lemma_walk_valid(self.hes@, self.verts@.len() as int, self.edges@.len() as int,
                    self.faces@.len() as int, start, j as nat);
            }
            let h = hs[j];
            out.push(self.hes[h.id as usize].dst);
            i += 1;
        }
        assert(out@ =~= loop_verts(self.hes@, start, n as nat));
        Ok(out)
    }

    /// The edges of a present face's outer loop, in loop order.
    pub fn face_outer_edges(&self, f: FaceId) -> (r: Result<Vec<EdgeId>, MeshError>)
        requires
            self.wf(),
        ensures
            match r {
                Ok(v) => {
                    &&& self.face_present(f)
                    &&& is_loop(self.hes@, self.faces@[f.ix()].outer.start, v@.len())
                    &&& v@ == loop_edges(self.hes@, self.faces@[f.ix()].outer.start, v@.len())
                },
                Err(_) => !self.face_present(f) || {
                    let s = self.faces@[f.ix()].outer.start;
                    !self.valid_he(s) || forall|k: nat|
                        1 <= k <= self.hes@.len() ==> #[trigger] walk(self.hes@, s, k) != s
                },
            },
            r matches Err(e) ==> !(e is EdgeNotFound),
            r matches Err(e) ==> e == (if !self.face_present(f) {
                MeshError::FaceNotFound(f)
            } else {
                loop_error(*self, self.faces@[f.ix()].outer.start)
            }),
            r is Ok <==> self.face_present(f) && loop_closes(self.hes@, self.faces@[f.ix()].outer.start),
            r matches Ok(v) ==> v@.len() == loop_len(self.hes@, self.faces@[f.ix()].outer.start),
    {
        if f.id as usize >= self.faces.len() || !self.faces[f.id as usize].present {
            return Err(MeshError::FaceNotFound(f));
        }
        let start = self.faces[f.id as usize].outer.start;
        let hs = match self.collect_loop_hes(start) {
            Ok(hs) => hs,
            Err(x) => {
                return Err(x);
            },
        };
        let n = hs.len();
        let mut out: Vec<EdgeId> = Vec::new();
        let mut i: usize = 0;
        while i < n
            invariant
                self.wf(),
                n == hs@.len(),
                self.valid_he(start),
                hs@ == loop_seq(self.hes@, start, n as nat),
                i <= n,
                out@.len() == i,
                forall|k: int| 0 <= k < i ==> out@[k] == #[trigger] loop_edges(self.hes@, start, n as nat)[k],
            decreases n - i,
        {
            proof {
                lemma_walk_valid(self.hes@, self.verts@.len() as int, self.edges@.len() as int,
                    self.faces@.len() as int, start, i as nat);
            }
            let h = hs[i];
            out.push(self.hes[h.id as usize].edge);
            i += 1;
        }
        assert(out@ =~= loop_edges(self.hes@, start, n as nat));
        Ok(out)
    }

    /// Adds an isolated vertex.
    pub fn add_vertex(&mut self) -> (r: Result<VertId, MeshError>)
        requires
            old(self).wf(),
        ensures
            final(self).wf(),
            final(self).hes@ == old(self).hes@,
            final(self).edges@ == old(self).edges@,
            final(self).faces@ == old(self).faces@,
            match r {
                Ok(v) => {
                    &&& v.ix() == old(self).verts@.len()
                    &&& final(self).verts@ == old(self).verts@.push(Vertex { alive: true })
                },
                Err(e) => e == MeshError::CapacityExceeded && old(self).verts@.len() + 1 >= NULL_RAW
                    && final(self).verts@ == old(self).verts@,
            },
    {
        if self.verts.len() >= 0xffff_fffe {
            return Err(MeshError::CapacityExceeded);
        }
        let v = VertId { id: self.verts.len() as u32 };
        self.verts.push(Vertex { alive: true });
        Ok(v)
    }

    /// The first live edge joining `a` and `b` (in either direction).
    pub fn find_edge(&self, a: VertId, b: VertId) -> (r: Option<EdgeId>)
        requires
            self.wf(),
        ensures
            match r {
                Some(e) => {
                    &&& self.valid_edge(e)
                    &&& edge_joins(self.edges@[e.ix()], a, b)
                    &&& forall|k: int| 0 <= k < e.ix() ==> !edge_joins(#[trigger] self.edges@[k], a, b)
                },
                None => forall|k: int| 0 <= k < self.edges@.len() ==> !edge_joins(#[trigger] self.edges@[k], a, b),
            },
    {
        let n = self.edges.len();
        let mut i: usize = 0;
        while i < n
            invariant
                n == self.edges@.len(),
                i <= n,
                n < NULL_RAW,
                forall|k: int| 0 <= k < i ==> !edge_joins(#[trigger] self.edges@[k], a, b),
            decreases n - i,
        {
            let e = self.edges[i];
            if e.alive && ((e.v0 == a && e.v1 == b) || (e.v0 == b && e.v1 == a)) {
                return Some(EdgeId { id: i as u32 });
            }
            i += 1;
        }
        None
    }

    /// The live edge joining `a` and `b`, created (without a curve) when
    /// there is none. The flag tells whether it was created.
    pub fn add_edge(&mut self, a: VertId, b: VertId) -> (r: Result<(EdgeId, bool), MeshError>)
        requires
            old(self).wf(),
        ensures
            final(self).wf(),
            final(self).hes@ == old(self).hes@,
            final(self).verts@ == old(self).verts@,
            final(self).faces@ == old(self).faces@,
            match r {
                Ok((e, created)) => {
                    &&& final(self).valid_edge(e)
                    &&& edge_joins(final(self).edges@[e.ix()], a, b)
                    &&& old(self).valid_vert(a) && old(self).valid_vert(b)
                    &&& created ==> e.ix() == old(self).edges@.len() && final(self).edges@
                        == old(self).edges@.push(Edge { alive: true, v0: a, v1: b, curve: None })
                    &&& !created ==> final(self).edges@ == old(self).edges@
                },
                Err(err) => {
                    &&& final(self).edges@ == old(self).edges@
                    &&& (err == MeshError::VertNotFound(a) && !old(self).valid_vert(a))
                        || (err == MeshError::VertNotFound(b) && old(self).valid_vert(a) && !old(self).valid_vert(b))
                        || (err == MeshError::CapacityExceeded && old(self).valid_vert(a) && old(self).valid_vert(b)
                            && old(self).edges@.len() + 1 >= NULL_RAW)
                },
            },
    {
        if a.id as usize >= self.verts.len() {
            return Err(MeshError::VertNotFound(a));
        }
        if b.id as usize >= self.verts.len() {
            return Err(MeshError::VertNotFound(b));
        }
        match self.find_edge(a, b) {
            Some(e) => Ok((e, false)),
            None => {
                if self.edges.len() >= 0xffff_fffe {
                    return Err(MeshError::CapacityExceeded);
                }
                let e = EdgeId { id: self.edges.len() as u32 };
                self.edges.push(Edge { alive: true, v0: a, v1: b, curve: None });
                Ok((e, true))
            },
        }
    }

    /// Appends a closed loop of new half-edges along `w` (one per
    /// consecutive pair, the last closing back to `w[0]`), owned by `f`.
    fn append_loop(&mut self, w: &[VertId], f: FaceId, is_outer: bool) -> (start: HeId)
        requires
            old(self).wf(),
            w@.len() >= 3,
            forall|i: int| 0 <= i < w@.len() ==> old(self).valid_vert(#[trigger] w@[i]),
            f.id == NULL_RAW || old(self).valid_face(f),
            old(self).hes@.len() + w@.len() < NULL_RAW,
            old(self).edges@.len() + w@.len() < NULL_RAW,
        ensures
            final(self).wf(),
            start.ix() == old(self).hes@.len(),
            final(self).hes@.len() == old(self).hes@.len() + w@.len(),
            final(self).hes@.take(old(self).hes@.len() as int) == old(self).hes@,
            new_loop_fields(final(self).hes@, final(self).edges@, start.ix(), w@, f, is_outer),
            final(self).edges@.len() >= old(self).edges@.len(),
            final(self).edges@.len() <= old(self).edges@.len() + w@.len(),
            final(self).edges@.take(old(self).edges@.len() as int) == old(self).edges@,
            plain_from(final(self).edges@, old(self).edges@.len() as int),
            final(self).verts@ == old(self).verts@,
            final(self).faces@ == old(self).faces@,
    {
        let n = w.len();
        let base = self.hes.len();
        let ghost old_hes = self.hes@;
        let ghost old_edges = self.edges@;
        let mut i: usize = 0;
        while i < n
            invariant
                self.wf(),
                n == w@.len(),
                n >= 3,
                forall|j: int| 0 <= j < w@.len() ==> self.valid_vert(#[trigger] w@[j]),
                f.id == NULL_RAW || self.valid_face(f),
                base == old_hes.len(),
                base + n < NULL_RAW,
                old_edges.len() + n < NULL_RAW,
                i <= n,
                self.hes@.len() == base + i,
                self.hes@.take(base as int) == old_hes,
                self.edges@.len() >= old_edges.len(),
                self.edges@.len() <= old_edges.len() + i,
                self.edges@.take(old_edges.len() as int) == old_edges,
                plain_from(self.edges@, old_edges.len() as int),
                self.verts@ == old(self).verts@,
                self.faces@ == old(self).faces@,
                forall|j: int| 0 <= j < i ==> new_loop_he_partial(#[trigger] self.hes@[base + j], self.edges@, j, w@, f, is_outer),
            decreases n - i,
        {
            let j = if i + 1 == n { 0 } else { i + 1 };
            proof {
                assert(j as int == (i as int + 1) % (n as int)) by (nonlinear_arith)
                    requires j == (if i + 1 == n { 0 } else { i + 1 }), i < n;
            }
            let ghost before_edges = self.edges@;
            let (e, _) = match self.add_edge(w[i], w[j]) {
                Ok(x) => x,
                Err(_) => {
                    return HeId { id: 0 };
                },
            };
            let me = HeId { id: (base + i) as u32 };
            let he = HalfEdge { alive: true, dst: w[j], next: me, prev: me, edge: e, face: f, is_outer };
            let ghost before = self.hes@;
            self.hes.push(he);
            proof {
                assert forall|k: int| 0 <= k < i + 1 implies new_loop_he_partial(#[trigger] self.hes@[base + k],
                    self.edges@, k, w@, f, is_outer) by {
                    if k < i {
                        assert(self.hes@[base + k] == before[base + k]);
                        let e2 = before[base + k].edge;
                        assert(self.edges@[e2.ix()] == before_edges[e2.ix()]);
                    }
                }
                assert(self.hes@.take(base as int) =~= old_hes);
                assert forall|q: int| 0 <= q < self.hes@.len() implies {
                    let h = #[trigger] self.hes@[q];
                    &&& 0 <= h.next.ix() < self.hes@.len()
                    &&& 0 <= h.prev.ix() < self.hes@.len()
                    &&& 0 <= h.dst.ix() < self.verts@.len()
                    &&& 0 <= h.edge.ix() < self.edges@.len()
                    &&& (h.face.id == NULL_RAW || 0 <= h.face.ix() < self.faces@.len())
                } by {
                    if q < before.len() {
                        assert(self.hes@[q] == before[q]);
                    }
                }
            }
            i += 1;
        }
        let mut i: usize = 0;
        while i < n
            invariant
                self.wf(),
                n == w@.len(),
                n >= 3,
                base == old_hes.len(),
                base + n < NULL_RAW,
                i <= n,
                self.hes@.len() == base + n,
                self.hes@.take(base as int) == old_hes,
                self.edges@.len() >= old_edges.len(),
                self.edges@.len() <= old_edges.len() + n,
                self.edges@.take(old_edges.len() as int) == old_edges,
                plain_from(self.edges@, old_edges.len() as int),
                self.verts@ == old(self).verts@,
                self.faces@ == old(self).faces@,
                forall|j: int| 0 <= j < i ==> new_loop_he_ok(#[trigger] self.hes@[base + j], self.edges@, base as int, j, w@, f, is_outer),
                forall|j: int| i <= j < n ==> new_loop_he_partial(#[trigger] self.hes@[base + j], self.edges@, j, w@, f, is_outer),
            decreases n - i,
        {
            let j = if i + 1 == n { 0 } else { i + 1 };
            let p = if i == 0 { n - 1 } else { i - 1 };
            proof {
                assert(j as int == (i as int + 1) % (n as int)) by (nonlinear_arith)
                    requires j == (if i + 1 == n { 0 } else { i + 1 }), i < n;
                assert(p as int == (i as int + n as int - 1) % (n as int)) by (nonlinear_arith)
                    requires p == (if i == 0 { n - 1 } else { i - 1 }), i < n;
            }
            let ghost before = self.hes@;
            let mut h = self.hes[base + i];
            h.next = HeId { id: (base + j) as u32 };
            h.prev = HeId { id: (base + p) as u32 };
            self.hes.set(base + i, h);
            proof {
                assert forall|k: int| 0 <= k < i + 1 implies new_loop_he_ok(#[trigger] self.hes@[base + k],
                    self.edges@, base as int, k, w@, f, is_outer) by {
                    if k < i {
                        assert(self.hes@[base + k] == before[base + k]);
                    }
                }
                assert forall|k: int| i + 1 <= k < n implies new_loop_he_partial(#[trigger] self.hes@[base + k],
                    self.edges@, k, w@, f, is_outer) by {
                    assert(self.hes@[base + k] == before[base + k]);
                }
                assert(self.hes@.take(base as int) =~= old_hes);
                assert forall|q: int| 0 <= q < self.hes@.len() implies {
                    let h = #[trigger] self.hes@[q];
                    &&& 0 <= h.next.ix() < self.hes@.len()
                    &&& 0 <= h.prev.ix() < self.hes@.len()
                    &&& 0 <= h.dst.ix() < self.verts@.len()
                    &&& 0 <= h.edge.ix() < self.edges@.len()
                    &&& (h.face.id == NULL_RAW || 0 <= h.face.ix() < self.faces@.len())
                } by {
                    if q != base + i {
                        assert(self.hes@[q] == before[q]);
                    }
                }
            }
            i += 1;
        }
        HeId { id: base as u32 }
    }

    /// Checks a loop given by vertices.
    pub(crate) fn check_loop(&self, w: &[VertId]) -> (r: Result<(), MeshError>)
        ensures
            r is Ok <==> loop_input_ok(w@, self.verts@.len() as int),
            r matches Err(e) ==> (e == MeshError::DegenerateLoop || exists|i: int| 0 <= i < w@.len()
                && e == MeshError::VertNotFound(w@[i]) && !self.valid_vert(w@[i])),
    {
        let n = w.len();
        if n < 3 {
            return Err(MeshError::DegenerateLoop);
        }
        let mut i: usize = 0;
        while i < n
            invariant
                n == w@.len(),
                n >= 3,
                i <= n,
                forall|k: int| 0 <= k < i ==> 0 <= (#[trigger] w@[k]).ix() < self.verts@.len(),
            decreases n - i,
        {
            if w[i].id as usize >= self.verts.len() {
                return Err(MeshError::VertNotFound(w[i]));
            }
            i += 1;
        }
        let mut i: usize = 0;
        while i < n
            invariant
                n == w@.len(),
                n >= 3,
                i <= n,
                forall|k: int| 0 <= k < n ==> 0 <= (#[trigger] w@[k]).ix() < self.verts@.len(),
                forall|k: int| 0 <= k < i ==> #[trigger] w@[k] != w@[(k + 1) % (n as int)],
            decreases n - i,
        {
            let j = if i + 1 == n { 0 } else { i + 1 };
            assert(j as int == (i as int + 1) % (n as int)) by (nonlinear_arith)
                requires j == (if i + 1 == n { 0 } else { i + 1 }), i < n;
            if w[i] == w[j] {
                return Err(MeshError::DegenerateLoop);
            }
            i += 1;
        }
        Ok(())
    }

    /// Adds a face bounded by the loop `outer` and the hole loops `holes`,
    /// each given by its vertices in order. Every loop gets new half-edges
    /// owned by the new face; consecutive vertices are joined by the edge
    /// already joining them, or by a new one.
    pub fn add_face_with_holes(&mut self, outer: &[VertId], holes: &[Vec<VertId>], material: MaterialId) -> (r: Result<FaceId, MeshError>)
        requires
            old(self).wf(),
        ensures
            final(self).wf(),
            face_added(*old(self), *final(self), outer@, hole_views(holes@), material, r),
            r matches Ok(f) ==> {
                &&& final(self).hes@.len() == old(self).hes@.len() + outer@.len() + holes_sum(holes@, holes@.len())
                &&& final(self).edges@.len() <= old(self).edges@.len() + outer@.len() + holes_sum(holes@, holes@.len())
                &&& final(self).edges@.len() >= old(self).edges@.len()
                &&& plain_from(final(self).edges@, old(self).edges@.len() as int)
                &&& final(self).faces@[f.ix()].outer.start.ix() == old(self).hes@.len()
                &&& forall|q: int| 0 <= q < holes@.len() ==> 0 <= (#[trigger] final(self).faces@[f.ix()].inners@[q]).start.ix()
                    && final(self).faces@[f.ix()].inners@[q].start.ix() + holes@[q]@.len() <= final(self).hes@.len()
            },
            r is Err ==> {
                ||| !loop_input_ok(outer@, old(self).verts@.len() as int)
                ||| exists|k: int| 0 <= k < holes@.len() && !loop_input_ok(#[trigger] holes@[k]@, old(self).verts@.len() as int)
                ||| old(self).faces@.len() + 2 >= NULL_RAW
                ||| old(self).hes@.len() + outer@.len() + holes_sum(holes@, holes@.len()) >= NULL_RAW
                ||| old(self).edges@.len() + outer@.len() + holes_sum(holes@, holes@.len()) >= NULL_RAW
            },
    {
        proof {
            lemma_holes_total(holes@, holes@.len());
        }
        match self.check_loop(outer) {
            Ok(()) => {},
            Err(x) => {
                return Err(x);
            },
        }
        if outer.len() >= 0xffff_ffff {
            proof {
                lemma_holes_sum_mono(holes@, 0, holes@.len());
            }
            return Err(MeshError::CapacityExceeded);
        }
        let nh = holes.len();
        let mut total: usize = outer.len();
        let mut k: usize = 0;
        while k < nh
            invariant
                self.wf(),
                nh == holes@.len(),
                k <= nh,
                total < NULL_RAW,
                total == outer@.len() + holes_sum(holes@, k as nat),
                forall|q: int| 0 <= q < k ==> loop_input_ok(#[trigger] holes@[q]@, self.verts@.len() as int),
            decreases nh - k,
        {
            match self.check_loop(holes[k].as_slice()) {
                Ok(()) => {},
                Err(x) => {
                    assert(hole_views(holes@)[k as int] == holes@[k as int]@);
                    return Err(x);
                },
            }
            if holes[k].len() >= 0xffff_ffff || total >= 0xffff_ffff - holes[k].len() {
                proof {
                    lemma_holes_sum_mono(holes@, (k + 1) as nat, holes@.len());
                    assert(holes_sum(holes@, (k + 1) as nat) == holes_sum(holes@, k as nat) + holes@[k as int]@.len());
                    lemma_holes_total(holes@, holes@.len());
                }
                return Err(MeshError::CapacityExceeded);
            }
            total = total + holes[k].len();
            k += 1;
        }
        if self.faces.len() >= 0xffff_fffe || self.hes.len() >= 0xffff_ffff - total
            || self.edges.len() >= 0xffff_ffff - total {
            return Err(MeshError::CapacityExceeded);
        }
        let f = self.build_face(outer, holes, material, total);
        Ok(f)
    }

    /// Pushes a present, active face with no loops yet.
    fn push_blank_face(&mut self, material: MaterialId) -> (f: FaceId)
        requires
            old(self).wf(),
            old(self).faces@.len() + 1 < NULL_RAW,
        ensures
            final(self).wf(),
            f.ix() == old(self).faces@.len(),
            final(self).faces@.len() == old(self).faces@.len() + 1,
            final(self).faces@.take(f.ix()) == old(self).faces@,
            final(self).hes@ == old(self).hes@,
            final(self).edges@ == old(self).edges@,
            final(self).verts@ == old(self).verts@,
            final(self).faces@[f.ix()].present,
            final(self).faces@[f.ix()].active,
            final(self).faces@[f.ix()].outer == (LoopRef { start: HeId { id: NULL_RAW }, is_outer: true }),
            final(self).faces@[f.ix()].inners@.len() == 0,
            final(self).faces@[f.ix()].material == material,
            final(self).faces@[f.ix()].surface is None,
            !final(self).faces@[f.ix()].normal_flipped,
    {
        let fi = self.faces.len();
        let ghost f0 = self.faces@;
        let ghost h0 = self.hes@;
        self.faces.push(Face {
            present: true,
            active: true,
            outer: LoopRef { start: HeId::null(), is_outer: true },
            inners: Vec::new(),
            material,
            surface: None,
            normal_flipped: false,
        });
        proof {
            assert(self.faces@.take(fi as int) =~= f0);
            assert forall|i: int| 0 <= i < self.faces@.len() implies face_wf(#[trigger] self.faces@[i], self.hes@.len() as int) by {
                if i < f0.len() {
                    assert(self.faces@[i] == f0[i]);
                }
            }
            assert forall|i: int| 0 <= i < self.hes@.len() implies {
                let h = #[trigger] self.hes@[i];
                &&& 0 <= h.next.ix() < self.hes@.len()
                &&& 0 <= h.prev.ix() < self.hes@.len()
                &&& 0 <= h.dst.ix() < self.verts@.len()
                &&& 0 <= h.edge.ix() < self.edges@.len()
                &&& (h.face.id == NULL_RAW || 0 <= h.face.ix() < self.faces@.len())
            } by {
                assert(self.hes@[i] == h0[i]);
            }
        }
        FaceId { id: fi as u32 }
    }

    /// Appends one loop per hole, owned by `f`, keeping the fields of the
    /// outer loop already appended at `ostart`.
    fn append_holes(&mut self, holes: &[Vec<VertId>], f: FaceId, ostart: HeId, outer: Ghost<Seq<VertId>>) -> (refs: Vec<LoopRef>)
        requires
            old(self).wf(),
            old(self).valid_face(f),
            forall|q: int| 0 <= q < holes@.len() ==> loop_input_ok(#[trigger] holes@[q]@, old(self).verts@.len() as int),
            old(self).hes@.len() + holes_sum(holes@, holes@.len()) < NULL_RAW,
            old(self).edges@.len() + holes_sum(holes@, holes@.len()) < NULL_RAW,
            new_loop_fields(old(self).hes@, old(self).edges@, ostart.ix(), outer@, f, true),
            0 <= ostart.ix(),
            ostart.ix() + outer@.len() <= old(self).hes@.len(),
        ensures
            final(self).wf(),
            final(self).verts@ == old(self).verts@,
            final(self).faces@ == old(self).faces@,
            final(self).hes@.len() == old(self).hes@.len() + holes_sum(holes@, holes@.len()),
            final(self).edges@.len() >= old(self).edges@.len(),
            final(self).edges@.len() <= old(self).edges@.len() + holes_sum(holes@, holes@.len()),
            final(self).hes@.take(old(self).hes@.len() as int) == old(self).hes@,
            final(self).edges@.take(old(self).edges@.len() as int) == old(self).edges@,
            plain_from(final(self).edges@, old(self).edges@.len() as int),
            new_loop_fields(final(self).hes@, final(self).edges@, ostart.ix(), outer@, f, true),
            refs@.len() == holes@.len(),
            forall|q: int| 0 <= q < holes@.len() ==> {
                &&& !(#[trigger] refs@[q]).is_outer
                &&& refs@[q].start.ix() + holes@[q]@.len() <= final(self).hes@.len()
                &&& 0 <= refs@[q].start.ix()
                &&& new_loop_fields(final(self).hes@, final(self).edges@, refs@[q].start.ix(), holes@[q]@, f, false)
            },
    {
        let nh = holes.len();
        let ghost h0 = self.hes@;
        let ghost e0 = self.edges@;
        let mut inner_refs: Vec<LoopRef> = Vec::new();
        let mut k: usize = 0;
        while k < nh
            invariant
                self.wf(),
                nh == holes@.len(),
                k <= nh,
                self.valid_face(f),
                self.faces@ == old(self).faces@,
                self.verts@ == old(self).verts@,
                h0 == old(self).hes@,
                e0 == old(self).edges@,
                forall|q: int| 0 <= q < nh ==> loop_input_ok(#[trigger] holes@[q]@, self.verts@.len() as int),
                h0.len() + holes_sum(holes@, nh as nat) < NULL_RAW,
                e0.len() + holes_sum(holes@, nh as nat) < NULL_RAW,
                self.hes@.len() == h0.len() + holes_sum(holes@, k as nat),
                self.edges@.len() <= e0.len() + holes_sum(holes@, k as nat),
                self.edges@.len() >= e0.len(),
                self.hes@.take(h0.len() as int) == h0,
                self.edges@.take(e0.len() as int) == e0,
                plain_from(self.edges@, e0.len() as int),
                new_loop_fields(self.hes@, self.edges@, ostart.ix(), outer@, f, true),
                0 <= ostart.ix(),
                ostart.ix() + outer@.len() <= h0.len(),
                inner_refs@.len() == k,
                forall|q: int| 0 <= q < k ==> {
                    &&& !(#[trigger] inner_refs@[q]).is_outer
                    &&& inner_refs@[q].start.ix() + holes@[q]@.len() <= self.hes@.len()
                    &&& 0 <= inner_refs@[q].start.ix()
                    &&& new_loop_fields(self.hes@, self.edges@, inner_refs@[q].start.ix(), holes@[q]@, f, false)
                },
            decreases nh - k,
        {
            proof {
                lemma_holes_sum_mono(holes@, (k + 1) as nat, nh as nat);
            }
            let ghost hb = self.hes@;
            let ghost eb = self.edges@;
            let s = self.append_loop(holes[k].as_slice(), f, false);
            proof {
                lemma_new_loop_extend(hb, eb, self.hes@, self.edges@, ostart.ix(), outer@, f, true);
                assert forall|q: int| 0 <= q < k implies {
                    &&& !(#[trigger] inner_refs@[q]).is_outer
                    &&& inner_refs@[q].start.ix() + holes@[q]@.len() <= self.hes@.len()
                    &&& 0 <= inner_refs@[q].start.ix()
                    &&& new_loop_fields(self.hes@, self.edges@, inner_refs@[q].start.ix(), holes@[q]@, f, false)
                } by {
                    lemma_new_loop_extend(hb, eb, self.hes@, self.edges@, inner_refs@[q].start.ix(), holes@[q]@, f, false);
                }
                lemma_take_trans(self.hes@, hb, h0);
                lemma_take_trans(self.edges@, eb, e0);
                lemma_plain_chain(eb, self.edges@, e0.len() as int);
            }
            inner_refs.push(LoopRef { start: s, is_outer: false });
            k += 1;
        }
        inner_refs
    }

    /// Appends the loops of a new face and records them on it.
    fn build_face(&mut self, outer: &[VertId], holes: &[Vec<VertId>], material: MaterialId, total: usize) -> (f: FaceId)
        requires
            old(self).wf(),
            loop_input_ok(outer@, old(self).verts@.len() as int),
            forall|q: int| 0 <= q < holes@.len() ==> loop_input_ok(#[trigger] holes@[q]@, old(self).verts@.len() as int),
            total == outer@.len() + holes_sum(holes@, holes@.len()),
            old(self).faces@.len() + 1 < NULL_RAW,
            old(self).hes@.len() + total < NULL_RAW,
            old(self).edges@.len() + total < NULL_RAW,
        ensures
            final(self).wf(),
            final(self).verts@ == old(self).verts@,
            f.ix() == old(self).faces@.len(),
            final(self).faces@.len() == old(self).faces@.len() + 1,
            final(self).faces@.take(f.ix()) == old(self).faces@,
            final(self).hes@.len() > old(self).hes@.len(),
            final(self).hes@.len() == old(self).hes@.len() + total,
            final(self).edges@.len() <= old(self).edges@.len() + total,
            final(self).edges@.len() >= old(self).edges@.len(),
            final(self).faces@[f.ix()].outer.start.ix() == old(self).hes@.len(),
            forall|q: int| 0 <= q < holes@.len() ==> 0 <= (#[trigger] final(self).faces@[f.ix()].inners@[q]).start.ix()
                && final(self).faces@[f.ix()].inners@[q].start.ix() + holes@[q]@.len() <= final(self).hes@.len(),
            final(self).hes@.take(old(self).hes@.len() as int) == old(self).hes@,
            final(self).edges@.take(old(self).edges@.len() as int) == old(self).edges@,
            plain_from(final(self).edges@, old(self).edges@.len() as int),
            new_face_ok(*final(self), f, outer@, hole_views(holes@), material),
    {
        let ghost h0 = self.hes@;
        let ghost e0 = self.edges@;
        let ghost f0 = self.faces@;
        let f = self.push_blank_face(material);
        let ghost h1 = self.hes@;
        let ghost e1 = self.edges@;
        let ostart = self.append_loop(outer, f, true);
        let ghost h2 = self.hes@;
        let ghost e2 = self.edges@;
        let inner_refs = self.append_holes(holes, f, ostart, Ghost(outer@));
        proof {
            lemma_take_trans(self.hes@, h2, h1);
            lemma_take_trans(self.edges@, e2, e1);
            lemma_plain_chain(e2, self.edges@, e0.len() as int);
        }
        let fi = f.id as usize;
        let ghost fb = self.faces@;
        self.faces.set(fi, Face {
            present: true,
            active: true,
            outer: LoopRef { start: ostart, is_outer: true },
            inners: inner_refs,
            material,
            surface: None,
            normal_flipped: false,
        });
        proof {
            lemma_take_update(fb, f0, fi as int);
            assert forall|i: int| 0 <= i < self.faces@.len() implies face_wf(#[trigger] self.faces@[i], self.hes@.len() as int) by {
                if i < fi {
                    assert(self.faces@[i] == fb[i]);
                }
            }
            let face = self.faces@[fi as int];
            lemma_new_loop_is_loop(self.hes@, self.edges@, face.outer.start, outer@, f, true);
            assert forall|q: int| 0 <= q < holes@.len() implies {
                &&& !(#[trigger] face.inners@[q]).is_outer
                &&& new_loop_fields(self.hes@, self.edges@, face.inners@[q].start.ix(), holes@[q]@, f, false)
                &&& is_loop(self.hes@, face.inners@[q].start, holes@[q]@.len())
                &&& loop_verts(self.hes@, face.inners@[q].start, holes@[q]@.len()) == holes@[q]@
            } by {
                lemma_new_loop_is_loop(self.hes@, self.edges@, face.inners@[q].start, holes@[q]@, f, false);
            }
        }
        f
    }

    /// The present faces that own a live half-edge on `e`, each once, in
    /// the slot order of their first such half-edge.
    pub fn get_faces_sharing_edge(&self, e: EdgeId) -> (r: Vec<FaceId>)
        requires
            self.wf(),
        ensures
            r@ == faces_on_edge_upto(*self, e, self.hes@.len() as nat),
            r@.no_duplicates(),
            forall|x: FaceId| #[trigger] r@.contains(x) <==> face_on_edge(*self, e, x),
    {
        let nh = self.hes.len();
        let mut out: Vec<FaceId> = Vec::new();
        let mut i: usize = 0;
        while i < nh
            invariant
                self.wf(),
                nh == self.hes@.len(),
                i <= nh,
                out@ == faces_on_edge_upto(*self, e, i as nat),
                out@.no_duplicates(),
                forall|x: FaceId| #[trigger] out@.contains(x) <==> (self.face_present(x) && exists|k: int|
                    0 <= k < i && (#[trigger] self.hes@[k]).alive && self.hes@[k].edge == e && self.hes@[k].face == x),
            decreases nh - i,
        {
            let he = self.hes[i];
            let x = he.face;
            if he.alive && he.edge == e && x.id != NULL_RAW && (x.id as usize) < self.faces.len()
                && self.faces[x.id as usize].present {
                let mut present = false;
                let mut j: usize = 0;
                while j < out.len()
                    invariant
                        j <= out@.len(),
                        present == out@.take(j as int).contains(x),
                    decreases out@.len() - j,
                {
                    let ghost p0 = present;
                    if out[j] == x {
                        present = true;
                    }
                    proof {
                        let t = out@.take(j as int);
                        let t1 = out@.take(j + 1);
                        assert(t1 =~= t.push(out@[j as int]));
                        if t1.contains(x) && out@[j as int] != x {
                            let q = choose|q: int| 0 <= q < t1.len() && t1[q] == x;
                            assert(t[q] == x);
                        }
                        if t.contains(x) {
                            let q = choose|q: int| 0 <= q < t.len() && t[q] == x;
                            assert(t1[q] == x);
                        }
                        if out@[j as int] == x {
                            assert(t1[j as int] == x);
                        }
                    }
                    j += 1;
                }
                assert(out@.take(out@.len() as int) =~= out@);
                if !present {
                    let ghost ob = out@;
                    out.push(x);
                    proof {
                        assert forall|a: int, b: int| 0 <= a < out@.len() && 0 <= b < out@.len() && a != b implies out@[a] != out@[b] by {
                            if a < ob.len() && b < ob.len() {
                                assert(ob[a] != ob[b]);
                            } else if a < ob.len() {
                                assert(ob.contains(out@[a]));
                            } else if b < ob.len() {
                                assert(ob.contains(out@[b]));
                            }
                        }
                        assert forall|y: FaceId| #[trigger] out@.contains(y) <==> (self.face_present(y) && exists|k: int|
                            0 <= k < i + 1 && (#[trigger] self.hes@[k]).alive && self.hes@[k].edge == e && self.hes@[k].face == y) by {
                            if out@.contains(y) && y != x {
                                let q = choose|q: int| 0 <= q < out@.len() && out@[q] == y;
                                assert(ob[q] == y);
                                assert(ob.contains(y));
                            }
                            if ob.contains(y) {
                                let q = choose|q: int| 0 <= q < ob.len() && ob[q] == y;
                                assert(out@[q] == y);
                            }
                            if y == x {
                                assert(out@[ob.len() as int] == y);
                                assert(self.hes@[i as int].face == y);
                            }
                            if self.face_present(y) && exists|k: int|
                                0 <= k < i + 1 && (#[trigger] self.hes@[k]).alive && self.hes@[k].edge == e && self.hes@[k].face == y {
                                let k = choose|k: int| 0 <= k < i + 1 && (#[trigger] self.hes@[k]).alive && self.hes@[k].edge == e && self.hes@[k].face == y;
                                if k < i {
                                    assert(ob.contains(y));
                                }
                            }
                        }
                    }
                } else {
                    proof {
                        assert forall|y: FaceId| #[trigger] out@.contains(y) <==> (self.face_present(y) && exists|k: int|
                            0 <= k < i + 1 && (#[trigger] self.hes@[k]).alive && self.hes@[k].edge == e && self.hes@[k].face == y) by {
                            if self.face_present(y) && exists|k: int|
                                0 <= k < i + 1 && (#[trigger] self.hes@[k]).alive && self.hes@[k].edge == e && self.hes@[k].face == y {
                                let k = choose|k: int| 0 <= k < i + 1 && (#[trigger] self.hes@[k]).alive && self.hes@[k].edge == e && self.hes@[k].face == y;
                                if k == i {
                                    assert(y == x);
                                }
                            }
                            if out@.contains(y) {
                                let k = choose|k: int| 0 <= k < i && (#[trigger] self.hes@[k]).alive && self.hes@[k].edge == e && self.hes@[k].face == y;
                                assert(0 <= k < i + 1);
                            }
                        }
                    }
                }
            } else {
                proof {
                    assert forall|y: FaceId| #[trigger] out@.contains(y) <==> (self.face_present(y) && exists|k: int|
                        0 <= k < i + 1 && (#[trigger] self.hes@[k]).alive && self.hes@[k].edge == e && self.hes@[k].face == y) by {
                        if self.face_present(y) && exists|k: int|
                            0 <= k < i + 1 && (#[trigger] self.hes@[k]).alive && self.hes@[k].edge == e && self.hes@[k].face == y {
                            let k = choose|k: int| 0 <= k < i + 1 && (#[trigger] self.hes@[k]).alive && self.hes@[k].edge == e && self.hes@[k].face == y;
                            if k == i {
                                assert(y.id != NULL_RAW);
                            }
                        }
                        if out@.contains(y) {
                            let k = choose|k: int| 0 <= k < i && (#[trigger] self.hes@[k]).alive && self.hes@[k].edge == e && self.hes@[k].face == y;
                            assert(0 <= k < i + 1);
                        }
                    }
                }
            }
            i += 1;
        }
        out
    }

    /// The next half-edge round the edge of `h` (see `radial_next_ix`).
    pub fn radial_next(&self, h: HeId) -> (r: HeId)
        requires
            self.wf(),
            self.valid_he(h),
        ensures
            r.ix() == radial_next_ix(self.hes@, h.ix()),
            self.valid_he(r),
    {
        let nh = self.hes.len();
        let e = self.hes[h.id as usize].edge;
        let hi = h.id as usize;
        let mut j: usize = hi + 1;
        while j < nh
            invariant
                nh == self.hes@.len(),
                nh < NULL_RAW,
                hi < nh,
                hi as int == h.ix(),
                e == self.hes@[hi as int].edge,
                hi + 1 <= j <= nh,
                first_on_edge(self.hes@, e, hi + 1, nh as int) == first_on_edge(self.hes@, e, j as int, nh as int),
            decreases nh - j,
        {
            if self.hes[j].alive && self.hes[j].edge == e {
                assert(first_on_edge(self.hes@, e, j as int, nh as int) == Some(j as int));
                assert(first_on_edge(self.hes@, self.hes@[h.ix()].edge, h.ix() + 1, self.hes@.len() as int) == Some(j as int));
                assert(radial_next_ix(self.hes@, h.ix()) == j);
                return HeId { id: j as u32 };
            }
            assert(first_on_edge(self.hes@, e, j as int, nh as int) == first_on_edge(self.hes@, e, j + 1, nh as int));
            j += 1;
        }
        assert(first_on_edge(self.hes@, e, nh as int, nh as int) is None);
        let mut j: usize = 0;
        while j < hi
            invariant
                nh == self.hes@.len(),
                nh < NULL_RAW,
                hi < nh,
                hi as int == h.ix(),
                e == self.hes@[hi as int].edge,
                j <= hi,
                first_on_edge(self.hes@, e, hi + 1, nh as int) is None,
                first_on_edge(self.hes@, e, 0, hi as int) == first_on_edge(self.hes@, e, j as int, hi as int),
            decreases hi - j,
        {
            if self.hes[j].alive && self.hes[j].edge == e {
                assert(first_on_edge(self.hes@, e, j as int, hi as int) == Some(j as int));
                assert(first_on_edge(self.hes@, self.hes@[h.ix()].edge, h.ix() + 1, self.hes@.len() as int) is None);
                assert(first_on_edge(self.hes@, self.hes@[h.ix()].edge, 0, h.ix()) == Some(j as int));
                assert(radial_next_ix(self.hes@, h.ix()) == j);
                return HeId { id: j as u32 };
            }
            assert(first_on_edge(self.hes@, e, j as int, hi as int) == first_on_edge(self.hes@, e, j + 1, hi as int));
            j += 1;
        }
        assert(first_on_edge(self.hes@, e, hi as int, hi as int) is None);
        h
    }

    /// Removes a live edge and every half-edge on it.
    pub fn remove_edge_and_halfedges(&mut self, e: EdgeId) -> (r: Result<(), MeshError>)
        requires
            old(self).wf(),
        ensures
            final(self).wf(),
            final(self).verts@ == old(self).verts@,
            final(self).faces@ == old(self).faces@,
            r is Ok <==> old(self).edge_alive(e),
            r is Err ==> r == Err::<(), MeshError>(MeshError::EdgeNotFound(e)) && final(self).hes@ == old(self).hes@
                && final(self).edges@ == old(self).edges@,
            r is Ok ==> {
                &&& final(self).edges@ == old(self).edges@.update(e.ix(), Edge { alive: false, ..old(self).edges@[e.ix()] })
                &&& final(self).hes@.len() == old(self).hes@.len()
                &&& forall|i: int| 0 <= i < old(self).hes@.len() ==> #[trigger] final(self).hes@[i] == if old(self).hes@[i].edge == e {
                    HalfEdge { alive: false, ..old(self).hes@[i] }
                } else {
                    old(self).hes@[i]
                }
            },
    {
        if e.id as usize >= self.edges.len() || !self.edges[e.id as usize].alive {
            return Err(MeshError::EdgeNotFound(e));
        }
        let ghost h0 = self.hes@;
        self.edges[e.id as usize].alive = false;
        assert forall|i: int| 0 <= i < self.edges@.len() implies {
            let x = #[trigger] self.edges@[i];
            &&& 0 <= x.v0.ix() < self.verts@.len()
            &&& 0 <= x.v1.ix() < self.verts@.len()
        } by {
            assert(i == e.ix() || self.edges@[i] == old(self).edges@[i]);
        }
        let nh = self.hes.len();
        let mut i: usize = 0;
        while i < nh
            invariant
                self.wf(),
                nh == h0.len(),
                self.hes@.len() == nh,
                h0 == old(self).hes@,
                self.verts@ == old(self).verts@,
                self.faces@ == old(self).faces@,
                self.edges@ == old(self).edges@.update(e.ix(), Edge { alive: false, ..old(self).edges@[e.ix()] }),
                i <= nh,
                forall|k: int| 0 <= k < nh ==> #[trigger] self.hes@[k] == if k < i && h0[k].edge == e {
                    HalfEdge { alive: false, ..h0[k] }
                } else {
                    h0[k]
                },
            decreases nh - i,
        {
            if self.hes[i].edge == e {
                let ghost before = self.hes@;
                self.hes[i].alive = false;
                proof {
                    assert forall|q: int| 0 <= q < self.hes@.len() implies {
                        let h = #[trigger] self.hes@[q];
                        &&& 0 <= h.next.ix() < self.hes@.len()
                        &&& 0 <= h.prev.ix() < self.hes@.len()
                        &&& 0 <= h.dst.ix() < self.verts@.len()
                        &&& 0 <= h.edge.ix() < self.edges@.len()
                        &&& (h.face.id == NULL_RAW || 0 <= h.face.ix() < self.faces@.len())
                    } by {
                        assert(q == i || self.hes@[q] == before[q]);
                    }
                }
            }
            i += 1;
        }
        Ok(())
    }

    /// The curve kind of a live edge.
    pub fn edge_curve(&self, e: EdgeId) -> (r: Option<CurveKind>)
        ensures
            r == (if self.edge_alive(e) { self.edges@[e.ix()].curve } else { None }),
    {
        if (e.id as usize) < self.edges.len() && self.edges[e.id as usize].alive {
            self.edges[e.id as usize].curve
        } else {
            None
        }
    }

    /// Records the curve kind of a live edge.
    pub fn set_edge_curve(&mut self, e: EdgeId, curve: Option<CurveKind>) -> (r: Result<(), MeshError>)
        requires
            old(self).wf(),
        ensures
            final(self).wf(),
            final(self).verts@ == old(self).verts@,
            final(self).hes@ == old(self).hes@,
            final(self).faces@ == old(self).faces@,
            r is Ok <==> old(self).edge_alive(e),
            r is Ok ==> final(self).edges@ == old(self).edges@.update(e.ix(), Edge { curve, ..old(self).edges@[e.ix()] }),
            r is Err ==> final(self).edges@ == old(self).edges@,
    {
        if e.id as usize >= self.edges.len() || !self.edges[e.id as usize].alive {
            return Err(MeshError::EdgeNotFound(e));
        }
        self.edges[e.id as usize].curve = curve;
        assert forall|i: int| 0 <= i < self.edges@.len() implies {
            let x = #[trigger] self.edges@[i];
            &&& 0 <= x.v0.ix() < self.verts@.len()
            &&& 0 <= x.v1.ix() < self.verts@.len()
        } by {
            assert(i == e.ix() || self.edges@[i] == old(self).edges@[i]);
        }
        Ok(())
    }

    /// Records the surface kind of a present face.
    pub fn set_face_surface(&mut self, f: FaceId, surface: Option<SurfaceKind>) -> (r: Result<(), MeshError>)
        requires
            old(self).wf(),
        ensures
            final(self).wf(),
            final(self).verts@ == old(self).verts@,
            final(self).hes@ == old(self).hes@,
            final(self).edges@ == old(self).edges@,
            r is Ok <==> old(self).face_present(f),
            r is Ok ==> final(self).faces@ == old(self).faces@.update(f.ix(), Face { surface, ..old(self).faces@[f.ix()] }),
            r is Err ==> r == Err::<(), MeshError>(MeshError::FaceNotFound(f)) && final(self).faces@ == old(self).faces@,
    {
        if f.id as usize >= self.faces.len() || !self.faces[f.id as usize].present {
            return Err(MeshError::FaceNotFound(f));
        }
        let ghost fb = self.faces@;
        self.faces[f.id as usize].surface = surface;
        proof {
            assert forall|i: int| 0 <= i < self.faces@.len() implies face_wf(#[trigger] self.faces@[i], self.hes@.len() as int) by {
                assert(i == f.ix() || self.faces@[i] == fb[i]);
            }
            assert(self.faces@ =~= fb.update(f.ix(), Face { surface, ..fb[f.ix()] }));
        }
        Ok(())
    }

    /// Adds a face bounded by the given vertex loop (no holes).
    pub fn add_face(&mut self, verts: &[VertId], material: MaterialId) -> (r: Result<FaceId, MeshError>)
        requires
            old(self).wf(),
        ensures
            final(self).wf(),
            final(self).verts@ == old(self).verts@,
            match r {
                Ok(f) => {
                    &&& loop_input_ok(verts@, old(self).verts@.len() as int)
                    &&& f.ix() == old(self).faces@.len()
                    &&& final(self).faces@.len() == old(self).faces@.len() + 1
                    &&& final(self).faces@.take(f.ix()) == old(self).faces@
                    &&& final(self).hes@.take(old(self).hes@.len() as int) == old(self).hes@
                    &&& final(self).edges@.take(old(self).edges@.len() as int) == old(self).edges@
                    &&& final(self).hes@.len() == old(self).hes@.len() + verts@.len()
                    &&& old(self).edges@.len() <= final(self).edges@.len() <= old(self).edges@.len() + verts@.len()
                    &&& plain_from(final(self).edges@, old(self).edges@.len() as int)
                    &&& new_face_ok(*final(self), f, verts@, Seq::empty(), material)
                },
                Err(e) => {
                    &&& final(self).faces@ == old(self).faces@
                    &&& final(self).hes@ == old(self).hes@
                    &&& final(self).edges@ == old(self).edges@
                    &&& if e == MeshError::CapacityExceeded {
                        face_arenas_short(*old(self), verts@, Seq::empty())
                    } else {
                        !loop_input_ok(verts@, old(self).verts@.len() as int)
                    }
                },
            },
    {
        let holes: Vec<Vec<VertId>> = Vec::new();
        let r = self.add_face_with_holes(verts, holes.as_slice(), material);
        assert(holes@ =~= Seq::<Vec<VertId>>::empty());
        r
    }

    /// Adds a face bounded by one closed curve through `anchor`: a new
    /// self-loop edge carrying the curve, a half-edge on it owned by the new
    /// face (its outer loop), and a free twin half-edge.
    pub fn add_face_closed_curve(&mut self, anchor: VertId, curve: CurveKind, material: MaterialId) -> (r: Result<FaceId, MeshError>)
        requires
            old(self).wf(),
        ensures
            final(self).wf(),
            final(self).verts@ == old(self).verts@,
            match r {
                Ok(f) => {
                    let h1 = HeId { id: old(self).hes@.len() as u32 };
                    let h2 = HeId { id: (old(self).hes@.len() + 1) as u32 };
                    let e = EdgeId { id: old(self).edges@.len() as u32 };
                    &&& old(self).valid_vert(anchor)
                    &&& f.ix() == old(self).faces@.len()
                    &&& final(self).edges@ == old(self).edges@.push(Edge { alive: true, v0: anchor, v1: anchor, curve: Some(curve) })
                    &&& final(self).hes@ == old(self).hes@.push(
                        HalfEdge { alive: true, dst: anchor, next: h1, prev: h1, edge: e, face: f, is_outer: true }).push(
                        HalfEdge { alive: true, dst: anchor, next: h2, prev: h2, edge: e, face: FaceId { id: NULL_RAW }, is_outer: false })
                    &&& final(self).faces@.len() == old(self).faces@.len() + 1
                    &&& final(self).faces@.take(f.ix()) == old(self).faces@
                    &&& final(self).faces@[f.ix()].present
                    &&& final(self).faces@[f.ix()].active
                    &&& final(self).faces@[f.ix()].outer == LoopRef { start: h1, is_outer: true }
                    &&& final(self).faces@[f.ix()].inners@.len() == 0
                    &&& final(self).faces@[f.ix()].material == material
                    &&& final(self).faces@[f.ix()].surface is None
                    &&& !final(self).faces@[f.ix()].normal_flipped
                },
                Err(e) => {
                    &&& final(self).faces@ == old(self).faces@
                    &&& final(self).hes@ == old(self).hes@
                    &&& final(self).edges@ == old(self).edges@
                    &&& (e == MeshError::VertNotFound(anchor) && !old(self).valid_vert(anchor))
                        || (e == MeshError::CapacityExceeded && old(self).valid_vert(anchor) && (old(self).faces@.len() + 2
                        >= NULL_RAW || old(self).hes@.len() + 2 >= NULL_RAW || old(self).edges@.len() + 1 >= NULL_RAW))
                },
            },
    {
        if anchor.id as usize >= self.verts.len() {
            return Err(MeshError::VertNotFound(anchor));
        }
        if self.faces.len() >= 0xffff_fffe || self.hes.len() >= 0xffff_fffd || self.edges.len() >= 0xffff_fffe {
            return Err(MeshError::CapacityExceeded);
        }
        let ghost m0 = *self;
        let f = self.push_blank_face(material);
        let e = EdgeId { id: self.edges.len() as u32 };
        self.edges.push(Edge { alive: true, v0: anchor, v1: anchor, curve: Some(curve) });
        let h1 = HeId { id: self.hes.len() as u32 };
        let h2 = HeId { id: (self.hes.len() + 1) as u32 };
        self.hes.push(HalfEdge { alive: true, dst: anchor, next: h1, prev: h1, edge: e, face: f, is_outer: true });
        self.hes.push(HalfEdge { alive: true, dst: anchor, next: h2, prev: h2, edge: e, face: FaceId { id: NULL_RAW }, is_outer: false });
        let ghost fb = self.faces@;
        self.faces[f.id as usize].outer = LoopRef { start: h1, is_outer: true };
        proof {
            lemma_take_update(fb, m0.faces@, f.ix());
            assert(self.faces@.take(f.ix()) == m0.faces@);
            assert forall|i: int| 0 <= i < self.faces@.len() implies face_wf(#[trigger] self.faces@[i], self.hes@.len() as int) by {
                if i < f.ix() {
                    assert(self.faces@[i] == m0.faces@[i]);
                }
            }
            assert forall|i: int| 0 <= i < self.edges@.len() implies {
                let x = #[trigger] self.edges@[i];
                &&& 0 <= x.v0.ix() < self.verts@.len()
                &&& 0 <= x.v1.ix() < self.verts@.len()
            } by {
                if i < m0.edges@.len() {
                    assert(self.edges@[i] == m0.edges@[i]);
                }
            }
            assert forall|q: int| 0 <= q < self.hes@.len() implies {
                let h = #[trigger] self.hes@[q];
                &&& 0 <= h.next.ix() < self.hes@.len()
                &&& 0 <= h.prev.ix() < self.hes@.len()
                &&& 0 <= h.dst.ix() < self.verts@.len()
                &&& 0 <= h.edge.ix() < self.edges@.len()
                &&& (h.face.id == NULL_RAW || 0 <= h.face.ix() < self.faces@.len())
            } by {
                if q < m0.hes@.len() {
                    assert(self.hes@[q] == m0.hes@[q]);
                }
            }
        }
        Ok(f)
    }
}

} // verus!
