//! Orienting faces so that neighbours wind consistently.
//!
//! Two faces that share an edge are consistently oriented when they run
//! along it in opposite directions. `orient_faces` walks every connected
//! group of active faces breadth-first and flips a neighbour that runs
//! along the shared edge in the same direction as the face it was reached
//! from.

use vstd::prelude::*;
use crate::ids::{VertId, HeId, EdgeId, FaceId, NULL_RAW};
use crate::mesh::{
    Mesh, MeshError, HalfEdge, walk, loop_seq, is_loop, loop_len, lemma_loop_len, lemma_loop_distinct,
    lemma_walk_valid, loop_closes, loop_verts,
};
use crate::smooth_group::outer_loop_verts;
use crate::shared_merge::{first_joining, lemma_first_joining};

verus! {

/// Counts of an `orient_faces` run.
#[derive(Clone, Copy, Debug, PartialEq, Eq, Structural)]
pub struct OrientResult {
    /// Faces that were flipped.
    pub flipped: usize,
    /// Faces visited.
    pub visited: usize,
}

/// Scanning `nb` cyclically from position `i`: `true` at the first place it
/// runs `v0 -> v1`, `false` at the first place it runs `v1 -> v0`, and
/// `false` when it does neither.
pub open spec fn needs_flip_from(nb: Seq<VertId>, v0: VertId, v1: VertId, i: int) -> bool
    decreases nb.len() - i,
{
    if i < 0 || i >= nb.len() {
        false
    } else if nb[i] == v0 && nb[(i + 1) % (nb.len() as int)] == v1 {
        true
    } else if nb[i] == v1 && nb[(i + 1) % (nb.len() as int)] == v0 {
        false
    } else {
        needs_flip_from(nb, v0, v1, i + 1)
    }
}

/// Vertex `i` of the outer loop of face `f`, and the one after it.
pub open spec fn outer_edge_at(m: Mesh, f: FaceId, i: int) -> (VertId, VertId) {
    let w = outer_loop_verts(m, f);
    (w[i], w[(i + 1) % (w.len() as int)])
}

/// The active faces already wind consistently: wherever an active face
/// with a closed outer loop runs `v0 -> v1`, every other active face with
/// a closed outer loop and a live half-edge on the first edge joining
/// `v0` and `v1` runs that edge the other way first (see
/// `needs_flip_from`).
pub open spec fn consistently_oriented(m: Mesh) -> bool {
    forall|f: FaceId, i: int, h: int|
        #![trigger outer_edge_at(m, f, i), m.hes@[h]]
        m.face_active(f) && loop_closes(m.hes@, m.faces@[f.ix()].outer.start)
            && 0 <= i < loop_len(m.hes@, m.faces@[f.ix()].outer.start)
            && 0 <= h < m.hes@.len() && m.hes@[h].alive
            && first_joining(m.edges@, outer_edge_at(m, f, i).0, outer_edge_at(m, f, i).1, 0) == Some(m.hes@[h].edge)
            && m.hes@[h].face != f && m.face_active(m.hes@[h].face)
            && loop_closes(m.hes@, m.faces@[m.hes@[h].face.ix()].outer.start)
            ==> !needs_flip_from(
            outer_loop_verts(m, m.hes@[h].face),
            outer_edge_at(m, f, i).0,
            outer_edge_at(m, f, i).1,
            0,
        )
}

/// The half-edge at loop position `i` after reversing the loop `l`: its
/// links swapped and its head moved to the head of its predecessor.
pub open spec fn reversed_he(hes: Seq<HalfEdge>, l: Seq<HeId>, i: int) -> HalfEdge {
    let n = l.len() as int;
    let h = hes[l[i].ix()];
    HalfEdge { next: h.prev, prev: h.next, dst: hes[l[(i + n - 1) % n].ix()].dst, ..h }
}

/// `new` is `old` with the loop `l` reversed and every other half-edge kept.
pub open spec fn loop_reversed(old: Seq<HalfEdge>, new: Seq<HalfEdge>, l: Seq<HeId>) -> bool {
    &&& new.len() == old.len()
    &&& forall|i: int| 0 <= i < l.len() ==> new[(#[trigger] l[i]).ix()] == reversed_he(old, l, i)
    &&& forall|j: int| 0 <= j < old.len() && !l.contains(HeId { id: j as u32 }) ==> #[trigger] new[j] == old[j]
}

/// The outer loop of `f` in `a` closes, and `b` has it reversed.
pub open spec fn outer_loop_reversed(a: Mesh, b: Mesh, f: FaceId) -> bool {
    let s = a.faces@[f.ix()].outer.start;
    let n = loop_len(a.hes@, s);
    &&& a.valid_he(s)
    &&& is_loop(a.hes@, s, n)
    &&& loop_reversed(a.hes@, b.hes@, loop_seq(a.hes@, s, n))
}

/// The outer loop of `f` closes and each of its half-edges links back
/// (`prev`) to the one before it.
pub open spec fn outer_loop_linked(m: Mesh, f: FaceId) -> bool {
    let s = m.faces@[f.ix()].outer.start;
    let n = loop_len(m.hes@, s);
    let l = loop_seq(m.hes@, s, n);
    &&& m.valid_he(s)
    &&& is_loop(m.hes@, s, n)
    &&& forall|i: int| 0 <= i < n ==> m.hes@[(#[trigger] l[i]).ix()].prev == l[(i + n - 1) % (n as int)]
}


/// Walking a reversed, consistently linked loop from its start visits it
/// backwards.
proof fn lemma_reversed_walk(h0: Seq<HalfEdge>, h1: Seq<HalfEdge>, s: HeId, n: nat, k: nat)
    requires
        is_loop(h0, s, n),
        forall|i: int| 0 <= i < n ==> h0[(#[trigger] loop_seq(h0, s, n)[i]).ix()].prev == loop_seq(h0, s, n)[(i + n - 1) % (n as int)],
        loop_reversed(h0, h1, loop_seq(h0, s, n)),
        k <= n,
    ensures
        walk(h1, s, k) == loop_seq(h0, s, n)[(n - k) % (n as int)],
    decreases k,
{
    let l = loop_seq(h0, s, n);
    if k == 0 {
        assert((n - 0) % (n as int) == 0) by (nonlinear_arith) requires n >= 1;
        assert(l[0] == walk(h0, s, 0));
    } else {
        lemma_reversed_walk(h0, h1, s, n, (k - 1) as nat);
        let j = (n - (k - 1)) % (n as int);
        assert(0 <= j < n) by (nonlinear_arith) requires j == (n - (k - 1)) % (n as int), n >= 1;
        assert(h1[l[j].ix()] == reversed_he(h0, l, j));
        if k == 1 {
            assert(j == 0) by (nonlinear_arith) requires j == (n - (k - 1)) % (n as int), n >= 1, k == 1;
            assert((0 + n - 1) % (n as int) == n - 1) by (nonlinear_arith) requires n >= 1;
            assert((n - k) % (n as int) == n - 1) by (nonlinear_arith) requires n >= 1, k == 1;
        } else {
            assert(j == n - k + 1) by (nonlinear_arith) requires j == (n - (k - 1)) % (n as int), n >= 1, 1 < k <= n;
            assert((j + n - 1) % (n as int) == n - k) by (nonlinear_arith) requires j == n - k + 1, 1 < k <= n;
            assert((n - k) % (n as int) == n - k) by (nonlinear_arith) requires 1 < k <= n;
        }
    }
}

/// Law: after flipping a face whose outer loop is consistently linked,
/// its outer loop still closes, with the same length, so a second flip
/// succeeds.
pub proof fn law_flipped_loop_still_closes(m0: Mesh, m1: Mesh, f: FaceId)
    requires
        m0.wf(),
        m0.face_present(f),
        outer_loop_linked(m0, f),
        outer_loop_reversed(m0, m1, f),
        m1.faces@[f.ix()].outer == m0.faces@[f.ix()].outer,
    ensures
        loop_closes(m1.hes@, m1.faces@[f.ix()].outer.start),
        loop_len(m1.hes@, m1.faces@[f.ix()].outer.start) == loop_len(m0.hes@, m0.faces@[f.ix()].outer.start),
{
    let s = m0.faces@[f.ix()].outer.start;
    let n = loop_len(m0.hes@, s);
    let l = loop_seq(m0.hes@, s, n);
    let h0 = m0.hes@;
    let h1 = m1.hes@;
    assert forall|k: nat| k <= n implies #[trigger] walk(h1, s, k) == l[(n - k) % (n as int)] by {
        lemma_reversed_walk(h0, h1, s, n, k);
    }
    lemma_loop_distinct(h0, s, n);
    assert((n - n) % (n as int) == 0) by (nonlinear_arith) requires n >= 1;
    assert(walk(h1, s, n) == s);
    assert forall|j: nat| 0 < j < n implies #[trigger] walk(h1, s, j) != s by {
        assert(walk(h1, s, j) == l[(n - j) % (n as int)]);
        assert((n - j) % (n as int) == n - j) by (nonlinear_arith) requires 0 < j < n;
        assert(l[0] == s);
        assert(l[(n - j) as int] != l[0]);
    }
    assert(is_loop(h1, s, n));
    lemma_loop_len(h1, s, n);
}

/// Law: flipping a face twice gives back the mesh: its half-edges, its
/// faces (the normal sign included), its vertices and its edges, when the
/// face's outer loop is consistently linked. The second flip succeeds
/// (see `law_flipped_loop_still_closes` and `flip_face`).
pub proof fn law_flip_face_twice_restores_mesh(m0: Mesh, m1: Mesh, m2: Mesh, f: FaceId)
    requires
        m0.wf(),
        m0.face_present(f),
        outer_loop_linked(m0, f),
        face_flipped(m0, m1, f),
        face_flipped(m1, m2, f),
    ensures
        m2.hes@ == m0.hes@,
        m2.faces@ == m0.faces@,
        m2.verts@ == m0.verts@,
        m2.edges@ == m0.edges@,
{
    law_flip_face_twice(m0, m1, m2, f);
    assert forall|g: int| 0 <= g < m0.faces@.len() implies #[trigger] m2.faces@[g] == m0.faces@[g] by {
        if g != f.ix() {
            assert(m1.faces@[g] == m0.faces@[g]);
        }
    }
    assert(m2.faces@ =~= m0.faces@);
}

/// Law: flipping a face twice gives back its half-edges exactly, and its
/// normal sign, when its outer loop is consistently linked.
pub proof fn law_flip_face_twice(m0: Mesh, m1: Mesh, m2: Mesh, f: FaceId)
    requires
        m0.wf(),
        m0.face_present(f),
        outer_loop_linked(m0, f),
        outer_loop_reversed(m0, m1, f),
        outer_loop_reversed(m1, m2, f),
        m1.faces@[f.ix()].outer == m0.faces@[f.ix()].outer,
    ensures
        m2.hes@ == m0.hes@,
{
    let s = m0.faces@[f.ix()].outer.start;
    let n = loop_len(m0.hes@, s);
    let l = loop_seq(m0.hes@, s, n);
    let h0 = m0.hes@;
    let h1 = m1.hes@;
    let h2 = m2.hes@;
    assert forall|k: nat| k <= n implies #[trigger] walk(h1, s, k) == l[(n - k) % (n as int)] by {
        lemma_reversed_walk(h0, h1, s, n, k);
    }
    lemma_loop_distinct(h0, s, n);
    // The reversed loop closes after n steps.
    assert((n - n) % (n as int) == 0) by (nonlinear_arith) requires n >= 1;
    assert(walk(h1, s, n) == s);
    assert forall|j: nat| 0 < j < n implies #[trigger] walk(h1, s, j) != s by {
        assert(walk(h1, s, j) == l[(n - j) % (n as int)]);
        assert((n - j) % (n as int) == n - j) by (nonlinear_arith) requires 0 < j < n;
        assert(l[0] == s);
        assert(l[(n - j) as int] != l[0]);
    }
    assert(is_loop(h1, s, n));
    lemma_loop_len(h1, s, n);
    let l1 = loop_seq(h1, s, n);
    assert forall|k: int| 0 <= k < n implies #[trigger] l1[k] == l[(n - k) % (n as int)] by {
        assert(l1[k] == walk(h1, s, k as nat));
    }
    assert(h2.len() == h0.len());
    assert forall|j: int| 0 <= j < h0.len() implies h2[j] == h0[j] by {
        if l.contains(HeId { id: j as u32 }) {
            let i = choose|i: int| 0 <= i < l.len() && l[i] == HeId { id: j as u32 };
            let k = (n - i) % (n as int);
            assert(0 <= k < n) by (nonlinear_arith) requires k == (n - i) % (n as int), n >= 1, 0 <= i < n;
            assert(l1[k] == l[(n - k) % (n as int)]);
            assert((n - k) % (n as int) == i) by (nonlinear_arith) requires k == (n - i) % (n as int), n >= 1, 0 <= i < n;
            assert(h2[l1[k].ix()] == reversed_he(h1, l1, k));
            assert(h1[l[i].ix()] == reversed_he(h0, l, i));
            let q = (k + n - 1) % (n as int);
            assert(0 <= q < n) by (nonlinear_arith) requires q == (k + n - 1) % (n as int), n >= 1, 0 <= k < n;
            assert(l1[q] == l[(n - q) % (n as int)]);
            let i1 = (i + 1) % (n as int);
            assert((n - q) % (n as int) == i1) by (nonlinear_arith)
                requires q == (k + n - 1) % (n as int), k == (n - i) % (n as int), i1 == (i + 1) % (n as int), n >= 1, 0 <= i < n;
            assert(0 <= i1 < n) by (nonlinear_arith) requires i1 == (i + 1) % (n as int), n >= 1, 0 <= i < n;
            assert(h1[l[i1].ix()] == reversed_he(h0, l, i1));
            assert((i1 + n - 1) % (n as int) == i) by (nonlinear_arith) requires i1 == (i + 1) % (n as int), n >= 1, 0 <= i < n;
            assert(h2[j] == h0[j]);
        } else {
            assert forall|k: int| 0 <= k < l1.len() implies l1[k] != HeId { id: j as u32 } by {
                let i = (n - k) % (n as int);
                assert(0 <= i < n) by (nonlinear_arith) requires i == (n - k) % (n as int), n >= 1, 0 <= k < n;
                assert(l1[k] == l[i]);
            }
            assert(!l1.contains(HeId { id: j as u32 }));
        }
    }
    assert(h2 =~= h0);
}

/// Whether a neighbour running along `v0 -> v1` has to be flipped: `true`
/// when its boundary `nb` runs `v0 -> v1` before it runs `v1 -> v0`.
pub fn check_needs_flip(v0: VertId, v1: VertId, nb: &[VertId]) -> (b: bool)
    ensures
        b == needs_flip_from(nb@, v0, v1, 0),
{
    let n = nb.len();
    let mut i: usize = 0;
    while i < n
        invariant
            n == nb@.len(),
            i <= n,
            needs_flip_from(nb@, v0, v1, 0) == needs_flip_from(nb@, v0, v1, i as int),
        decreases n - i,
    {
        let j = if i + 1 == n { 0 } else { i + 1 };
        assert(j as int == (i as int + 1) % (n as int)) by (nonlinear_arith)
            requires j == (if i + 1 == n { 0 } else { i + 1 }), i < n;
        if nb[i] == v0 && nb[j] == v1 {
            return true;
        }
        if nb[i] == v1 && nb[j] == v0 {
            return false;
        }
        i += 1;
    }
    false
}

/// Every face keeps its storage, activity, loops, material and surface;
/// only the sign of its normal may change.
pub open spec fn faces_frame(a: Seq<crate::mesh::Face>, b: Seq<crate::mesh::Face>) -> bool {
    &&& a.len() == b.len()
    &&& forall|g: int| 0 <= g < a.len() ==> {
        &&& (#[trigger] b[g]).present == a[g].present
        &&& b[g].active == a[g].active
        &&& b[g].outer == a[g].outer
        &&& b[g].inners == a[g].inners
        &&& b[g].material == a[g].material
        &&& b[g].surface == a[g].surface
    }
}

/// Every half-edge keeps whether it is live, its edge and its face; only
/// its links and head may change.
pub open spec fn hes_frame(a: Seq<HalfEdge>, b: Seq<HalfEdge>) -> bool {
    &&& a.len() == b.len()
    &&& forall|j: int| 0 <= j < a.len() ==> {
        &&& (#[trigger] b[j]).alive == a[j].alive
        &&& b[j].edge == a[j].edge
        &&& b[j].face == a[j].face
    }
}

/// What `orient_faces` leaves unchanged.
pub open spec fn orient_frame(a: Mesh, b: Mesh) -> bool {
    &&& faces_frame(a.faces@, b.faces@)
    &&& b.verts@ == a.verts@
    &&& b.edges@ == a.edges@
    &&& b.hes@.len() == a.hes@.len()
    &&& hes_frame(a.hes@, b.hes@)
}

/// The active faces among the first `k` slots, in slot order.
pub open spec fn active_ids(faces: Seq<crate::mesh::Face>, k: nat) -> Seq<FaceId>
    decreases k,
{
    if k == 0 {
        Seq::empty()
    } else {
        let p = active_ids(faces, (k - 1) as nat);
        if faces[k - 1].present && faces[k - 1].active {
            p.push(FaceId { id: (k - 1) as u32 })
        } else {
            p
        }
    }
}

/// The number of active faces.
pub open spec fn active_face_count(m: Mesh) -> nat {
    active_ids(m.faces@, m.faces@.len()).len()
}

pub proof fn lemma_active_ids(faces: Seq<crate::mesh::Face>, k: nat)
    requires
        k <= faces.len(),
        faces.len() < NULL_RAW,
    ensures
        active_ids(faces, k).no_duplicates(),
        forall|x: FaceId| #[trigger] active_ids(faces, k).contains(x) <==> (0 <= x.ix() < k && faces[x.ix()].present && faces[x.ix()].active),
    decreases k,
{
    if k > 0 {
        lemma_active_ids(faces, (k - 1) as nat);
        let p = active_ids(faces, (k - 1) as nat);
        let s = active_ids(faces, k);
        let y = FaceId { id: (k - 1) as u32 };
        if faces[k - 1].present && faces[k - 1].active {
            assert(s == p.push(y));
            assert forall|x: FaceId| #[trigger] s.contains(x) <==> (p.contains(x) || x == y) by {
                if s.contains(x) {
                    let i = choose|i: int| 0 <= i < s.len() && s[i] == x;
                    if i < p.len() {
                        assert(p[i] == x);
                    }
                }
                if p.contains(x) {
                    let i = choose|i: int| 0 <= i < p.len() && p[i] == x;
                    assert(s[i] == x);
                }
                if x == y {
                    assert(s[p.len() as int] == x);
                }
            }
            assert(!p.contains(y));
            assert forall|a: int, b: int| 0 <= a < s.len() && 0 <= b < s.len() && a != b implies s[a] != s[b] by {
                if a < p.len() && b < p.len() {
                    assert(p[a] != p[b]);
                } else if a < p.len() {
                    assert(p.contains(s[a]));
                } else if b < p.len() {
                    assert(p.contains(s[b]));
                }
            }
            assert forall|x: FaceId| #[trigger] s.contains(x) <==> (0 <= x.ix() < k && faces[x.ix()].present && faces[x.ix()].active) by {
                if x.ix() == k - 1 {
                    assert(x == y);
                }
            }
        } else {
            assert(s == p);
        }
    }
}

/// The state of the breadth-first walk of `orient_faces`: `order` holds,
/// once each, the faces reached so far (active faces of `base`), and a
/// face is marked in `visited` exactly when it is in `order`.
pub open spec fn bfs_ok(m: Mesh, base: Mesh, visited: Seq<bool>, order: Seq<FaceId>, flipped: nat) -> bool {
    &&& m.wf()
    &&& orient_frame(base, m)
    &&& visited.len() == m.faces@.len()
    &&& order.no_duplicates()
    &&& forall|k: int| 0 <= k < order.len() ==> base.face_active(#[trigger] order[k]) && visited[order[k].ix()]
    &&& forall|g: int| 0 <= g < visited.len() && #[trigger] visited[g] ==> order.contains(FaceId { id: g as u32 })
    &&& flipped <= order.len()
}

/// Face `f` flipped from `a` to `b`: its normal sign changes and its
/// outer loop is reversed; everything else stays.
pub open spec fn face_flipped(a: Mesh, b: Mesh, f: FaceId) -> bool {
    let of = a.faces@[f.ix()];
    let nf = b.faces@[f.ix()];
    &&& b.verts@ == a.verts@
    &&& b.edges@ == a.edges@
    &&& b.faces@.len() == a.faces@.len()
    &&& 0 <= f.ix() < a.faces@.len()
    &&& forall|g: int| 0 <= g < a.faces@.len() && g != f.ix() ==> #[trigger] b.faces@[g] == a.faces@[g]
    &&& nf.present == of.present && nf.active == of.active && nf.outer == of.outer && nf.inners == of.inners
        && nf.material == of.material && nf.surface == of.surface && nf.normal_flipped == !of.normal_flipped
    &&& outer_loop_reversed(a, b, f)
}


/// What reaching face `nb` across a side running `v0 -> v1` does to the
/// mesh `a`, giving `b`: nothing where its outer loop does not close;
/// otherwise it is flipped exactly when that loop runs `v0 -> v1` before
/// it runs `v1 -> v0` (see `needs_flip_from`).
pub open spec fn reach_step(a: Mesh, b: Mesh, nb: FaceId, v0: VertId, v1: VertId) -> bool {
    if loop_closes(a.hes@, a.faces@[nb.ix()].outer.start) && needs_flip_from(outer_loop_verts(a, nb), v0, v1, 0) {
        face_flipped(a, b, nb)
    } else {
        b == a
    }
}

/// Some live half-edge among the first `hi` slots of `m` runs along edge
/// `e` and belongs to face `nb`.
pub open spec fn owns_along(m: Mesh, e: EdgeId, nb: FaceId, hi: int) -> bool {
    exists|h: int| 0 <= h < hi && #[trigger] m.hes@[h].alive && m.hes@[h].edge == e && m.hes@[h].face == nb
}

/// Face `nb` lies across edge `e` from face `f` in `m`: another active
/// face owning a live half-edge on `e`.
pub open spec fn across(m: Mesh, f: FaceId, e: EdgeId, nb: FaceId) -> bool {
    nb != f && m.face_active(nb) && owns_along(m, e, nb, m.hes@.len() as int)
}

/// Some entry of `ord` at a position in `lo..hi` is face `g`.
pub open spec fn reached_in(ord: Seq<FaceId>, lo: int, hi: int, g: int) -> bool {
    exists|k: int| lo <= k < hi && (#[trigger] ord[k]).ix() == g
}

/// The number of entries of `ord` at positions `lo..k` whose normal sign
/// differs between `a` and `b`.
pub open spec fn toggled(a: Mesh, b: Mesh, ord: Seq<FaceId>, lo: int, k: int) -> nat
    decreases k - lo,
{
    if k <= lo {
        0
    } else {
        toggled(a, b, ord, lo, k - 1) + if b.faces@[ord[k - 1].ix()].normal_flipped != a.faces@[ord[k - 1].ix()].normal_flipped {
            1nat
        } else {
            0nat
        }
    }
}

/// What reaching across edge `e` from face `f` does to the walk state
/// (mesh, marks, queue, flip count), from state 0 to state 1: the faces
/// queued are faces across `e` that were not marked before; every face
/// across `e` is marked by the end, unless the reach stopped at a queued
/// face whose outer loop does not close; only queued faces change, and
/// the count grows by the number of queued faces whose normal sign
/// changed.
pub open spec fn scan_done(
    base: Mesh,
    f: FaceId,
    e: EdgeId,
    v0: VertId,
    v1: VertId,
    m0: Mesh,
    vis0: Seq<bool>,
    ord0: Seq<FaceId>,
    fl0: nat,
    m1: Mesh,
    vis1: Seq<bool>,
    ord1: Seq<FaceId>,
    fl1: nat,
) -> bool {
    let lo = ord0.len() as int;
    let hi = ord1.len() as int;
    &&& bfs_ok(m1, base, vis1, ord1, fl1)
    &&& hi >= lo
    &&& ord1.take(lo) == ord0
    &&& forall|k: int| lo <= k < hi ==> across(base, f, e, #[trigger] ord1[k]) && !vis0[ord1[k].ix()]
    &&& (forall|nb: FaceId| across(base, f, e, nb) ==> #[trigger] vis1[nb.ix()]) || (exists|k: int|
        lo <= k < hi && !loop_closes(m1.hes@, m1.faces@[(#[trigger] ord1[k]).ix()].outer.start))
    &&& forall|g: int| 0 <= g < m0.faces@.len() && !reached_in(ord1, lo, hi, g) ==> #[trigger] m1.faces@[g] == m0.faces@[g]
    &&& fl1 == fl0 + toggled(m0, m1, ord1, lo, hi)
    &&& exists|cs: Seq<Mesh>|
        #![trigger cs.len()]
        cs.len() == hi - lo + 1 && cs[0] == m0 && cs[hi - lo] == m1 && forall|j: int|
            0 <= j < hi - lo ==> #[trigger] reach_step(cs[j], cs[j + 1], ord1[lo + j], v0, v1)
}

/// Reaching across side `i` of the loop `w` of face `f`: across the first
/// edge joining its two ends, when there is one; otherwise nothing
/// changes.
pub open spec fn visit_step(
    base: Mesh,
    f: FaceId,
    w: Seq<VertId>,
    i: int,
    m0: Mesh,
    vis0: Seq<bool>,
    ord0: Seq<FaceId>,
    fl0: nat,
    m1: Mesh,
    vis1: Seq<bool>,
    ord1: Seq<FaceId>,
    fl1: nat,
) -> bool {
    let nxt = first_joining(base.edges@, w[i], w[(i + 1) % (w.len() as int)], 0);
    if nxt is None {
        m1 == m0 && vis1 == vis0 && ord1 == ord0 && fl1 == fl0
    } else {
        scan_done(base, f, nxt->Some_0, w[i], w[(i + 1) % (w.len() as int)], m0, vis0, ord0, fl0, m1, vis1, ord1, fl1)
    }
}

/// What visiting face `f` does to the walk state: nothing where its outer
/// loop does not close; otherwise it reaches across each side of the loop
/// in turn (see `visit_step`).
pub open spec fn visit_done(
    base: Mesh,
    f: FaceId,
    m0: Mesh,
    vis0: Seq<bool>,
    ord0: Seq<FaceId>,
    fl0: nat,
    m1: Mesh,
    vis1: Seq<bool>,
    ord1: Seq<FaceId>,
    fl1: nat,
) -> bool {
    let s = m0.faces@[f.ix()].outer.start;
    if !loop_closes(m0.hes@, s) {
        m1 == m0 && vis1 == vis0 && ord1 == ord0 && fl1 == fl0
    } else {
        let w = loop_verts(m0.hes@, s, loop_len(m0.hes@, s));
        let n = w.len() as int;
        exists|ms: Seq<Mesh>, vs: Seq<Seq<bool>>, os: Seq<Seq<FaceId>>, fs: Seq<nat>|
            #![trigger ms.len(), vs.len(), os.len(), fs.len()]
            ms.len() == n + 1 && vs.len() == n + 1 && os.len() == n + 1 && fs.len() == n + 1 && ms[0] == m0
                && vs[0] == vis0 && os[0] == ord0 && fs[0] == fl0 && ms[n] == m1 && vs[n] == vis1 && os[n] == ord1
                && fs[n] == fl1 && forall|i: int|
                0 <= i < n ==> #[trigger] visit_step(base, f, w, i, ms[i], vs[i], os[i], fs[i], ms[i + 1], vs[i + 1], os[i + 1], fs[i + 1])
    }
}

/// The active faces come in increasing slot order.
pub proof fn lemma_active_ids_sorted(faces: Seq<crate::mesh::Face>, k: nat)
    requires
        k <= faces.len(),
        faces.len() < NULL_RAW,
    ensures
        forall|i: int, j: int| 0 <= i < j < active_ids(faces, k).len() ==> (#[trigger] active_ids(faces, k)[i]).ix() < (
        #[trigger] active_ids(faces, k)[j]).ix(),
    decreases k,
{
    if k > 0 {
        lemma_active_ids_sorted(faces, (k - 1) as nat);
        lemma_active_ids(faces, (k - 1) as nat);
        let p = active_ids(faces, (k - 1) as nat);
        let s = active_ids(faces, k);
        if faces[k - 1].present && faces[k - 1].active {
            assert forall|i: int, j: int| 0 <= i < j < s.len() implies (#[trigger] s[i]).ix() < (#[trigger] s[j]).ix() by {
                if j < p.len() {
                    assert(s[i] == p[i] && s[j] == p[j]);
                } else {
                    assert(s[i] == p[i]);
                    assert(p.contains(p[i]));
                }
            }
        }
    }
}

/// Face `g` is the next seed of the walk: the first active face in slot
/// order that is not yet marked.
pub open spec fn is_next_seed(base: Mesh, vis: Seq<bool>, g: FaceId) -> bool {
    &&& base.face_active(g)
    &&& !vis[g.ix()]
    &&& forall|x: int| 0 <= x < g.ix() && #[trigger] base.faces@[x].present && base.faces@[x].active ==> vis[x]
}

/// One visit of the walk of `orient_faces`, from state 0 to state 1: the
/// next face in the queue is visited (see `visit_done`); where the queue
/// is used up, the next seed is marked and queued first, then visited.
pub open spec fn orient_step(
    base: Mesh,
    q: int,
    m0: Mesh,
    vis0: Seq<bool>,
    ord0: Seq<FaceId>,
    fl0: nat,
    m1: Mesh,
    vis1: Seq<bool>,
    ord1: Seq<FaceId>,
    fl1: nat,
) -> bool {
    if q < ord0.len() {
        visit_done(base, ord0[q], m0, vis0, ord0, fl0, m1, vis1, ord1, fl1)
    } else {
        exists|g: FaceId|
            #![trigger is_next_seed(base, vis0, g)]
            is_next_seed(base, vis0, g) && visit_done(base, g, m0, vis0.update(g.ix(), true), ord0.push(g), fl0, m1, vis1, ord1, fl1)
    }
}

/// The whole walk of `orient_faces` from `base` to `fin`: `k` visits, each
/// an `orient_step`, starting with nothing marked or queued and no flip,
/// ending with the flip count `fl`.
pub open spec fn orient_run(base: Mesh, fin: Mesh, k: nat, fl: nat) -> bool {
    exists|ms: Seq<Mesh>, vs: Seq<Seq<bool>>, os: Seq<Seq<FaceId>>, fs: Seq<nat>|
        #![trigger ms.len(), vs.len(), os.len(), fs.len()]
        ms.len() == k + 1 && vs.len() == k + 1 && os.len() == k + 1 && fs.len() == k + 1 && ms[0] == base && vs[0] == Seq::new(
            base.faces@.len(),
            |g: int| false,
        ) && os[0] == Seq::<FaceId>::empty() && fs[0] == 0 && ms[k as int] == fin && fs[k as int] == fl && forall|q: int|
            0 <= q < k ==> #[trigger] orient_step(base, q, ms[q], vs[q], os[q], fs[q], ms[q + 1], vs[q + 1], os[q + 1], fs[q + 1])
}

/// Counts agree where the entries and their normal signs agree.
proof fn lemma_toggled_ext(a: Mesh, b1: Mesh, o1: Seq<FaceId>, b2: Mesh, o2: Seq<FaceId>, lo: int, k: int)
    requires
        forall|j: int| lo <= j < k ==> #[trigger] o1[j] == o2[j] && b1.faces@[o1[j].ix()].normal_flipped == b2.faces@[o2[j].ix()].normal_flipped,
    ensures
        toggled(a, b1, o1, lo, k) == toggled(a, b2, o2, lo, k),
    decreases k - lo,
{
    if k > lo {
        lemma_toggled_ext(a, b1, o1, b2, o2, lo, k - 1);
        assert(o1[k - 1] == o2[k - 1]);
    }
}

/// A duplicate-free sequence of faces below `n` has at most `n` of them.
pub proof fn lemma_order_bounded(order: Seq<FaceId>, n: nat)
    requires
        order.no_duplicates(),
        forall|k: int| 0 <= k < order.len() ==> 0 <= (#[trigger] order[k]).ix() < n,
    ensures
        order.len() <= n,
{
    let f = |x: FaceId| x.ix();
    let ints = order.map_values(f);
    assert forall|a: int, b: int| 0 <= a < ints.len() && 0 <= b < ints.len() && a != b implies ints[a] != ints[b] by {
        assert(order[a] != order[b]);
        assert(order[a].id != order[b].id);
    }
    assert(ints.no_duplicates());
    ints.unique_seq_to_set();
    let r = vstd::set_lib::set_int_range(0, n as int);
    assert(ints.to_set().subset_of(r));
    vstd::set_lib::lemma_int_range(0, n as int);
    vstd::set_lib::lemma_len_subset(ints.to_set(), r);
}

/// Pushing keeps a prefix.
pub proof fn lemma_take_push<T>(ob: Seq<T>, x: T, o0: Seq<T>)
    requires
        ob.len() >= o0.len(),
        ob.take(o0.len() as int) == o0,
    ensures
        ob.push(x).take(o0.len() as int) == o0,
{
    assert forall|i: int| 0 <= i < o0.len() implies ob.push(x).take(o0.len() as int)[i] == o0[i] by {
        assert(ob[i] == ob.take(o0.len() as int)[i]);
    }
    assert(ob.push(x).take(o0.len() as int) =~= o0);
}

/// The frame of `orient_faces` survives a face flip.
pub proof fn lemma_frame_flip(base: Mesh, a: Mesh, b: Mesh, f: FaceId)
    requires
        orient_frame(base, a),
        b.verts@ == a.verts@,
        b.edges@ == a.edges@,
        b.hes@.len() == a.hes@.len(),
        hes_frame(a.hes@, b.hes@),
        b.faces@.len() == a.faces@.len(),
        0 <= f.ix() < a.faces@.len(),
        forall|g: int| 0 <= g < a.faces@.len() && g != f.ix() ==> #[trigger] b.faces@[g] == a.faces@[g],
        ({
            let of = a.faces@[f.ix()];
            let nf = b.faces@[f.ix()];
            &&& nf.present == of.present
            &&& nf.active == of.active
            &&& nf.outer == of.outer
            &&& nf.inners == of.inners
            &&& nf.material == of.material
            &&& nf.surface == of.surface
        }),
    ensures
        orient_frame(base, b),
{
    assert forall|g: int| 0 <= g < base.faces@.len() implies {
        &&& (#[trigger] b.faces@[g]).present == base.faces@[g].present
        &&& b.faces@[g].active == base.faces@[g].active
        &&& b.faces@[g].outer == base.faces@[g].outer
        &&& b.faces@[g].inners == base.faces@[g].inners
        &&& b.faces@[g].material == base.faces@[g].material
        &&& b.faces@[g].surface == base.faces@[g].surface
    } by {
        assert(a.faces@[g].present == base.faces@[g].present);
    }
}

impl Mesh {
    /// Flips a face: negates its stored normal, then reverses its outer
    /// loop (each half-edge's links are swapped and it takes the head of
    /// its predecessor). When the outer loop does not close, the normal
    /// stays negated and the half-edges are untouched.
    pub fn flip_face(&mut self, f: FaceId) -> (r: Result<(), MeshError>)
        requires
            old(self).wf(),
            old(self).face_present(f),
        ensures
            final(self).wf(),
            final(self).verts@ == old(self).verts@,
            final(self).edges@ == old(self).edges@,
            final(self).faces@.len() == old(self).faces@.len(),
            hes_frame(old(self).hes@, final(self).hes@),
            forall|g: int| 0 <= g < old(self).faces@.len() && g != f.ix() ==> #[trigger] final(self).faces@[g] == old(self).faces@[g],
            ({
                let of = old(self).faces@[f.ix()];
                let nf = final(self).faces@[f.ix()];
                &&& nf.present == of.present
                &&& nf.active == of.active
                &&& nf.outer == of.outer
                &&& nf.inners == of.inners
                &&& nf.material == of.material
                &&& nf.surface == of.surface
                &&& nf.normal_flipped == !of.normal_flipped
            }),
            r is Ok <==> loop_closes(old(self).hes@, old(self).faces@[f.ix()].outer.start),
            r is Ok ==> face_flipped(*old(self), *final(self), f),
            ({
                let s = old(self).faces@[f.ix()].outer.start;
                match r {
                    Ok(()) => outer_loop_reversed(*old(self), *final(self), f),
                    Err(_) => {
                        &&& final(self).hes@ == old(self).hes@
                        &&& (!old(self).valid_he(s) || forall|k: nat|
                            1 <= k <= old(self).hes@.len() ==> #[trigger] walk(old(self).hes@, s, k) != s)
                    },
                }
            }),
    {
        let fi = f.id as usize;
        let flipped = self.faces[fi].normal_flipped;
        self.faces[fi].normal_flipped = !flipped;
        assert forall|i: int| 0 <= i < self.faces@.len() implies crate::mesh::face_wf(#[trigger] self.faces@[i], self.hes@.len() as int) by {
            assert(i == fi || self.faces@[i] == old(self).faces@[i]);
        }
        let start = self.faces[fi].outer.start;
        let l = self.collect_loop_hes(start)?;
        let n = l.len();
        let ghost old_hes = self.hes@;
        let ghost toggled = self.faces@;
        proof {
            lemma_loop_len(old_hes, start, n as nat);
            lemma_loop_distinct(old_hes, start, n as nat);
            assert forall|k: int| 0 <= k < n implies 0 <= (#[trigger] l@[k]).ix() < old_hes.len() by {
                lemma_walk_valid(self.hes@, self.verts@.len() as int, self.edges@.len() as int,
                    self.faces@.len() as int, start, k as nat);
            }
        }
        let mut dsts: Vec<VertId> = Vec::new();
        let mut i: usize = 0;
        while i < n
            invariant
                self.wf(),
                self.hes@ == old_hes,
                self.faces@ == toggled,
                n == l@.len(),
                l@ == loop_seq(old_hes, start, n as nat),
                self.valid_he(start),
                i <= n,
                dsts@.len() == i,
                forall|k: int| 0 <= k < i ==> dsts@[k] == #[trigger] old_hes[l@[k].ix()].dst,
            decreases n - i,
        {
            proof {
                lemma_walk_valid(self.hes@, self.verts@.len() as int, self.edges@.len() as int,
                    self.faces@.len() as int, start, i as nat);
            }
            dsts.push(self.hes[l[i].id as usize].dst);
            i += 1;
        }
        let mut i: usize = 0;
        while i < n
            invariant
                self.wf(),
                n == l@.len(),
                n >= 1,
                l@ == loop_seq(old_hes, start, n as nat),
                l@.no_duplicates(),
                self.hes@.len() == old_hes.len(),
                crate::mesh::hes_wf(old_hes, self.verts@.len() as int, self.edges@.len() as int, self.faces@.len() as int),
                self.verts@ == old(self).verts@,
                self.edges@ == old(self).edges@,
                self.faces@ == toggled,
                forall|k: int| 0 <= k < n ==> 0 <= (#[trigger] l@[k]).ix() < old_hes.len(),
                dsts@.len() == n,
                forall|k: int| 0 <= k < n ==> dsts@[k] == #[trigger] old_hes[l@[k].ix()].dst,
                i <= n,
                forall|k: int| 0 <= k < i ==> self.hes@[(#[trigger] l@[k]).ix()] == reversed_he(old_hes, l@, k),
                forall|k: int| i <= k < n ==> self.hes@[(#[trigger] l@[k]).ix()] == old_hes[l@[k].ix()],
                forall|j: int| 0 <= j < old_hes.len() && !l@.contains(HeId { id: j as u32 }) ==> #[trigger] self.hes@[j] == old_hes[j],
                hes_frame(old_hes, self.hes@),
            decreases n - i,
        {
            let p = if i == 0 { n - 1 } else { i - 1 };
            assert(p as int == (i as int + n as int - 1) % (n as int)) by (nonlinear_arith)
                requires p == (if i == 0 { n - 1 } else { i - 1 }), i < n;
            let h = l[i];
            let cur = self.hes[h.id as usize];
            let nh = HalfEdge { next: cur.prev, prev: cur.next, dst: dsts[p], ..cur };
            let ghost before = self.hes@;
            self.hes.set(h.id as usize, nh);
            proof {
                assert forall|k: int| 0 <= k < i + 1 implies self.hes@[(#[trigger] l@[k]).ix()] == reversed_he(old_hes, l@, k) by {
                    if k < i {
                        assert(l@[k] != l@[i as int]);
                    }
                }
                assert forall|k: int| i + 1 <= k < n implies self.hes@[(#[trigger] l@[k]).ix()] == old_hes[l@[k].ix()] by {
                    assert(l@[k] != l@[i as int]);
                }
                assert forall|j: int| 0 <= j < old_hes.len() && !l@.contains(HeId { id: j as u32 }) implies #[trigger] self.hes@[j] == old_hes[j] by {
                    if j == h.ix() {
                        assert(l@[i as int] == HeId { id: j as u32 });
                    }
                }
                assert forall|j: int| 0 <= j < old_hes.len() implies {
                    &&& (#[trigger] self.hes@[j]).alive == old_hes[j].alive
                    &&& self.hes@[j].edge == old_hes[j].edge
                    &&& self.hes@[j].face == old_hes[j].face
                } by {
                    if j != h.ix() {
                        assert(self.hes@[j] == before[j]);
                    }
                }
                assert forall|q: int| 0 <= q < self.hes@.len() implies {
                    let h = #[trigger] self.hes@[q];
                    &&& 0 <= h.next.ix() < self.hes@.len()
                    &&& 0 <= h.prev.ix() < self.hes@.len()
                    &&& 0 <= h.dst.ix() < self.verts@.len()
                    &&& 0 <= h.edge.ix() < self.edges@.len()
                    &&& (h.face.id == NULL_RAW || 0 <= h.face.ix() < self.faces@.len())
                } by {
                    if q != h.ix() {
                        assert(self.hes@[q] == before[q]);
                    } else {
                        assert(before[q] == old_hes[q]);
                        assert(0 <= l@[p as int].ix() < old_hes.len());
                        assert(0 <= old_hes[l@[p as int].ix()].dst.ix() < self.verts@.len());
                        assert(0 <= old_hes[q].next.ix() < self.hes@.len());
                        assert(0 <= old_hes[q].prev.ix() < self.hes@.len());
                    }
                }
            }
            i += 1;
        }
        Ok(())
    }

    /// Visits the faces on the far side of the edge `e`, which `face_id`
    /// runs along `v0 -> v1`: every active, unvisited neighbour is marked,
    /// flipped when it runs along the edge the same way, and queued.
    fn orient_scan_edge(
        &mut self,
        base: Ghost<Mesh>,
        face_id: FaceId,
        v0: VertId,
        v1: VertId,
        e: crate::ids::EdgeId,
        gi: Ghost<int>,
        visited: &mut Vec<bool>,
        order: &mut Vec<FaceId>,
        flipped: &mut usize,
    ) -> (r: Result<(), MeshError>)
        requires
            bfs_ok(*old(self), base@, old(visited)@, old(order)@, *old(flipped) as nat),
            consistently_oriented(base@) ==> {
                &&& *old(self) == base@
                &&& *old(flipped) == 0
                &&& base@.face_active(face_id)
                &&& loop_closes(base@.hes@, base@.faces@[face_id.ix()].outer.start)
                &&& 0 <= gi@ < loop_len(base@.hes@, base@.faces@[face_id.ix()].outer.start)
                &&& outer_edge_at(base@, face_id, gi@) == (v0, v1)
                &&& first_joining(base@.edges@, v0, v1, 0) == Some(e)
            },
        ensures
            consistently_oriented(base@) ==> r is Ok && *final(self) == base@ && *final(flipped) == 0,
            final(self).wf(),
            orient_frame(base@, *final(self)),
            r is Ok,
            scan_done(
                base@,
                face_id,
                e,
                v0,
                v1,
                *old(self),
                old(visited)@,
                old(order)@,
                *old(flipped) as nat,
                *final(self),
                final(visited)@,
                final(order)@,
                *final(flipped) as nat,
            ),
            r is Ok ==> bfs_ok(*final(self), base@, final(visited)@, final(order)@, *final(flipped) as nat),
            r is Ok ==> final(order)@.len() >= old(order)@.len(),
            r is Ok ==> final(order)@.take(old(order)@.len() as int) == old(order)@,
    {
        let nh = self.hes.len();
        let ghost o0 = order@;
        let ghost m0 = *self;
        let ghost vis0 = visited@;
        let ghost fl0 = *flipped as nat;
        let ghost lo = o0.len() as int;
        let ghost mut cs: Seq<Mesh> = seq![*self];
        let mut h: usize = 0;
        while h < nh
            invariant
                bfs_ok(*self, base@, visited@, order@, *flipped as nat),
                nh == self.hes@.len(),
                h <= nh,
                o0 == old(order)@,
                m0 == *old(self),
                vis0 == old(visited)@,
                fl0 == *old(flipped) as nat,
                lo == o0.len(),
                bfs_ok(m0, base@, vis0, o0, fl0),
                order@.len() >= o0.len(),
                order@.take(o0.len() as int) == o0,
                forall|g: int| 0 <= g < vis0.len() && vis0[g] ==> #[trigger] visited@[g],
                forall|k: int| lo <= k < order@.len() ==> across(base@, face_id, e, #[trigger] order@[k]) && !vis0[order@[k].ix()],
                forall|nb: FaceId| nb != face_id && base@.face_active(nb) && owns_along(base@, e, nb, h as int) ==> #[trigger] visited@[nb.ix()],
                forall|g: int| 0 <= g < m0.faces@.len() && !reached_in(order@, lo, order@.len() as int, g) ==> #[trigger] self.faces@[g] == m0.faces@[g],
                *flipped as nat == fl0 + toggled(m0, *self, order@, lo, order@.len() as int),
                cs.len() == order@.len() - lo + 1,
                cs[0] == m0,
                cs[order@.len() - lo] == *self,
                forall|j: int| 0 <= j < order@.len() - lo ==> #[trigger] reach_step(cs[j], cs[j + 1], order@[lo + j], v0, v1),
                consistently_oriented(base@) ==> {
                    &&& *self == base@
                    &&& *flipped == 0
                    &&& base@.face_active(face_id)
                    &&& loop_closes(base@.hes@, base@.faces@[face_id.ix()].outer.start)
                    &&& 0 <= gi@ < loop_len(base@.hes@, base@.faces@[face_id.ix()].outer.start)
                    &&& outer_edge_at(base@, face_id, gi@) == (v0, v1)
                    &&& first_joining(base@.edges@, v0, v1, 0) == Some(e)
                },
            decreases nh - h,
        {
            let he = self.hes[h];
            let nb = he.face;
            proof {
                assert(self.hes@[h as int].alive == base@.hes@[h as int].alive);
            }
            if he.alive && he.edge == e && nb.id != NULL_RAW && nb != face_id && (nb.id as usize) < self.faces.len()
                && self.faces[nb.id as usize].present && self.faces[nb.id as usize].active
                && !visited[nb.id as usize] {
                let ghost ob = order@;
                let ghost vb = visited@;
                let ghost mb = *self;
                proof {
                    if ob.contains(nb) {
                        let k = choose|k: int| 0 <= k < ob.len() && ob[k] == nb;
                        assert(visited@[ob[k].ix()]);
                    }
                    assert(self.faces@[nb.ix()].present == base@.faces@[nb.ix()].present);
                    assert(base@.face_active(nb));
                    assert(owns_along(base@, e, nb, nh as int)) by {
                        assert(base@.hes@[h as int].alive);
                    }
                    assert(across(base@, face_id, e, nb));
                    assert(!vis0[nb.ix()]);
                    assert(!reached_in(ob, lo, ob.len() as int, nb.ix())) by {
                        if reached_in(ob, lo, ob.len() as int, nb.ix()) {
                            let k = choose|k: int| lo <= k < ob.len() && (#[trigger] ob[k]).ix() == nb.ix();
                            assert(ob[k] == nb);
                            assert(visited@[ob[k].ix()]);
                        }
                    }
                    assert(self.faces@[nb.ix()] == m0.faces@[nb.ix()]);
                }
                visited.set(nb.id as usize, true);
                let start = self.faces[nb.id as usize].outer.start;
                match self.collect_loop_verts(start) {
                    Err(_) => {
                        order.push(nb);
                        proof {
                            self.lemma_bfs_push(base@, visited@, ob, order@, *flipped as nat, nb);
                            lemma_take_push(ob, nb, o0);
                            self.lemma_scan_push(base@, face_id, e, m0, vis0, o0, vb, visited@, ob, order@, nb, h as int);
                            lemma_toggled_ext(m0, *self, order@, *self, ob, lo, ob.len() as int);
                            assert(order@[ob.len() as int] == nb);
                            assert(toggled(m0, *self, order@, lo, order@.len() as int) == toggled(m0, *self, order@, lo, ob.len() as int));
                            assert(!loop_closes(self.hes@, self.faces@[order@[ob.len() as int].ix()].outer.start));
                            assert(reach_step(mb, *self, nb, v0, v1));
                            let cb = cs;
                            cs = cs.push(*self);
                            assert forall|j: int| 0 <= j < order@.len() - lo implies #[trigger] reach_step(cs[j], cs[j + 1], order@[lo + j], v0, v1) by {
                                if j < ob.len() - lo {
                                    assert(cs[j] == cb[j] && cs[j + 1] == cb[j + 1]);
                                    assert(order@[lo + j] == ob[lo + j]);
                                }
                            }
                            assert(cs.len() == order@.len() - lo + 1 && cs[0] == m0 && cs[order@.len() - lo] == *self);
                            assert forall|g: int| 0 <= g < m0.faces@.len() && !reached_in(order@, lo, order@.len() as int, g)
                                implies #[trigger] self.faces@[g] == m0.faces@[g] by {
                                if g == nb.ix() {
                                    assert(order@[ob.len() as int].ix() == g);
                                } else {
                                    if reached_in(ob, lo, ob.len() as int, g) {
                                        let k = choose|k: int| lo <= k < ob.len() && (#[trigger] ob[k]).ix() == g;
                                        assert(order@[k] == ob[k]);
                                    }
                                }
                            }
                        }
                        return Ok(());
                    },
                    Ok(nbb) => {
                        proof {
                            if consistently_oriented(base@) {
                                let _ = outer_edge_at(base@, face_id, gi@);
                                let _ = base@.hes@[h as int];
                                assert(nbb@ == outer_loop_verts(base@, nb));
                                assert(!needs_flip_from(nbb@, v0, v1, 0));
                            }
                        }
                        if check_needs_flip(v0, v1, nbb.as_slice()) {
                            proof {
                                assert forall|k: int| 0 <= k < ob.len() implies 0 <= (#[trigger] ob[k]).ix() < self.faces@.len() by {
                                    assert(base@.face_active(ob[k]));
                                }
                                lemma_order_bounded(ob, self.faces@.len());
                            }
                            let fr = self.flip_face(nb);
                            match fr {
                                Ok(()) => {},
                                Err(x) => {
                                    proof {
                                        assert(walk(mb.hes@, start, nbb@.len()) == start);
                                    }
                                    return Err(x);
                                },
                            }
                            proof {
                                lemma_frame_flip(base@, mb, *self, nb);
                                assert forall|j: int| lo <= j < ob.len() implies #[trigger] ob[j] == ob[j]
                                    && self.faces@[ob[j].ix()].normal_flipped == mb.faces@[ob[j].ix()].normal_flipped by {
                                    assert(visited@[ob[j].ix()]);
                                    assert(ob[j] != nb);
                                }
                                lemma_toggled_ext(m0, *self, ob, mb, ob, lo, ob.len() as int);
                            }
                            *flipped = *flipped + 1;
                        }
                        let ghost ms = *self;
                        order.push(nb);
                        proof {
                            self.lemma_bfs_push(base@, visited@, ob, order@, *flipped as nat, nb);
                            lemma_take_push(ob, nb, o0);
                            self.lemma_scan_push(base@, face_id, e, m0, vis0, o0, vb, visited@, ob, order@, nb, h as int);
                            lemma_toggled_ext(m0, *self, order@, *self, ob, lo, ob.len() as int);
                            assert(order@[ob.len() as int] == nb);
                            assert forall|g: int| 0 <= g < m0.faces@.len() && !reached_in(order@, lo, order@.len() as int, g)
                                implies #[trigger] self.faces@[g] == m0.faces@[g] by {
                                if g == nb.ix() {
                                    assert(order@[ob.len() as int].ix() == g);
                                } else {
                                    assert(self.faces@[g] == mb.faces@[g]);
                                    if reached_in(ob, lo, ob.len() as int, g) {
                                        let k = choose|k: int| lo <= k < ob.len() && (#[trigger] ob[k]).ix() == g;
                                        assert(order@[k] == ob[k]);
                                    }
                                }
                            }
                            assert(nbb@ == outer_loop_verts(mb, nb));
                            assert(reach_step(mb, *self, nb, v0, v1));
                            let cb = cs;
                            cs = cs.push(*self);
                            assert forall|j: int| 0 <= j < order@.len() - lo implies #[trigger] reach_step(cs[j], cs[j + 1], order@[lo + j], v0, v1) by {
                                if j < ob.len() - lo {
                                    assert(cs[j] == cb[j] && cs[j + 1] == cb[j + 1]);
                                    assert(order@[lo + j] == ob[lo + j]);
                                }
                            }
                        }
                    },
                }
            } else {
                proof {
                    assert forall|nb2: FaceId| nb2 != face_id && base@.face_active(nb2) && owns_along(base@, e, nb2, h + 1)
                        implies #[trigger] visited@[nb2.ix()] by {
                        let w = choose|w: int| 0 <= w < h + 1 && #[trigger] base@.hes@[w].alive && base@.hes@[w].edge == e
                            && base@.hes@[w].face == nb2;
                        if w < h {
                            assert(owns_along(base@, e, nb2, h as int));
                        } else {
                            assert(self.hes@[w].face == nb2);
                            assert(nb2.id != NULL_RAW);
                        }
                    }
                }
            }
            h += 1;
        }
        proof {
            assert forall|nb2: FaceId| across(base@, face_id, e, nb2) implies #[trigger] visited@[nb2.ix()] by {}
        }
        Ok(())
    }

    /// The scan state survives marking and queueing the face `nb`, reached
    /// across `e` at slot `h`.
    proof fn lemma_scan_push(
        &self,
        base: Mesh,
        face_id: FaceId,
        e: EdgeId,
        m0: Mesh,
        vis0: Seq<bool>,
        o0: Seq<FaceId>,
        vb: Seq<bool>,
        vis: Seq<bool>,
        ob: Seq<FaceId>,
        order: Seq<FaceId>,
        nb: FaceId,
        h: int,
    )
        requires
            orient_frame(base, *self),
            0 <= h < base.hes@.len(),
            base.hes@[h].alive,
            base.hes@[h].edge == e,
            base.hes@[h].face == nb,
            across(base, face_id, e, nb),
            !vis0[nb.ix()],
            vis == vb.update(nb.ix(), true),
            0 <= nb.ix() < vb.len(),
            vis0.len() == vb.len(),
            vb.len() == base.faces@.len(),
            order == ob.push(nb),
            ob.len() >= o0.len(),
            forall|g: int| 0 <= g < vis0.len() && vis0[g] ==> #[trigger] vb[g],
            forall|k: int| o0.len() <= k < ob.len() ==> across(base, face_id, e, #[trigger] ob[k]) && !vis0[ob[k].ix()],
            forall|nb2: FaceId| nb2 != face_id && base.face_active(nb2) && owns_along(base, e, nb2, h) ==> #[trigger] vb[nb2.ix()],
        ensures
            forall|g: int| 0 <= g < vis0.len() && vis0[g] ==> #[trigger] vis[g],
            forall|k: int| o0.len() <= k < order.len() ==> across(base, face_id, e, #[trigger] order[k]) && !vis0[order[k].ix()],
            forall|nb2: FaceId| nb2 != face_id && base.face_active(nb2) && owns_along(base, e, nb2, h + 1) ==> #[trigger] vis[nb2.ix()],
    {
        assert forall|g: int| 0 <= g < vis0.len() && vis0[g] implies #[trigger] vis[g] by {
            assert(vb[g]);
        }
        assert forall|k: int| o0.len() <= k < order.len() implies across(base, face_id, e, #[trigger] order[k]) && !vis0[order[k].ix()] by {
            if k < ob.len() {
                assert(order[k] == ob[k]);
            }
        }
        assert forall|nb2: FaceId| nb2 != face_id && base.face_active(nb2) && owns_along(base, e, nb2, h + 1)
            implies #[trigger] vis[nb2.ix()] by {
            let w = choose|w: int| 0 <= w < h + 1 && #[trigger] base.hes@[w].alive && base.hes@[w].edge == e
                && base.hes@[w].face == nb2;
            if w < h {
                assert(owns_along(base, e, nb2, h));
                assert(vb[nb2.ix()]);
            } else {
                assert(nb2 == nb);
            }
        }
    }

    /// The breadth-first state survives marking and queueing a new face.
    proof fn lemma_bfs_push(&self, base: Mesh, visited: Seq<bool>, ob: Seq<FaceId>, order: Seq<FaceId>, flipped: nat, nb: FaceId)
        requires
            self.wf(),
            orient_frame(base, *self),
            visited.len() == self.faces@.len(),
            ob.no_duplicates(),
            !ob.contains(nb),
            order == ob.push(nb),
            base.face_active(nb),
            visited[nb.ix()],
            forall|k: int| 0 <= k < ob.len() ==> base.face_active(#[trigger] ob[k]) && visited[ob[k].ix()],
            forall|g: int| 0 <= g < visited.len() && #[trigger] visited[g] && g != nb.ix() ==> ob.contains(FaceId { id: g as u32 }),
            flipped <= ob.len() + 1,
        ensures
            bfs_ok(*self, base, visited, order, flipped),
    {
        assert forall|a: int, b: int| 0 <= a < order.len() && 0 <= b < order.len() && a != b implies order[a] != order[b] by {
            if a < ob.len() && b < ob.len() {
                assert(ob[a] != ob[b]);
            } else if a < ob.len() {
                assert(ob.contains(order[a]));
            } else if b < ob.len() {
                assert(ob.contains(order[b]));
            }
        }
        assert forall|k: int| 0 <= k < order.len() implies base.face_active(#[trigger] order[k]) && visited[order[k].ix()] by {
            if k < ob.len() {
                assert(order[k] == ob[k]);
            }
        }
        assert forall|g: int| 0 <= g < visited.len() && #[trigger] visited[g] implies order.contains(FaceId { id: g as u32 }) by {
            if g == nb.ix() {
                assert(order[ob.len() as int] == nb);
                assert(nb == FaceId { id: g as u32 });
            } else {
                let k = choose|k: int| 0 <= k < ob.len() && ob[k] == FaceId { id: g as u32 };
                assert(order[k] == ob[k]);
            }
        }
    }

    /// Visits the neighbours of `face_id` across each edge of its outer
    /// boundary. A face whose outer loop does not close has no neighbours.
    fn orient_visit_face(
        &mut self,
        base: Ghost<Mesh>,
        face_id: FaceId,
        visited: &mut Vec<bool>,
        order: &mut Vec<FaceId>,
        flipped: &mut usize,
    ) -> (r: Result<(), MeshError>)
        requires
            bfs_ok(*old(self), base@, old(visited)@, old(order)@, *old(flipped) as nat),
            base@.face_active(face_id),
            consistently_oriented(base@) ==> *old(self) == base@ && *old(flipped) == 0,
        ensures
            consistently_oriented(base@) ==> r is Ok && *final(self) == base@ && *final(flipped) == 0,
            final(self).wf(),
            orient_frame(base@, *final(self)),
            r is Ok,
            visit_done(
                base@,
                face_id,
                *old(self),
                old(visited)@,
                old(order)@,
                *old(flipped) as nat,
                *final(self),
                final(visited)@,
                final(order)@,
                *final(flipped) as nat,
            ),
            r is Ok ==> bfs_ok(*final(self), base@, final(visited)@, final(order)@, *final(flipped) as nat),
            r is Ok ==> final(order)@.len() >= old(order)@.len(),
            r is Ok ==> final(order)@.take(old(order)@.len() as int) == old(order)@,
    {
        proof {
            assert(self.faces@[face_id.ix()].present == base@.faces@[face_id.ix()].present);
        }
        match self.face_outer_edges(face_id) {
            Err(_) => return Ok(()),
            Ok(_) => {},
        }
        let start = self.faces[face_id.id as usize].outer.start;
        let boundary = match self.collect_loop_verts(start) {
            Err(_) => return Ok(()),
            Ok(b) => b,
        };
        let n = boundary.len();
        let ghost o0 = order@;
        let ghost m0 = *self;
        let ghost w = boundary@;
        let ghost mut ms: Seq<Mesh> = seq![*self];
        let ghost mut vs: Seq<Seq<bool>> = seq![visited@];
        let ghost mut os: Seq<Seq<FaceId>> = seq![order@];
        let ghost mut fs: Seq<nat> = seq![*flipped as nat];
        let mut i: usize = 0;
        while i < n
            invariant
                bfs_ok(*self, base@, visited@, order@, *flipped as nat),
                base@.face_active(face_id),
                n == boundary@.len(),
                w == boundary@,
                m0 == *old(self),
                loop_closes(m0.hes@, m0.faces@[face_id.ix()].outer.start),
                w == loop_verts(m0.hes@, m0.faces@[face_id.ix()].outer.start, loop_len(m0.hes@, m0.faces@[face_id.ix()].outer.start)),
                i <= n,
                o0 == old(order)@,
                order@.len() >= o0.len(),
                order@.take(o0.len() as int) == o0,
                ms.len() == i + 1,
                vs.len() == i + 1,
                os.len() == i + 1,
                fs.len() == i + 1,
                ms[0] == *old(self),
                vs[0] == old(visited)@,
                os[0] == old(order)@,
                fs[0] == *old(flipped) as nat,
                ms[i as int] == *self,
                vs[i as int] == visited@,
                os[i as int] == order@,
                fs[i as int] == *flipped as nat,
                forall|k: int| 0 <= k < i ==> #[trigger] visit_step(base@, face_id, w, k, ms[k], vs[k], os[k], fs[k], ms[k + 1], vs[k + 1], os[k + 1], fs[k + 1]),
                consistently_oriented(base@) ==> {
                    &&& *self == base@
                    &&& *flipped == 0
                    &&& loop_closes(base@.hes@, base@.faces@[face_id.ix()].outer.start)
                    &&& n == loop_len(base@.hes@, base@.faces@[face_id.ix()].outer.start)
                    &&& boundary@ == outer_loop_verts(base@, face_id)
                },
            decreases n - i,
        {
            let v0 = boundary[i];
            let j = if i + 1 == n { 0 } else { i + 1 };
            let v1 = boundary[j];
            let found = self.find_edge(v0, v1);
            assert(j as int == (i as int + 1) % (n as int)) by (nonlinear_arith)
                requires j == (if i + 1 == n { 0 } else { i + 1 }), i < n;
            proof {
                lemma_first_joining(self.edges@, v0, v1, 0, found);
                assert(self.edges@ == base@.edges@);
                if consistently_oriented(base@) {
                    assert(outer_edge_at(base@, face_id, i as int) == (v0, v1));
                }
            }
            let ghost mb = *self;
            let ghost vb = visited@;
            let ghost ob = order@;
            let ghost fb = *flipped as nat;
            match found {
                None => {},
                Some(e) => {
                    self.orient_scan_edge(base, face_id, v0, v1, e, Ghost(i as int), visited, order, flipped)?;
                    proof { crate::mesh::lemma_take_trans(order@, ob, o0); }
                },
            }
            proof {
                assert(visit_step(base@, face_id, w, i as int, mb, vb, ob, fb, *self, visited@, order@, *flipped as nat));
                ms = ms.push(*self);
                vs = vs.push(visited@);
                os = os.push(order@);
                fs = fs.push(*flipped as nat);
                assert forall|k: int| 0 <= k < i + 1 implies #[trigger] visit_step(base@, face_id, w, k, ms[k], vs[k], os[k], fs[k], ms[k + 1], vs[k + 1], os[k + 1], fs[k + 1]) by {
                    if k < i {
                        assert(ms[k] == ms.drop_last()[k] && ms[k + 1] == ms.drop_last()[k + 1]);
                    }
                }
            }
            i += 1;
        }
        Ok(())
    }

    /// Orients every active face consistently with its neighbours.
    ///
    /// Each connected group of active faces is walked breadth-first from
    /// its first face in slot order, across the edges of the faces' outer
    /// boundaries. A neighbour reached across an edge that it runs along in
    /// the same direction as the face it was reached from is flipped (see
    /// `flip_face`). Every active face is visited exactly once.
    pub fn orient_faces(&mut self) -> (r: Result<OrientResult, MeshError>)
        requires
            old(self).wf(),
        ensures
            final(self).wf(),
            orient_frame(*old(self), *final(self)),
            r is Ok,
            r matches Ok(res) ==> res.visited == active_face_count(*old(self)) && res.flipped <= res.visited,
            consistently_oriented(*old(self)) ==> (r matches Ok(res) && res.flipped == 0) && *final(self) == *old(self),
            r matches Ok(res) ==> orient_run(*old(self), *final(self), res.visited as nat, res.flipped as nat),
    {
        let ghost base = *self;
        let nf = self.faces.len();
        proof { lemma_active_ids(self.faces@, nf as nat); }
        let mut all_faces: Vec<FaceId> = Vec::new();
        let mut i: usize = 0;
        while i < nf
            invariant
                self.wf(),
                *self == base,
                nf == self.faces@.len(),
                i <= nf,
                all_faces@ == active_ids(self.faces@, i as nat),
            decreases nf - i,
        {
            if self.faces[i].present && self.faces[i].active {
                all_faces.push(FaceId { id: i as u32 });
            }
            i += 1;
        }
        let ghost vis_start = Seq::new(nf as nat, |g: int| false);
        if all_faces.len() == 0 {
            proof {
                let ms = seq![base];
                let vs = seq![vis_start];
                let os = seq![Seq::<FaceId>::empty()];
                let fs = seq![0nat];
                assert(ms.len() == 1 && vs.len() == 1 && os.len() == 1 && fs.len() == 1);
            }
            return Ok(OrientResult { flipped: 0, visited: 0 });
        }
        let mut visited: Vec<bool> = Vec::new();
        let mut i: usize = 0;
        while i < nf
            invariant
                i <= nf,
                visited@.len() == i,
                forall|g: int| 0 <= g < i ==> !(#[trigger] visited@[g]),
            decreases nf - i,
        {
            visited.push(false);
            i += 1;
        }
        proof {
            assert forall|s: int| 0 <= s < all_faces@.len() implies base.face_active(#[trigger] all_faces@[s]) by {
                assert(all_faces@.contains(all_faces@[s]));
            }
            assert(visited@ =~= vis_start);
            lemma_active_ids_sorted(base.faces@, nf as nat);
            lemma_active_ids(base.faces@, nf as nat);
        }
        let ghost mut ms: Seq<Mesh> = seq![base];
        let ghost mut vs: Seq<Seq<bool>> = seq![vis_start];
        let ghost mut os: Seq<Seq<FaceId>> = seq![Seq::<FaceId>::empty()];
        let ghost mut fs: Seq<nat> = seq![0nat];
        let mut order: Vec<FaceId> = Vec::new();
        let mut qh: usize = 0;
        let mut flipped: usize = 0;
        let na = all_faces.len();
        let mut si: usize = 0;
        while si < na
            invariant
                bfs_ok(*self, base, visited@, order@, flipped as nat),
                base == *old(self),
                nf == base.faces@.len(),
                na == all_faces@.len(),
                all_faces@ == active_ids(base.faces@, nf as nat),
                base.faces@.len() < NULL_RAW,
                forall|s: int| 0 <= s < na ==> base.face_active(#[trigger] all_faces@[s]),
                si <= na,
                qh == order@.len(),
                forall|s: int| 0 <= s < si ==> visited@[(#[trigger] all_faces@[s]).ix()],
                consistently_oriented(base) ==> *self == base && flipped == 0,
                forall|i: int, j: int| 0 <= i < j < all_faces@.len() ==> (#[trigger] all_faces@[i]).ix() < (#[trigger] all_faces@[j]).ix(),
                forall|x: FaceId| #[trigger] all_faces@.contains(x) <==> (0 <= x.ix() < nf && base.faces@[x.ix()].present && base.faces@[x.ix()].active),
                ms.len() == qh + 1,
                vs.len() == qh + 1,
                os.len() == qh + 1,
                fs.len() == qh + 1,
                ms[0] == base,
                vs[0] == vis_start,
                os[0] == Seq::<FaceId>::empty(),
                fs[0] == 0,
                ms[qh as int] == *self,
                vs[qh as int] == visited@,
                os[qh as int] == order@,
                fs[qh as int] == flipped as nat,
                forall|q: int| 0 <= q < qh ==> #[trigger] orient_step(base, q, ms[q], vs[q], os[q], fs[q], ms[q + 1], vs[q + 1], os[q + 1], fs[q + 1]),
            decreases na - si,
        {
            let seed = all_faces[si];
            proof {
                lemma_active_ids(base.faces@, nf as nat);
                assert(all_faces@.contains(seed));
            }
            if !visited[seed.id as usize] {
                let ghost ob = order@;
                proof {
                    if ob.contains(seed) {
                        let k = choose|k: int| 0 <= k < ob.len() && ob[k] == seed;
                        assert(visited@[ob[k].ix()]);
                    }
                }
                let ghost vb0 = visited@;
                proof {
                    assert forall|x: int| 0 <= x < seed.ix() && #[trigger] base.faces@[x].present && base.faces@[x].active implies vb0[x] by {
                        let fx = FaceId { id: x as u32 };
                        assert(all_faces@.contains(fx));
                        let s2 = choose|s2: int| 0 <= s2 < all_faces@.len() && all_faces@[s2] == fx;
                        if s2 >= si {
                            if s2 > si {
                                assert(all_faces@[si as int].ix() < all_faces@[s2].ix());
                            }
                        }
                        assert(s2 < si);
                        assert(vb0[all_faces@[s2].ix()]);
                    }
                    assert(is_next_seed(base, vs[qh as int], seed));
                }
                visited.set(seed.id as usize, true);
                proof {
                    assert forall|s: int| 0 <= s < si implies visited@[(#[trigger] all_faces@[s]).ix()] by {
                        assert(vb0[all_faces@[s].ix()]);
                    }
                }
                order.push(seed);
                proof { self.lemma_bfs_push(base, visited@, ob, order@, flipped as nat, seed); }
                let ghost mut pending = true;
                while qh < order.len()
                    invariant
                        bfs_ok(*self, base, visited@, order@, flipped as nat),
                        base == *old(self),
                        nf == base.faces@.len(),
                        na == all_faces@.len(),
                        si < na,
                        seed == all_faces@[si as int],
                        forall|s: int| 0 <= s < na ==> base.face_active(#[trigger] all_faces@[s]),
                        qh <= order@.len(),
                        visited@[seed.ix()],
                        forall|s: int| 0 <= s < si ==> visited@[(#[trigger] all_faces@[s]).ix()],
                        consistently_oriented(base) ==> *self == base && flipped == 0,
                        ms.len() == qh + 1,
                        vs.len() == qh + 1,
                        os.len() == qh + 1,
                        fs.len() == qh + 1,
                        ms[0] == base,
                        vs[0] == vis_start,
                        os[0] == Seq::<FaceId>::empty(),
                        fs[0] == 0,
                        ms[qh as int] == *self,
                        fs[qh as int] == flipped as nat,
                        pending ==> qh == os[qh as int].len() && order@ == os[qh as int].push(seed) && visited@ == vs[qh as int].update(
                            seed.ix(),
                            true,
                        ) && is_next_seed(base, vs[qh as int], seed),
                        !pending ==> vs[qh as int] == visited@ && os[qh as int] == order@,
                        forall|q: int| 0 <= q < qh ==> #[trigger] orient_step(base, q, ms[q], vs[q], os[q], fs[q], ms[q + 1], vs[q + 1], os[q + 1], fs[q + 1]),
                    decreases nf - qh,
                {
                    proof {
                        assert forall|k: int| 0 <= k < order@.len() implies 0 <= (#[trigger] order@[k]).ix() < nf by {
                            assert(base.face_active(order@[k]));
                        }
                        lemma_order_bounded(order@, nf as nat);
                    }
                    let fid = order[qh];
                    proof { assert(base.face_active(order@[qh as int])); }
                    let ghost q0 = qh as int;
                    proof {
                        if pending {
                            assert(fid == seed);
                        }
                    }
                    qh += 1;
                    let ghost ob2 = order@;
                    let ghost vb = visited@;
                    self.orient_visit_face(Ghost(base), fid, &mut visited, &mut order, &mut flipped)?;
                    proof {
                        assert forall|g: int| 0 <= g < vb.len() && vb[g] implies #[trigger] visited@[g] by {
                            assert(ob2.contains(FaceId { id: g as u32 }));
                            let k = choose|k: int| 0 <= k < ob2.len() && ob2[k] == FaceId { id: g as u32 };
                            assert(order@.take(ob2.len() as int)[k] == ob2[k]);
                            assert(order@[k] == ob2[k]);
                            assert(visited@[order@[k].ix()]);
                        }
                        assert forall|s: int| 0 <= s < si implies visited@[(#[trigger] all_faces@[s]).ix()] by {
                            let g = all_faces@[s];
                            assert(vb[g.ix()]);
                        }
                        assert(base.face_active(all_faces@[si as int]));
                        assert(0 <= seed.ix() < vb.len());
                        assert(vb[seed.ix()]);
                        assert(visited@[seed.ix()]);
                        assert(orient_step(base, q0, ms[q0], vs[q0], os[q0], fs[q0], *self, visited@, order@, flipped as nat));
                        ms = ms.push(*self);
                        vs = vs.push(visited@);
                        os = os.push(order@);
                        fs = fs.push(flipped as nat);
                        assert forall|q: int| 0 <= q < qh implies #[trigger] orient_step(base, q, ms[q], vs[q], os[q], fs[q], ms[q + 1], vs[q + 1], os[q + 1], fs[q + 1]) by {
                            if q < q0 {
                                assert(ms[q] == ms.drop_last()[q] && ms[q + 1] == ms.drop_last()[q + 1]);
                                assert(vs[q] == vs.drop_last()[q] && vs[q + 1] == vs.drop_last()[q + 1]);
                                assert(os[q] == os.drop_last()[q] && os[q + 1] == os.drop_last()[q + 1]);
                                assert(fs[q] == fs.drop_last()[q] && fs[q + 1] == fs.drop_last()[q + 1]);
                            }
                        }
                        pending = false;
                    }
                }
            }
            si += 1;
        }
        proof {
            lemma_active_ids(base.faces@, nf as nat);
            assert forall|x: FaceId| order@.contains(x) <==> all_faces@.contains(x) by {
                if order@.contains(x) {
                    let k = choose|k: int| 0 <= k < order@.len() && order@[k] == x;
                    assert(base.face_active(order@[k]));
                }
                if all_faces@.contains(x) {
                    let s = choose|s: int| 0 <= s < na && all_faces@[s] == x;
                    assert(visited@[x.ix()]);
                    assert(FaceId { id: x.ix() as u32 } == x);
                }
            }
            assert(order@.to_set() =~= all_faces@.to_set());
            order@.unique_seq_to_set();
            all_faces@.unique_seq_to_set();
        }
        proof {
            assert(orient_run(base, *self, qh as nat, flipped as nat));
        }
        Ok(OrientResult { flipped, visited: qh })
    }
}

} // verus!
