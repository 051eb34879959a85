//! Splitting an edge at a new vertex, splitting a face along a chord
//! between two of its boundary vertices, and splitting a face by a drawn
//! line whose two ends have been located on the face's boundary.

use vstd::prelude::*;
use crate::ids::{VertId, HeId, EdgeId, FaceId, MaterialId, NULL_RAW};
use crate::mesh::{Mesh, HalfEdge, Edge, Vertex, Face, MeshError, SurfaceKind, face_wf, walk, is_loop, loop_closes, loop_len,
    loop_verts, loop_error, loop_input_ok, face_added, hole_views, new_face_ok, new_loop_he_ok, edge_joins, lemma_walk_valid, lemma_loop_len};
use crate::shared_merge::{face_removed, first_joining, lemma_first_joining};
use crate::results::FaceSplitResult;
use crate::erase_resynth::same_mesh;
use crate::face_count::{present_faces, lemma_present_removed, lemma_present_added, lemma_present_same};

verus! {

/// Slot `i` holds a live half-edge along `e`.
pub open spec fn runs_along(hes: Seq<HalfEdge>, e: EdgeId, i: int) -> bool {
    hes[i].alive && hes[i].edge == e
}

/// The number of live half-edges along `e` among the first `n` slots.
pub open spec fn along_count(hes: Seq<HalfEdge>, e: EdgeId, n: nat) -> nat
    decreases n,
{
    if n == 0 {
        0
    } else {
        along_count(hes, e, (n - 1) as nat) + if runs_along(hes, e, n - 1) {
            1nat
        } else {
            0nat
        }
    }
}

/// The slot that receives the second half of half-edge `i` when `e` is
/// split: the new half-edges are appended in the order of the ones they
/// continue.
pub open spec fn second_half(hes: Seq<HalfEdge>, e: EdgeId, i: int) -> int {
    (hes.len() + along_count(hes, e, i as nat)) as int
}

/// The handle `p` after `e` is split: a half-edge along `e` is followed by
/// its second half, so whatever came after it now comes after that.
pub open spec fn relinked(hes: Seq<HalfEdge>, e: EdgeId, p: HeId) -> HeId {
    if 0 <= p.ix() < hes.len() && runs_along(hes, e, p.ix()) {
        HeId { id: second_half(hes, e, p.ix()) as u32 }
    } else {
        p
    }
}

/// Half-edge `i` runs along `e` from its first end to its second.
pub open spec fn runs_forward(hes: Seq<HalfEdge>, edge: Edge, i: int) -> bool {
    hes[i].dst == edge.v1
}

/// What becomes of half-edge `i` along the split edge: it now ends at
/// `vp`, on the new edge that touches its tail.
pub open spec fn first_half_of(hes: Seq<HalfEdge>, e: EdgeId, edge: Edge, i: int, vp: VertId, e1: EdgeId, e2: EdgeId) -> HalfEdge {
    HalfEdge {
        dst: vp,
        next: HeId { id: second_half(hes, e, i) as u32 },
        prev: relinked(hes, e, hes[i].prev),
        edge: if runs_forward(hes, edge, i) { e1 } else { e2 },
        ..hes[i]
    }
}

/// The new half-edge that continues half-edge `i` from `vp` to where `i`
/// used to end, in the same face and loop.
pub open spec fn second_half_of(hes: Seq<HalfEdge>, edge: Edge, i: int, e1: EdgeId, e2: EdgeId) -> HalfEdge {
    HalfEdge {
        alive: true,
        dst: hes[i].dst,
        next: hes[i].next,
        prev: HeId { id: i as u32 },
        edge: if runs_forward(hes, edge, i) { e2 } else { e1 },
        face: hes[i].face,
        is_outer: hes[i].is_outer,
    }
}

/// `new` is `old` after splitting edge `e` at the new vertex `vp` into
/// `e1` (first end to `vp`) and `e2` (`vp` to second end).
pub open spec fn edge_split(old: Mesh, new: Mesh, e: EdgeId, vp: VertId, e1: EdgeId, e2: EdgeId) -> bool {
    let n = old.hes@.len() as int;
    let edge = old.edges@[e.ix()];
    &&& vp.ix() == old.verts@.len()
    &&& new.verts@ == old.verts@.push(Vertex { alive: true })
    &&& e1.ix() == old.edges@.len()
    &&& e2.ix() == old.edges@.len() + 1
    &&& new.edges@ == old.edges@.update(e.ix(), Edge { alive: false, ..edge }).push(
        Edge { alive: true, v0: edge.v0, v1: vp, curve: edge.curve },
    ).push(Edge { alive: true, v0: vp, v1: edge.v1, curve: edge.curve })
    &&& new.faces@ == old.faces@
    &&& new.hes@.len() == n + along_count(old.hes@, e, n as nat)
    &&& forall|i: int| 0 <= i < n ==> #[trigger] new.hes@[i] == if runs_along(old.hes@, e, i) {
        first_half_of(old.hes@, e, edge, i, vp, e1, e2)
    } else {
        HalfEdge { prev: relinked(old.hes@, e, old.hes@[i].prev), ..old.hes@[i] }
    }
    &&& forall|i: int| 0 <= i < n && runs_along(old.hes@, e, i) ==> new.hes@[#[trigger] second_half(old.hes@, e, i)]
        == second_half_of(old.hes@, edge, i, e1, e2)
}

/// Edge `e` is live, and the arenas have room for what splitting it adds.
pub open spec fn split_edge_fits(m: Mesh, e: EdgeId) -> bool {
    &&& m.edge_alive(e)
    &&& m.verts@.len() + 1 < NULL_RAW
    &&& m.edges@.len() + 2 < NULL_RAW
    &&& m.hes@.len() + along_count(m.hes@, e, m.hes@.len() as nat) < NULL_RAW
}

/// Counting never decreases, and never passes the number of slots counted.
pub proof fn lemma_along_count_mono(hes: Seq<HalfEdge>, e: EdgeId, a: nat, b: nat)
    requires
        a <= b,
    ensures
        along_count(hes, e, a) <= along_count(hes, e, b),
        along_count(hes, e, b) <= b,
        a < b && runs_along(hes, e, a as int) ==> along_count(hes, e, a) + 1 <= along_count(hes, e, b),
    decreases b,
{
    if b > 0 {
        if a < b {
            lemma_along_count_mono(hes, e, a, (b - 1) as nat);
        } else {
            lemma_along_count_mono(hes, e, (b - 1) as nat, (b - 1) as nat);
        }
    }
}

/// Every count below the total is reached just before some half-edge
/// along `e`: the second halves fill the appended slots.
pub proof fn lemma_along_count_onto(hes: Seq<HalfEdge>, e: EdgeId, n: nat, c: nat)
    requires
        c < along_count(hes, e, n),
    ensures
        exists|j: int| 0 <= j < n && runs_along(hes, e, j) && along_count(hes, e, j as nat) == c,
    decreases n,
{
    if c < along_count(hes, e, (n - 1) as nat) {
        lemma_along_count_onto(hes, e, (n - 1) as nat, c);
    } else {
        assert(runs_along(hes, e, n - 1));
        assert(along_count(hes, e, (n - 1) as nat) == c);
    }
}

/// The number of half-edges along `e` among the first `j` of the walk
/// from `s`.
pub open spec fn loop_along(hes: Seq<HalfEdge>, e: EdgeId, s: HeId, j: nat) -> nat
    decreases j,
{
    if j == 0 {
        0
    } else {
        loop_along(hes, e, s, (j - 1) as nat) + if runs_along(hes, e, walk(hes, s, (j - 1) as nat).ix()) {
            1nat
        } else {
            0nat
        }
    }
}

/// Where the `j`-th step of the old walk from `s` lands in the new one.
pub open spec fn stretched(hes: Seq<HalfEdge>, e: EdgeId, s: HeId, j: nat) -> nat {
    j + loop_along(hes, e, s, j)
}

proof fn lemma_loop_along_mono(hes: Seq<HalfEdge>, e: EdgeId, s: HeId, a: nat, b: nat)
    requires
        a <= b,
    ensures
        loop_along(hes, e, s, a) <= loop_along(hes, e, s, b),
        a < b && runs_along(hes, e, walk(hes, s, a).ix()) ==> loop_along(hes, e, s, a) + 1 <= loop_along(
            hes,
            e,
            s,
            b,
        ),
    decreases b,
{
    if a < b {
        lemma_loop_along_mono(hes, e, s, a, (b - 1) as nat);
    }
}

/// The walk along a split mesh visits the old walk's half-edges at the
/// stretched steps, and does not come back to `s` before.
proof fn lemma_split_walk(old: Mesh, new: Mesh, e: EdgeId, vp: VertId, e1: EdgeId, e2: EdgeId, s: HeId, j: nat)
    requires
        old.wf(),
        new.wf(),
        edge_split(old, new, e, vp, e1, e2),
        0 <= s.ix() < old.hes@.len(),
    ensures
        walk(new.hes@, s, stretched(old.hes@, e, s, j)) == walk(old.hes@, s, j),
        forall|k: nat| 0 < k < stretched(old.hes@, e, s, j) && (forall|i: nat| 0 < i < j ==> #[trigger] walk(old.hes@, s, i) != s)
            ==> #[trigger] walk(new.hes@, s, k) != s,
    decreases j,
{
    let oh = old.hes@;
    let nh = new.hes@;
    if j > 0 {
        let j0 = (j - 1) as nat;
        lemma_split_walk(old, new, e, vp, e1, e2, s, j0);
        lemma_walk_valid(oh, old.verts@.len() as int, old.edges@.len() as int, old.faces@.len() as int, s, j0);
        let h = walk(oh, s, j0);
        let x = stretched(oh, e, s, j0);
        assert(walk(nh, s, x) == h);
        assert(walk(nh, s, x + 1) == nh[h.ix()].next);
        assert(walk(oh, s, j) == oh[h.ix()].next);
        if runs_along(oh, e, h.ix()) {
            lemma_along_count_mono(oh, e, h.ix() as nat, oh.len());
            let q = second_half(oh, e, h.ix());
            assert(nh[h.ix()].next == HeId { id: q as u32 });
            assert(walk(nh, s, x + 2) == nh[q].next);
            assert(stretched(oh, e, s, j) == x + 2);
        } else {
            assert(stretched(oh, e, s, j) == x + 1);
        }
        assert forall|k: nat| 0 < k < stretched(oh, e, s, j) && (forall|i: nat| 0 < i < j ==> #[trigger] walk(oh, s, i) != s)
            implies #[trigger] walk(nh, s, k) != s by {
            if k < x {
            } else if k == x {
                assert(walk(oh, s, j0) != s);
            } else {
                lemma_along_count_mono(oh, e, h.ix() as nat, oh.len());
            }
        }
    }
}

/// Splitting an edge keeps every closed loop closed: it grows by one
/// half-edge for each time it ran along the split edge, and, when it ran
/// along it at all, it passes the new vertex.
pub proof fn lemma_split_edge_keeps_loop(old: Mesh, new: Mesh, e: EdgeId, vp: VertId, e1: EdgeId, e2: EdgeId, s: HeId)
    requires
        old.wf(),
        new.wf(),
        edge_split(old, new, e, vp, e1, e2),
        loop_closes(old.hes@, s),
    ensures
        loop_closes(new.hes@, s),
        loop_len(new.hes@, s) == loop_len(old.hes@, s) + loop_along(old.hes@, e, s, loop_len(old.hes@, s)),
        loop_along(old.hes@, e, s, loop_len(old.hes@, s)) > 0 ==> loop_verts(new.hes@, s, loop_len(new.hes@, s)).contains(vp),
{
    let oh = old.hes@;
    let nh = new.hes@;
    let n = loop_len(oh, s);
    let big = stretched(oh, e, s, n);
    lemma_split_walk(old, new, e, vp, e1, e2, s, n);
    assert(is_loop(nh, s, big));
    lemma_loop_len(nh, s, big);
    if loop_along(oh, e, s, n) > 0 {
        let j = choose_along(oh, e, s, n);
        lemma_split_walk(old, new, e, vp, e1, e2, s, j);
        lemma_walk_valid(oh, old.verts@.len() as int, old.edges@.len() as int, old.faces@.len() as int, s, j);
        lemma_loop_along_mono(oh, e, s, j, n);
        lemma_loop_along_mono(oh, e, s, (j + 1) as nat, n);
        let x = stretched(oh, e, s, j);
        assert(x + 1 < big);
        let i: int = x as int + 1;
        assert((i + big - 1) % (big as int) == x) by (nonlinear_arith)
            requires
                i == x + 1,
                x + 1 < big,
        ;
        let lv = loop_verts(nh, s, big);
        assert(lv[i] == nh[walk(nh, s, x).ix()].dst);
        assert(lv[i] == vp);
    }
}

/// A step of the walk that runs along `e`, when there is one.
proof fn choose_along(hes: Seq<HalfEdge>, e: EdgeId, s: HeId, n: nat) -> (j: nat)
    requires
        loop_along(hes, e, s, n) > 0,
    ensures
        j < n,
        runs_along(hes, e, walk(hes, s, j).ix()),
    decreases n,
{
    if loop_along(hes, e, s, (n - 1) as nat) > 0 {
        choose_along(hes, e, s, (n - 1) as nat)
    } else {
        (n - 1) as nat
    }
}

impl Mesh {
    /// Splits the live edge `e` at a new vertex. `e` dies, and two new
    /// edges, carrying the same kind of curve, join its first end to the
    /// new vertex and the new vertex to its second end. Every live
    /// half-edge along `e` is cut in two: it now ends at the new vertex, and
    /// a new half-edge of the same face and loop goes on from there to
    /// where it ended, so every loop through `e` passes the new vertex.
    /// Faces keep their ids. Returns the new vertex and the two new edges.
    pub fn split_edge(&mut self, e: EdgeId) -> (r: Result<(VertId, EdgeId, EdgeId), MeshError>)
        requires
            old(self).wf(),
        ensures
            final(self).wf(),
            match r {
                Ok((vp, e1, e2)) => old(self).edge_alive(e) && edge_split(*old(self), *final(self), e, vp, e1, e2),
                Err(x) => {
                    &&& final(self).verts@ == old(self).verts@
                    &&& final(self).hes@ == old(self).hes@
                    &&& final(self).edges@ == old(self).edges@
                    &&& final(self).faces@ == old(self).faces@
                    &&& if !old(self).edge_alive(e) {
                        x == MeshError::EdgeNotFound(e)
                    } else {
                        x == MeshError::CapacityExceeded && (old(self).verts@.len() + 1 >= NULL_RAW
                            || old(self).edges@.len() + 2 >= NULL_RAW || old(self).hes@.len()
                            + along_count(old(self).hes@, e, old(self).hes@.len() as nat) >= NULL_RAW)
                    }
                },
            },
            r matches Ok((vp, e1, e2)) ==> forall|s: HeId| #[trigger] loop_closes(old(self).hes@, s) ==> {
                &&& loop_closes(final(self).hes@, s)
                &&& loop_len(final(self).hes@, s) == loop_len(old(self).hes@, s) + loop_along(
                    old(self).hes@,
                    e,
                    s,
                    loop_len(old(self).hes@, s),
                )
                &&& loop_along(old(self).hes@, e, s, loop_len(old(self).hes@, s)) > 0 ==> loop_verts(
                    final(self).hes@,
                    s,
                    loop_len(final(self).hes@, s),
                ).contains(vp)
            },
            r is Ok <==> split_edge_fits(*old(self), e),
    {
        if e.id as usize >= self.edges.len() || !self.edges[e.id as usize].alive {
            return Err(MeshError::EdgeNotFound(e));
        }
        let n = self.hes.len();
        let ghost h0 = self.hes@;
        let mut along: Vec<bool> = Vec::new();
        let mut ranks: Vec<usize> = Vec::new();
        let mut cnt: usize = 0;
        let mut i: usize = 0;
        while i < n
            invariant
                n == self.hes@.len(),
                h0 == self.hes@,
                n < NULL_RAW,
                i <= n,
                along@.len() == i,
                ranks@.len() == i,
                cnt == along_count(h0, e, i as nat),
                cnt <= i,
                forall|k: int| 0 <= k < i ==> #[trigger] along@[k] == runs_along(h0, e, k),
                forall|k: int| 0 <= k < i ==> #[trigger] ranks@[k] == along_count(h0, e, k as nat),
            decreases n - i,
        {
            let h = self.hes[i];
            let a = h.alive && h.edge == e;
            along.push(a);
            ranks.push(cnt);
            if a {
                cnt += 1;
            }
            i += 1;
        }
        if self.verts.len() >= 0xffff_fffe || self.edges.len() >= 0xffff_fffd || cnt >= 0xffff_ffff - n {
            return Err(MeshError::CapacityExceeded);
        }
        let ghost old_mesh = *old(self);
        let edge = self.edges[e.id as usize];
        let vp = VertId { id: self.verts.len() as u32 };
        self.verts.push(Vertex { alive: true });
        let e1 = EdgeId { id: self.edges.len() as u32 };
        let e2 = EdgeId { id: (self.edges.len() + 1) as u32 };
        self.edges.set(e.id as usize, Edge { alive: false, ..edge });
        self.edges.push(Edge { alive: true, v0: edge.v0, v1: vp, curve: edge.curve });
        self.edges.push(Edge { alive: true, v0: vp, v1: edge.v1, curve: edge.curve });
        let ghost vs1 = self.verts@;
        let ghost es1 = self.edges@;
        assert(es1 =~= old_mesh.edges@.update(e.ix(), Edge { alive: false, ..edge }).push(
            Edge { alive: true, v0: edge.v0, v1: vp, curve: edge.curve },
        ).push(Edge { alive: true, v0: vp, v1: edge.v1, curve: edge.curve }));
        // The second halves, appended in slot order.
        let mut i: usize = 0;
        while i < n
            invariant
                n == h0.len(),
                h0 == old_mesh.hes@,
                self.verts@ == vs1,
                self.edges@ == es1,
                self.faces@ == old_mesh.faces@,
                n < NULL_RAW,
                cnt == along_count(h0, e, n as nat),
                n + cnt < NULL_RAW,
                i <= n,
                along@.len() == n,
                forall|k: int| 0 <= k < n ==> #[trigger] along@[k] == runs_along(h0, e, k),
                self.hes@.len() == n + along_count(h0, e, i as nat),
                self.hes@.take(n as int) == h0,
                forall|k: int| 0 <= k < i && runs_along(h0, e, k) ==> self.hes@[#[trigger] second_half(h0, e, k)]
                    == second_half_of(h0, edge, k, e1, e2),
            decreases n - i,
        {
            proof {
                lemma_along_count_mono(h0, e, (i + 1) as nat, n as nat);
            }
            if along[i] {
                let h = self.hes[i];
                assert(h == h0[i as int]);
                let ghost before = self.hes@;
                self.hes.push(
                    HalfEdge {
                        alive: true,
                        dst: h.dst,
                        next: h.next,
                        prev: HeId { id: i as u32 },
                        edge: if h.dst == edge.v1 { e2 } else { e1 },
                        face: h.face,
                        is_outer: h.is_outer,
                    },
                );
                assert(self.hes@.take(n as int) =~= before.take(n as int));
            } else {
                assert(h0[i as int] == self.hes@[i as int]);
            }
            proof {
                assert forall|k: int| 0 <= k < i + 1 && runs_along(h0, e, k) implies self.hes@[#[trigger] second_half(
                    h0,
                    e,
                    k,
                )] == second_half_of(h0, edge, k, e1, e2) by {
                    lemma_along_count_mono(h0, e, k as nat, i as nat);
                }
            }
            i += 1;
        }
        // Each old half-edge: the ones along `e` now end at `vp`, and every
        // back link to one of them moves to its second half.
        let mut i: usize = 0;
        while i < n
            invariant
                n == h0.len(),
                h0 == old_mesh.hes@,
                self.verts@ == vs1,
                self.edges@ == es1,
                self.faces@ == old_mesh.faces@,
                n < NULL_RAW,
                cnt == along_count(h0, e, n as nat),
                n + cnt < NULL_RAW,
                i <= n,
                along@.len() == n,
                ranks@.len() == n,
                forall|k: int| 0 <= k < n ==> #[trigger] along@[k] == runs_along(h0, e, k),
                forall|k: int| 0 <= k < n ==> #[trigger] ranks@[k] == along_count(h0, e, k as nat),
                self.hes@.len() == n + cnt,
                forall|k: int| i <= k < n ==> #[trigger] self.hes@[k] == h0[k],
                forall|k: int| 0 <= k < i ==> #[trigger] self.hes@[k] == if runs_along(h0, e, k) {
                    first_half_of(h0, e, edge, k, vp, e1, e2)
                } else {
                    HalfEdge { prev: relinked(h0, e, h0[k].prev), ..h0[k] }
                },
                forall|k: int| 0 <= k < n && runs_along(h0, e, k) ==> self.hes@[#[trigger] second_half(h0, e, k)]
                    == second_half_of(h0, edge, k, e1, e2),
            decreases n - i,
        {
            let h = self.hes[i];
            let p = h.prev;
            let np = if (p.id as usize) < n && along[p.id as usize] {
                proof {
                    lemma_along_count_mono(h0, e, p.ix() as nat, n as nat);
                }
                HeId { id: (n + ranks[p.id as usize]) as u32 }
            } else {
                p
            };
            assert(np == relinked(h0, e, h0[i as int].prev));
            if along[i] {
                proof {
                    lemma_along_count_mono(h0, e, i as nat, n as nat);
                }
                let nh = HalfEdge {
                    dst: vp,
                    next: HeId { id: (n + ranks[i]) as u32 },
                    prev: np,
                    edge: if h.dst == edge.v1 { e1 } else { e2 },
                    ..h
                };
                self.hes.set(i, nh);
            } else {
                self.hes.set(i, HalfEdge { prev: np, ..h });
            }
            proof {
                assert forall|k: int| 0 <= k < n && runs_along(h0, e, k) implies self.hes@[#[trigger] second_half(
                    h0,
                    e,
                    k,
                )] == second_half_of(h0, edge, k, e1, e2) by {
                    lemma_along_count_mono(h0, e, k as nat, n as nat);
                }
            }
            i += 1;
        }
        proof {
            let m = *self;
            assert(m.edges@ =~= old_mesh.edges@.update(e.ix(), Edge { alive: false, ..edge }).push(
                Edge { alive: true, v0: edge.v0, v1: vp, curve: edge.curve },
            ).push(Edge { alive: true, v0: vp, v1: edge.v1, curve: edge.curve }));
            assert forall|k: int| 0 <= k < m.edges@.len() implies {
                let x = #[trigger] m.edges@[k];
                &&& 0 <= x.v0.ix() < m.verts@.len()
                &&& 0 <= x.v1.ix() < m.verts@.len()
            } by {
                if k < old_mesh.edges@.len() {
                    assert(k == e.ix() || m.edges@[k] == old_mesh.edges@[k]);
                }
            }
            assert forall|k: int| 0 <= k < m.hes@.len() implies {
                let h = #[trigger] m.hes@[k];
                &&& 0 <= h.next.ix() < m.hes@.len()
                &&& 0 <= h.prev.ix() < m.hes@.len()
                &&& 0 <= h.dst.ix() < m.verts@.len()
                &&& 0 <= h.edge.ix() < m.edges@.len()
                &&& (h.face.id == NULL_RAW || 0 <= h.face.ix() < m.faces@.len())
            } by {
                if k < n {
                    assert(h0[k] == old_mesh.hes@[k]);
                    let p = h0[k].prev;
                    if 0 <= p.ix() < n && runs_along(h0, e, p.ix()) {
                        lemma_along_count_mono(h0, e, p.ix() as nat, n as nat);
                    }
                    if runs_along(h0, e, k) {
                        lemma_along_count_mono(h0, e, k as nat, n as nat);
                    }
                } else {
                    lemma_along_count_onto(h0, e, n as nat, (k - n) as nat);
                    let j = choose|j: int| 0 <= j < n && runs_along(h0, e, j) && along_count(h0, e, j as nat) == k - n;
                    assert(second_half(h0, e, j) == k);
                }
            }
            assert forall|k: int| 0 <= k < m.faces@.len() implies face_wf(#[trigger] m.faces@[k], m.hes@.len() as int) by {
                assert(face_wf(old_mesh.faces@[k], n as int));
            }
            assert forall|st: HeId| #[trigger] loop_closes(old_mesh.hes@, st) implies {
                &&& loop_closes(m.hes@, st)
                &&& loop_len(m.hes@, st) == loop_len(old_mesh.hes@, st) + loop_along(
                    old_mesh.hes@,
                    e,
                    st,
                    loop_len(old_mesh.hes@, st),
                )
                &&& loop_along(old_mesh.hes@, e, st, loop_len(old_mesh.hes@, st)) > 0 ==> loop_verts(
                    m.hes@,
                    st,
                    loop_len(m.hes@, st),
                ).contains(vp)
            } by {
                lemma_split_edge_keeps_loop(old_mesh, m, e, vp, e1, e2, st);
            }
        }
        Ok((vp, e1, e2))
    }
}

/// Why a face could not be split along a chord.
#[derive(Clone, Copy, Debug, PartialEq, Eq, Structural)]
pub enum FaceSplitError {
    /// A mesh primitive failed: the face is missing, its outer loop does
    /// not close, a piece would be degenerate, or an arena is full.
    Mesh(MeshError),
    /// The face has holes, and nothing says which piece each goes to.
    HasHoles,
    /// Both ends of the chord are the same vertex.
    SameVertex,
    /// The vertex is not on the face's outer loop.
    NotOnBoundary(VertId),
    /// The two vertices follow each other on the loop: the chord would be
    /// an existing side.
    AdjacentVertices,
}

/// `w[i]` is the first occurrence of `v` in `w`.
pub open spec fn first_at(w: Seq<VertId>, v: VertId, i: int) -> bool {
    &&& 0 <= i < w.len()
    &&& w[i] == v
    &&& forall|k: int| 0 <= k < i ==> w[k] != v
}

/// The vertices of the loop `w` from position `i` round to position `j`,
/// both included.
pub open spec fn arc(w: Seq<VertId>, i: int, j: int) -> Seq<VertId> {
    let n = w.len() as int;
    Seq::new(((j - i + n) % n + 1) as nat, |k: int| w[(i + k) % n])
}

/// Positions `i` and `j` follow each other round a loop of `n`.
pub open spec fn adjacent(n: int, i: int, j: int) -> bool {
    (i + 1) % n == j || (j + 1) % n == i
}

/// Adding two faces whose loops have `total` vertices in all could
/// overflow an arena.
pub open spec fn split_capacity_short(m: Mesh, total: int) -> bool {
    ||| m.faces@.len() + 3 >= NULL_RAW
    ||| m.hes@.len() + total >= NULL_RAW
    ||| m.edges@.len() + total >= NULL_RAW
}

/// `new` is `old` with face `f` removed and replaced by a face bounded by
/// `a` and then one bounded by `b`, both with `f`'s material and surface.
pub open spec fn replaced_by_two(old: Mesh, new: Mesh, f: FaceId, a: Seq<VertId>, b: Seq<VertId>, fa: FaceId, fb: FaceId) -> bool {
    let face = old.faces@[f.ix()];
    exists|m1: Mesh, m2: Mesh, m3: Mesh|
        #![trigger face_removed(old, m1, f), face_added(m1, m2, a, Seq::empty(), face.material, Ok(fa)), face_added(m2, m3, b, Seq::empty(), face.material, Ok(fb))]
        face_removed(old, m1, f) && face_added(m1, m2, a, Seq::empty(), face.material, Ok(fa)) && face_added(
            m2,
            m3,
            b,
            Seq::empty(),
            face.material,
            Ok(fb),
        ) && new.verts@ == m3.verts@ && new.hes@ == m3.hes@ && new.edges@ == m3.edges@ && new.faces@ == m3.faces@.update(
            fa.ix(),
            Face { surface: face.surface, ..m3.faces@[fa.ix()] },
        ).update(fb.ix(), Face { surface: face.surface, ..m3.faces@[fb.ix()] })
}

/// `new` and `r` are what splitting face `f` along the chord from `v1` to
/// `v2` gives from `old`.
pub open spec fn face_split_done(old: Mesh, new: Mesh, f: FaceId, v1: VertId, v2: VertId, r: Result<(FaceId, FaceId), FaceSplitError>) -> bool {
    let face = old.faces@[f.ix()];
    let st = face.outer.start;
    let w = loop_verts(old.hes@, st, loop_len(old.hes@, st));
    let nv = old.verts@.len() as int;
    if !old.face_present(f) {
        r == Err::<(FaceId, FaceId), FaceSplitError>(FaceSplitError::Mesh(MeshError::FaceNotFound(f))) && new == old
    } else if face.inners@.len() > 0 {
        r == Err::<(FaceId, FaceId), FaceSplitError>(FaceSplitError::HasHoles) && new == old
    } else if !loop_closes(old.hes@, st) {
        r == Err::<(FaceId, FaceId), FaceSplitError>(FaceSplitError::Mesh(loop_error(old, st))) && new == old
    } else if v1 == v2 {
        r == Err::<(FaceId, FaceId), FaceSplitError>(FaceSplitError::SameVertex) && new == old
    } else if !w.contains(v1) {
        r == Err::<(FaceId, FaceId), FaceSplitError>(FaceSplitError::NotOnBoundary(v1)) && new == old
    } else if !w.contains(v2) {
        r == Err::<(FaceId, FaceId), FaceSplitError>(FaceSplitError::NotOnBoundary(v2)) && new == old
    } else {
        exists|i: int, j: int|
            #![trigger first_at(w, v1, i), first_at(w, v2, j)]
            first_at(w, v1, i) && first_at(w, v2, j) && if adjacent(w.len() as int, i, j) {
                r == Err::<(FaceId, FaceId), FaceSplitError>(FaceSplitError::AdjacentVertices) && new == old
            } else if !loop_input_ok(arc(w, i, j), nv) || !loop_input_ok(arc(w, j, i), nv) {
                r == Err::<(FaceId, FaceId), FaceSplitError>(FaceSplitError::Mesh(MeshError::DegenerateLoop)) && new == old
            } else if split_capacity_short(old, w.len() as int + 2) {
                r == Err::<(FaceId, FaceId), FaceSplitError>(FaceSplitError::Mesh(MeshError::CapacityExceeded)) && new == old
            } else {
                r matches Ok((fa, fb)) && replaced_by_two(old, new, f, arc(w, i, j), arc(w, j, i), fa, fb)
            }
    }
}

/// Splitting a loop of `n` vertices between two of its positions gives two
/// pieces with `n + 2` vertices in all (both ends are in both), and every
/// vertex of the loop lies on one piece or the other.
pub proof fn law_split_pieces_cover_loop(w: Seq<VertId>, i: int, j: int)
    requires
        0 <= i < w.len(),
        0 <= j < w.len(),
        i != j,
    ensures
        arc(w, i, j).len() + arc(w, j, i).len() == w.len() + 2,
        forall|k: int| 0 <= k < w.len() ==> arc(w, i, j).contains(#[trigger] w[k]) || arc(w, j, i).contains(w[k]),
{
    let n = w.len() as int;
    if i < j {
        vstd::arithmetic::div_mod::lemma_mod_add_multiples_vanish(j - i, n);
        vstd::arithmetic::div_mod::lemma_small_mod((j - i) as nat, n as nat);
        vstd::arithmetic::div_mod::lemma_small_mod((i - j + n) as nat, n as nat);
    } else {
        vstd::arithmetic::div_mod::lemma_mod_add_multiples_vanish(i - j, n);
        vstd::arithmetic::div_mod::lemma_small_mod((i - j) as nat, n as nat);
        vstd::arithmetic::div_mod::lemma_small_mod((j - i + n) as nat, n as nat);
    }
    assert forall|k: int| 0 <= k < w.len() implies arc(w, i, j).contains(#[trigger] w[k]) || arc(w, j, i).contains(w[k]) by {
        let a = arc(w, i, j);
        let b = arc(w, j, i);
        let da = (k - i + n) % n;
        let db = (k - j + n) % n;
        if k >= i {
            vstd::arithmetic::div_mod::lemma_mod_add_multiples_vanish(k - i, n);
            vstd::arithmetic::div_mod::lemma_small_mod((k - i) as nat, n as nat);
        } else {
            vstd::arithmetic::div_mod::lemma_small_mod((k - i + n) as nat, n as nat);
        }
        if k >= j {
            vstd::arithmetic::div_mod::lemma_mod_add_multiples_vanish(k - j, n);
            vstd::arithmetic::div_mod::lemma_small_mod((k - j) as nat, n as nat);
        } else {
            vstd::arithmetic::div_mod::lemma_small_mod((k - j + n) as nat, n as nat);
        }
        if da < a.len() {
            if k >= i {
                vstd::arithmetic::div_mod::lemma_small_mod(k as nat, n as nat);
            } else {
                vstd::arithmetic::div_mod::lemma_mod_add_multiples_vanish(k, n);
                vstd::arithmetic::div_mod::lemma_small_mod(k as nat, n as nat);
            }
            assert(a[da] == w[k]);
        } else {
            if k >= j {
                vstd::arithmetic::div_mod::lemma_small_mod(k as nat, n as nat);
            } else {
                vstd::arithmetic::div_mod::lemma_mod_add_multiples_vanish(k, n);
                vstd::arithmetic::div_mod::lemma_small_mod(k as nat, n as nat);
            }
            assert(db < b.len());
            assert(b[db] == w[k]);
        }
    }
}

/// The position of the first occurrence of `v` in `w`.
fn first_index(w: &Vec<VertId>, v: VertId) -> (r: Option<usize>)
    ensures
        match r {
            Some(i) => first_at(w@, v, i as int),
            None => !w@.contains(v),
        },
{
    let mut i: usize = 0;
    while i < w.len()
        invariant
            i <= w@.len(),
            forall|k: int| 0 <= k < i ==> w@[k] != v,
        decreases w@.len() - i,
    {
        if w[i] == v {
            return Some(i);
        }
        i += 1;
    }
    None
}

/// The vertices of the loop `w` from position `i` round to position `j`.
fn arc_vec(w: &Vec<VertId>, i: usize, j: usize) -> (r: Vec<VertId>)
    requires
        i < w@.len(),
        j < w@.len(),
    ensures
        r@ == arc(w@, i as int, j as int),
{
    let n = w.len();
    let len = if j >= i { j - i + 1 } else { (n - i) + j + 1 };
    assert(len as int == (j - i + n) % (n as int) + 1) by (nonlinear_arith)
        requires
            len == (if j >= i { j - i + 1 } else { (n - i) + j + 1 }),
            i < n,
            j < n,
    ;
    let mut out: Vec<VertId> = Vec::new();
    let mut k: usize = 0;
    while k < len
        invariant
            n == w@.len(),
            i < n,
            len <= n,
            k <= len,
            out@.len() == k,
            forall|q: int| 0 <= q < k ==> out@[q] == #[trigger] w@[(i + q) % (n as int)],
        decreases len - k,
    {
        let p = if k < n - i { i + k } else { k - (n - i) };
        assert(p as int == (i + k) % (n as int)) by (nonlinear_arith)
            requires
                p == (if k < n - i { i + k } else { k - (n - i) }),
                i < n,
                k < n,
        ;
        out.push(w[p]);
        k += 1;
    }
    assert(out@ =~= arc(w@, i as int, j as int));
    out
}

/// The last half-edge of the first piece runs from `v2` back to `v1`, so
/// the chord is an edge of the split mesh.
proof fn lemma_chord_joins(m2: Mesh, m3: Mesh, fin: Mesh, fa: FaceId, w: Seq<VertId>, i: int, j: int, material: MaterialId)
    requires
        0 <= i < w.len(),
        0 <= j < w.len(),
        arc(w, i, j).len() >= 3,
        new_face_ok(m2, fa, arc(w, i, j), Seq::empty(), material),
        m3.edges@.len() >= m2.edges@.len(),
        m3.edges@.take(m2.edges@.len() as int) == m2.edges@,
        fin.edges@ == m3.edges@,
    ensures
        exists|e: int| 0 <= e < fin.edges@.len() && #[trigger] edge_joins(fin.edges@[e], w[i], w[j]),
{
    let a = arc(w, i, j);
    let la = a.len() as int;
    let ni = w.len() as int;
    let base = m2.faces@[fa.ix()].outer.start.ix();
    let last = la - 1;
    assert(new_loop_he_ok(m2.hes@[base + last], m2.edges@, base, last, a, fa, true));
    let ce = m2.hes@[base + last].edge.ix();
    assert(0 <= ce < m2.edges@.len());
    assert((last + 1) % la == 0) by (nonlinear_arith)
        requires
            last + 1 == la,
            la >= 3,
    ;
    assert((i + last) % ni == j) by (nonlinear_arith)
        requires
            last == (j - i + ni) % ni,
            0 <= i < ni,
            0 <= j < ni,
    {
        if i <= j {
            vstd::arithmetic::div_mod::lemma_mod_add_multiples_vanish(j - i, ni);
            vstd::arithmetic::div_mod::lemma_small_mod((j - i) as nat, ni as nat);
            vstd::arithmetic::div_mod::lemma_small_mod(j as nat, ni as nat);
        } else {
            vstd::arithmetic::div_mod::lemma_small_mod((j - i + ni) as nat, ni as nat);
            vstd::arithmetic::div_mod::lemma_mod_add_multiples_vanish(j, ni);
            vstd::arithmetic::div_mod::lemma_small_mod(j as nat, ni as nat);
        }
    }
    assert(i % ni == i) by (nonlinear_arith)
        requires
            0 <= i < ni,
    ;
    assert(a[last] == w[j]);
    assert(a[0] == w[i]);
    assert(edge_joins(m2.edges@[ce], w[j], w[i]));
    assert(fin.edges@[ce] == m3.edges@.take(m2.edges@.len() as int)[ce]);
    assert(edge_joins(fin.edges@[ce], w[i], w[j]));
}

impl Mesh {
    /// Splits face `f` along the chord between two of its outer-loop
    /// vertices `v1` and `v2`: `f` is removed, and two new faces take its
    /// material and surface, the first bounded by the loop from `v1` round
    /// to `v2`, the second by the loop from `v2` round to `v1`. The chord
    /// becomes a new edge shared by both. Returns the two new faces.
    pub fn split_face(&mut self, f: FaceId, v1: VertId, v2: VertId) -> (r: Result<(FaceId, FaceId), FaceSplitError>)
        requires
            old(self).wf(),
        ensures
            final(self).wf(),
            face_split_done(*old(self), *final(self), f, v1, v2, r),
            r is Ok ==> exists|e: int| 0 <= e < final(self).edges@.len() && #[trigger] edge_joins(final(self).edges@[e], v1, v2),
            r is Ok ==> present_faces(final(self).faces@) == present_faces(old(self).faces@) + 1,
    {
        if f.id as usize >= self.faces.len() || !self.faces[f.id as usize].present {
            return Err(FaceSplitError::Mesh(MeshError::FaceNotFound(f)));
        }
        if self.faces[f.id as usize].inners.len() > 0 {
            return Err(FaceSplitError::HasHoles);
        }
        let st = self.faces[f.id as usize].outer.start;
        let w = match self.collect_loop_verts(st) {
            Ok(w) => w,
            Err(x) => {
                return Err(FaceSplitError::Mesh(x));
            },
        };
        if v1 == v2 {
            return Err(FaceSplitError::SameVertex);
        }
        let i = match first_index(&w, v1) {
            Some(i) => i,
            None => {
                return Err(FaceSplitError::NotOnBoundary(v1));
            },
        };
        let j = match first_index(&w, v2) {
            Some(j) => j,
            None => {
                return Err(FaceSplitError::NotOnBoundary(v2));
            },
        };
        let n = w.len();
        let ghost wv = w@;
        let ni = if i + 1 == n { 0 } else { i + 1 };
        let nj = if j + 1 == n { 0 } else { j + 1 };
        assert(ni as int == (i + 1) % (n as int) && nj as int == (j + 1) % (n as int)) by (nonlinear_arith)
            requires
                ni == (if i + 1 == n { 0 } else { i + 1 }),
                nj == (if j + 1 == n { 0 } else { j + 1 }),
                i < n,
                j < n,
        ;
        if ni == j || nj == i {
            proof {
                assert(first_at(wv, v1, i as int) && first_at(wv, v2, j as int));
            }
            return Err(FaceSplitError::AdjacentVertices);
        }
        let a = arc_vec(&w, i, j);
        let b = arc_vec(&w, j, i);
        proof {
            assert forall|k: int| 0 <= k < n implies 0 <= (#[trigger] wv[k]).ix() < self.verts@.len() by {
                let ln = n as nat;
                lemma_walk_valid(self.hes@, self.verts@.len() as int, self.edges@.len() as int, self.faces@.len() as int, st,
                    ((k + ln - 1) % (ln as int)) as nat);
            }
        }
        match self.check_loop(a.as_slice()) {
            Ok(()) => {},
            Err(_) => {
                proof {
                    assert(first_at(wv, v1, i as int) && first_at(wv, v2, j as int));
                    assert(forall|k: int| 0 <= k < a@.len() ==> self.valid_vert(#[trigger] a@[k]));
                }
                return Err(FaceSplitError::Mesh(MeshError::DegenerateLoop));
            },
        }
        match self.check_loop(b.as_slice()) {
            Ok(()) => {},
            Err(_) => {
                proof {
                    assert(first_at(wv, v1, i as int) && first_at(wv, v2, j as int));
                    assert(forall|k: int| 0 <= k < b@.len() ==> self.valid_vert(#[trigger] b@[k]));
                }
                return Err(FaceSplitError::Mesh(MeshError::DegenerateLoop));
            },
        }
        if self.faces.len() >= 0xffff_fffc || n >= 0xffff_fffd || self.hes.len() >= 0xffff_fffd - n
            || self.edges.len() >= 0xffff_fffd - n {
            proof {
                assert(first_at(wv, v1, i as int) && first_at(wv, v2, j as int));
            }
            return Err(FaceSplitError::Mesh(MeshError::CapacityExceeded));
        }
        assert(a@.len() + b@.len() == n + 2) by (nonlinear_arith)
            requires
                a@.len() == (j - i + n) % (n as int) + 1,
                b@.len() == (i - j + n) % (n as int) + 1,
                i < n,
                j < n,
                i != j,
        ;
        let material = self.faces[f.id as usize].material;
        let sf = self.faces[f.id as usize].surface;
        let ghost m0 = *self;
        let ghost face = m0.faces@[f.ix()];
        let _ = self.remove_face(f);
        let ghost m1 = *self;
        assert(face_removed(m0, m1, f));
        let holes: Vec<Vec<VertId>> = Vec::new();
        assert(hole_views(holes@) =~= Seq::<Seq<VertId>>::empty());
        let fa = match self.add_face_with_holes(a.as_slice(), holes.as_slice(), material) {
            Ok(x) => x,
            Err(_) => {
                proof {
                    assert(!(exists|k: int| 0 <= k < holes@.len() && !loop_input_ok(#[trigger] holes@[k]@, m1.verts@.len() as int)));
                }
                return Err(FaceSplitError::HasHoles);
            },
        };
        let ghost m2 = *self;
        let fb = match self.add_face_with_holes(b.as_slice(), holes.as_slice(), material) {
            Ok(x) => x,
            Err(_) => {
                proof {
                    assert(!(exists|k: int| 0 <= k < holes@.len() && !loop_input_ok(#[trigger] holes@[k]@, m1.verts@.len() as int)));
                }
                return Err(FaceSplitError::HasHoles);
            },
        };
        let ghost m3 = *self;
        let _ = self.set_face_surface(fa, sf);
        let _ = self.set_face_surface(fb, sf);
        proof {
            assert(first_at(wv, v1, i as int) && first_at(wv, v2, j as int));
            assert(face_added(m1, m2, a@, Seq::empty(), face.material, Ok(fa)));
            assert(face_added(m2, m3, b@, Seq::empty(), face.material, Ok(fb)));
            assert(self.faces@ == m3.faces@.update(fa.ix(), Face { surface: face.surface, ..m3.faces@[fa.ix()] }).update(
                fb.ix(),
                Face { surface: face.surface, ..m3.faces@[fb.ix()] },
            ));
            assert(replaced_by_two(m0, *self, f, a@, b@, fa, fb));
            lemma_chord_joins(m2, m3, *self, fa, wv, i as int, j as int, material);
            lemma_present_removed(m0, m1, f);
            lemma_present_added(m1, m2, a@, Seq::empty(), material, fa);
            lemma_present_added(m2, m3, b@, Seq::empty(), material, fb);
            lemma_present_same(self.faces@, m3.faces@);
        }
        Ok((fa, fb))
    }
}

/// Where one end of a line drawn on a face lies on its boundary.
#[derive(Clone, Copy, Debug, PartialEq, Eq, Structural)]
pub enum BoundaryPoint {
    /// It coincides with this vertex.
    ExistingVertex(VertId),
    /// It lies inside this edge, which must be split there.
    OnEdge(EdgeId),
}

/// `new`, `r`, `added` and `cut` are what making a vertex of `bp` gives
/// from `old`: the vertex itself, or the new vertex splitting the edge,
/// with the vertices and edges that this created.
pub open spec fn point_realized(old: Mesh, new: Mesh, bp: BoundaryPoint, r: Result<VertId, MeshError>, added: Seq<VertId>, cut: Seq<EdgeId>) -> bool {
    match bp {
        BoundaryPoint::ExistingVertex(v) => same_mesh(new, old) && r == Ok::<VertId, MeshError>(v) && added == Seq::<VertId>::empty()
            && cut == Seq::<EdgeId>::empty(),
        BoundaryPoint::OnEdge(e) => match r {
            Ok(vp) => split_edge_fits(old, e) && added == seq![vp] && cut.len() == 2 && edge_split(old, new, e, vp, cut[0], cut[1]),
            Err(x) => !split_edge_fits(old, e) && same_mesh(new, old) && added == Seq::<VertId>::empty() && cut == Seq::<EdgeId>::empty()
                && x == if old.edge_alive(e) {
                MeshError::CapacityExceeded
            } else {
                MeshError::EdgeNotFound(e)
            },
        },
    }
}

/// `new` and `r` are what splitting face `f` by a line from `p1` to `p2`
/// gives from `old`: each end is made a vertex (splitting its edge where
/// it lies inside one), then the face is split along the chord between
/// them. The result lists the two new faces, the new vertices, and the
/// new edges: the halves of each split edge, then the chord.
pub open spec fn line_split_done(old: Mesh, new: Mesh, f: FaceId, p1: BoundaryPoint, p2: BoundaryPoint, r: Result<FaceSplitResult, FaceSplitError>) -> bool {
    let st = old.faces@[f.ix()].outer.start;
    if !old.face_present(f) {
        r matches Err(x) && x == FaceSplitError::Mesh(MeshError::FaceNotFound(f)) && new == old
    } else if !loop_closes(old.hes@, st) {
        r matches Err(x) && x == FaceSplitError::Mesh(loop_error(old, st)) && new == old
    } else {
        exists|m1: Mesh, r1: Result<VertId, MeshError>, a1: Seq<VertId>, c1: Seq<EdgeId>|
            #![trigger point_realized(old, m1, p1, r1, a1, c1)]
            point_realized(old, m1, p1, r1, a1, c1) && match r1 {
                Err(x) => r matches Err(y) && y == FaceSplitError::Mesh(x) && new == m1,
                Ok(v1) => exists|m2: Mesh, r2: Result<VertId, MeshError>, a2: Seq<VertId>, c2: Seq<EdgeId>|
                    #![trigger point_realized(m1, m2, p2, r2, a2, c2)]
                    point_realized(m1, m2, p2, r2, a2, c2) && match r2 {
                        Err(x) => r matches Err(y) && y == FaceSplitError::Mesh(x) && new == m2,
                        Ok(v2) => if v1 == v2 {
                            r matches Err(y) && y == FaceSplitError::SameVertex && new == m2
                        } else {
                            exists|rs: Result<(FaceId, FaceId), FaceSplitError>|
                                #![trigger face_split_done(m2, new, f, v1, v2, rs)]
                                face_split_done(m2, new, f, v1, v2, rs) && match rs {
                                    Err(x) => r matches Err(y) && y == x,
                                    Ok((fa, fb)) => r matches Ok(res) && res.new_faces@ == seq![fa, fb]
                                        && res.new_verts@ == a1 + a2 && res.new_edges@ == c1 + c2 + match first_joining(
                                        new.edges@,
                                        v1,
                                        v2,
                                        0,
                                    ) {
                                        Some(c) => seq![c],
                                        None => Seq::<EdgeId>::empty(),
                                    } && res.debug@.len() == 0,
                                }
                        },
                    },
            }
    }
}

/// Makes a vertex of the boundary point `bp`, splitting its edge where it
/// lies inside one.
fn realize_boundary_point(mesh: &mut Mesh, bp: BoundaryPoint) -> (r: (Result<VertId, MeshError>, Vec<VertId>, Vec<EdgeId>))
    requires
        old(mesh).wf(),
    ensures
        final(mesh).wf(),
        point_realized(*old(mesh), *final(mesh), bp, r.0, r.1@, r.2@),
{
    match bp {
        BoundaryPoint::ExistingVertex(v) => {
            let nv: Vec<VertId> = Vec::new();
            let ne: Vec<EdgeId> = Vec::new();
            assert(nv@ =~= Seq::<VertId>::empty());
            assert(ne@ =~= Seq::<EdgeId>::empty());
            assert(same_mesh(*mesh, *old(mesh)));
            assert(point_realized(*old(mesh), *mesh, bp, Ok(v), nv@, ne@));
            (Ok(v), nv, ne)
        },
        BoundaryPoint::OnEdge(e) => {
            let ghost m0 = *mesh;
            match mesh.split_edge(e) {
                Ok((vp, e1, e2)) => {
                    let mut nv: Vec<VertId> = Vec::new();
                    nv.push(vp);
                    let mut ne: Vec<EdgeId> = Vec::new();
                    ne.push(e1);
                    ne.push(e2);
                    assert(nv@ =~= seq![vp]);
                    assert(ne@ =~= seq![e1, e2]);
                    assert(edge_split(m0, *mesh, e, vp, e1, e2));
                    (Ok(vp), nv, ne)
                },
                Err(x) => {
                    let nv: Vec<VertId> = Vec::new();
                    let ne: Vec<EdgeId> = Vec::new();
                    assert(nv@ =~= Seq::<VertId>::empty());
                    assert(ne@ =~= Seq::<EdgeId>::empty());
                    assert(point_realized(m0, *mesh, bp, Err(x), nv@, ne@));
                    (Err(x), nv, ne)
                },
            }
        },
    }
}

/// Splits face `face_id` by a line drawn across it from `start` to `end`,
/// each located on the face's boundary: an end inside an edge splits
/// that edge at a new vertex, and the face is then split along the chord
/// between the two vertices (see `Mesh::split_face`).
pub fn split_face_by_line(mesh: &mut Mesh, face_id: FaceId, start: BoundaryPoint, end: BoundaryPoint) -> (r: Result<FaceSplitResult, FaceSplitError>)
    requires
        old(mesh).wf(),
    ensures
        final(mesh).wf(),
        line_split_done(*old(mesh), *final(mesh), face_id, start, end, r),
        r is Ok ==> present_faces(final(mesh).faces@) == present_faces(old(mesh).faces@) + 1,
{
    if face_id.id as usize >= mesh.faces.len() || !mesh.faces[face_id.id as usize].present {
        return Err(FaceSplitError::Mesh(MeshError::FaceNotFound(face_id)));
    }
    let st = mesh.faces[face_id.id as usize].outer.start;
    match mesh.collect_loop_hes(st) {
        Ok(_) => {},
        Err(x) => {
            return Err(FaceSplitError::Mesh(x));
        },
    }
    let ghost m0 = *mesh;
    let (r1, a1, c1) = realize_boundary_point(mesh, start);
    let ghost m1 = *mesh;
    let v1 = match r1 {
        Ok(v) => v,
        Err(x) => {
            assert(point_realized(m0, m1, start, r1, a1@, c1@));
            return Err(FaceSplitError::Mesh(x));
        },
    };
    let (r2, a2, c2) = realize_boundary_point(mesh, end);
    let ghost m2 = *mesh;
    let v2 = match r2 {
        Ok(v) => v,
        Err(x) => {
            assert(point_realized(m0, m1, start, r1, a1@, c1@));
            assert(point_realized(m1, m2, end, r2, a2@, c2@));
            return Err(FaceSplitError::Mesh(x));
        },
    };
    if v1 == v2 {
        assert(point_realized(m0, m1, start, r1, a1@, c1@));
        assert(point_realized(m1, m2, end, r2, a2@, c2@));
        return Err(FaceSplitError::SameVertex);
    }
    let rs = mesh.split_face(face_id, v1, v2);
    assert(point_realized(m0, m1, start, r1, a1@, c1@));
    assert(point_realized(m1, m2, end, r2, a2@, c2@));
    assert(face_split_done(m2, *mesh, face_id, v1, v2, rs));
    assert(m1.faces@ == m0.faces@);
    assert(m2.faces@ == m1.faces@);
    match rs {
        Ok((fa, fb)) => {
            let mut new_faces: Vec<FaceId> = Vec::new();
            new_faces.push(fa);
            new_faces.push(fb);
            let mut new_verts = a1;
            let mut more_verts = a2;
            new_verts.append(&mut more_verts);
            let mut new_edges = c1;
            let mut more_edges = c2;
            new_edges.append(&mut more_edges);
            let ghost cut = new_edges@;
            let chord = mesh.find_edge(v1, v2);
            proof {
                lemma_first_joining(mesh.edges@, v1, v2, 0, chord);
            }
            match chord {
                Some(c) => {
                    new_edges.push(c);
                },
                None => {},
            }
            assert(new_faces@ =~= seq![fa, fb]);
            assert(new_verts@ =~= a1@ + a2@);
            assert(new_edges@ =~= c1@ + c2@ + match first_joining(mesh.edges@, v1, v2, 0) {
                Some(c) => seq![c],
                None => Seq::<EdgeId>::empty(),
            });
            let res = FaceSplitResult { new_faces, new_verts, new_edges, debug: Vec::new() };
            Ok(res)
        },
        Err(x) => Err(x),
    }
}

} // verus!
