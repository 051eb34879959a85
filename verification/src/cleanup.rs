//! Pruning of dangling wires.
//!
//! A wire is a free edge: no live half-edge on it belongs to a present
//! face. A wire dangles when one of its vertices is reached by no other
//! edge end. Removing a dangling wire can leave its neighbour dangling, so
//! pruning repeats until none is left: the edges that stay are the largest
//! set that keeps every face edge and in which no wire dangles.

use vstd::prelude::*;
use crate::ids::{VertId, EdgeId};
use crate::mesh::{Mesh, Edge, HalfEdge, Vertex};

verus! {

/// How many ends of edge `x` lie at `v` (two for a closed edge at `v`).
pub open spec fn ends_at(x: Edge, v: VertId) -> nat {
    (if x.v0 == v { 1nat } else { 0nat }) + (if x.v1 == v { 1nat } else { 0nat })
}

/// The number of edge ends at `v` among the edges of `s` in the first `n` slots.
pub open spec fn degree(edges: Seq<Edge>, s: Set<int>, v: VertId, n: nat) -> nat
    decreases n,
{
    if n == 0 {
        0
    } else {
        degree(edges, s, v, (n - 1) as nat) + if s.contains(n - 1) {
            ends_at(edges[n - 1], v)
        } else {
            0
        }
    }
}

/// The slots of the live edges.
pub open spec fn live_edges(m: Mesh) -> Set<int> {
    Set::new(|i: int| 0 <= i < m.edges@.len() && m.edges@[i].alive)
}

/// No live half-edge on edge `i` belongs to a present face.
pub open spec fn edge_free(m: Mesh, i: int) -> bool {
    forall|h: int|
        0 <= h < m.hes@.len() && (#[trigger] m.hes@[h]).alive && m.hes@[h].edge.ix() == i
            ==> !m.face_present(m.hes@[h].face)
}

/// `s` is a set of live edges of `m` that keeps every face edge, and in
/// which each wire has at least two edge ends at each of its vertices.
pub open spec fn wire_core(m: Mesh, s: Set<int>) -> bool {
    let n = m.edges@.len() as nat;
    &&& s.subset_of(live_edges(m))
    &&& forall|i: int| #[trigger] live_edges(m).contains(i) && !edge_free(m, i) ==> s.contains(i)
    &&& forall|i: int|
        #[trigger] s.contains(i) && edge_free(m, i) ==> {
            &&& degree(m.edges@, s, m.edges@[i].v0, n) >= 2
            &&& degree(m.edges@, s, m.edges@[i].v1, n) >= 2
        }
}

/// Edge slots below `n` live in `a` and dead in `b`.
pub open spec fn edges_cleared(a: Seq<Edge>, b: Seq<Edge>, n: nat) -> nat
    decreases n,
{
    if n == 0 {
        0
    } else {
        edges_cleared(a, b, (n - 1) as nat) + if a[n - 1].alive && !b[n - 1].alive {
            1nat
        } else {
            0nat
        }
    }
}

/// Vertex slots below `n` live in `a` and dead in `b`.
pub open spec fn verts_cleared(a: Seq<Vertex>, b: Seq<Vertex>, n: nat) -> nat
    decreases n,
{
    if n == 0 {
        0
    } else {
        verts_cleared(a, b, (n - 1) as nat) + if a[n - 1].alive && !b[n - 1].alive {
            1nat
        } else {
            0nat
        }
    }
}

/// The edge at slot `e` was live in `a` and is dead in `b`.
pub open spec fn edge_cleared(a: Mesh, b: Mesh, e: int) -> bool {
    a.edges@[e].alive && !b.edges@[e].alive
}

/// `new` is `old` with its dangling wires pruned: its live edges are the
/// largest wire core of `old`; the half-edges on the pruned edges die, and
/// so does each live vertex that had edges and has none left. The counts
/// are those of the pruned edges and vertices.
pub open spec fn wires_pruned(old: Mesh, new: Mesh, n_edges: nat, n_verts: nat) -> bool {
    let ne = old.edges@.len() as nat;
    &&& new.faces@ == old.faces@
    &&& new.edges@.len() == old.edges@.len()
    &&& new.hes@.len() == old.hes@.len()
    &&& new.verts@.len() == old.verts@.len()
    &&& wire_core(old, live_edges(new))
    &&& forall|s: Set<int>| #[trigger] wire_core(old, s) ==> s.subset_of(live_edges(new))
    &&& forall|i: int|
        0 <= i < old.edges@.len() ==> #[trigger] new.edges@[i] == Edge {
            alive: new.edges@[i].alive,
            ..old.edges@[i]
        }
    &&& forall|i: int|
        0 <= i < old.hes@.len() ==> #[trigger] new.hes@[i] == if edge_cleared(old, new, old.hes@[i].edge.ix()) {
            HalfEdge { alive: false, ..old.hes@[i] }
        } else {
            old.hes@[i]
        }
    &&& forall|v: int|
        0 <= v < old.verts@.len() ==> #[trigger] new.verts@[v] == if old.verts@[v].alive
            && degree(old.edges@, live_edges(old), VertId { id: v as u32 }, ne) >= 1
            && degree(old.edges@, live_edges(new), VertId { id: v as u32 }, ne) == 0 {
            Vertex { alive: false }
        } else {
            old.verts@[v]
        }
    &&& n_edges == edges_cleared(old.edges@, new.edges@, ne)
    &&& n_verts == verts_cleared(old.verts@, new.verts@, old.verts@.len() as nat)
}

pub proof fn lemma_degree_subset(edges: Seq<Edge>, a: Set<int>, b: Set<int>, v: VertId, n: nat)
    requires
        a.subset_of(b),
    ensures
        degree(edges, a, v, n) <= degree(edges, b, v, n),
    decreases n,
{
    if n > 0 {
        lemma_degree_subset(edges, a, b, v, (n - 1) as nat);
    }
}

pub proof fn lemma_degree_member(edges: Seq<Edge>, s: Set<int>, v: VertId, n: nat, i: int)
    requires
        0 <= i < n,
        s.contains(i),
    ensures
        degree(edges, s, v, n) >= ends_at(edges[i], v),
    decreases n,
{
    if i < n - 1 {
        lemma_degree_member(edges, s, v, (n - 1) as nat, i);
    }
}

pub proof fn lemma_degree_remove(edges: Seq<Edge>, s: Set<int>, v: VertId, n: nat, i: int)
    requires
        0 <= i < n,
        s.contains(i),
    ensures
        degree(edges, s.remove(i), v, n) + ends_at(edges[i], v) == degree(edges, s, v, n),
    decreases n,
{
    if i < n - 1 {
        lemma_degree_remove(edges, s, v, (n - 1) as nat, i);
    } else {
        lemma_degree_same(edges, s.remove(i), s, v, (n - 1) as nat);
    }
}

/// Sets that agree below `n` give the same degree.
pub proof fn lemma_degree_same(edges: Seq<Edge>, a: Set<int>, b: Set<int>, v: VertId, n: nat)
    requires
        forall|i: int| 0 <= i < n ==> (a.contains(i) <==> b.contains(i)),
    ensures
        degree(edges, a, v, n) == degree(edges, b, v, n),
    decreases n,
{
    if n > 0 {
        lemma_degree_same(edges, a, b, v, (n - 1) as nat);
    }
}

pub proof fn lemma_degree_bound(edges: Seq<Edge>, s: Set<int>, v: VertId, n: nat)
    ensures
        degree(edges, s, v, n) <= 2 * n,
    decreases n,
{
    if n > 0 {
        lemma_degree_bound(edges, s, v, (n - 1) as nat);
    }
}

pub proof fn lemma_edges_cleared_step(a: Seq<Edge>, b: Seq<Edge>, c: Seq<Edge>, n: nat, i: int)
    requires
        0 <= i < n,
        a.len() >= n,
        b.len() >= n,
        c.len() >= n,
        forall|j: int| 0 <= j < n && j != i ==> (#[trigger] c[j]).alive == b[j].alive,
        a[i].alive,
        b[i].alive,
        !c[i].alive,
    ensures
        edges_cleared(a, c, n) == edges_cleared(a, b, n) + 1,
    decreases n,
{
    if i < n - 1 {
        lemma_edges_cleared_step(a, b, c, (n - 1) as nat, i);
    } else {
        lemma_edges_cleared_same(a, b, c, (n - 1) as nat);
    }
}

pub proof fn lemma_edges_cleared_same(a: Seq<Edge>, b: Seq<Edge>, c: Seq<Edge>, n: nat)
    requires
        a.len() >= n,
        b.len() >= n,
        c.len() >= n,
        forall|j: int| 0 <= j < n ==> (#[trigger] c[j]).alive == b[j].alive,
    ensures
        edges_cleared(a, c, n) == edges_cleared(a, b, n),
    decreases n,
{
    if n > 0 {
        lemma_edges_cleared_same(a, b, c, (n - 1) as nat);
    }
}

pub proof fn lemma_edges_cleared_none(a: Seq<Edge>, n: nat)
    ensures
        edges_cleared(a, a, n) == 0,
    decreases n,
{
    if n > 0 {
        lemma_edges_cleared_none(a, (n - 1) as nat);
    }
}

pub proof fn lemma_edges_cleared_bound(a: Seq<Edge>, b: Seq<Edge>, n: nat)
    ensures
        edges_cleared(a, b, n) <= n,
    decreases n,
{
    if n > 0 {
        lemma_edges_cleared_bound(a, b, (n - 1) as nat);
    }
}

pub proof fn lemma_verts_cleared_same(a: Seq<Vertex>, b: Seq<Vertex>, c: Seq<Vertex>, n: nat)
    requires
        a.len() >= n,
        b.len() >= n,
        c.len() >= n,
        forall|j: int| 0 <= j < n ==> (#[trigger] c[j]).alive == b[j].alive,
    ensures
        verts_cleared(a, c, n) == verts_cleared(a, b, n),
    decreases n,
{
    if n > 0 {
        lemma_verts_cleared_same(a, b, c, (n - 1) as nat);
    }
}

pub proof fn lemma_verts_cleared_none(a: Seq<Vertex>, n: nat)
    ensures
        verts_cleared(a, a, n) == 0,
    decreases n,
{
    if n > 0 {
        lemma_verts_cleared_none(a, (n - 1) as nat);
    }
}

/// Edges with the same ends give the same degrees.
pub proof fn lemma_degree_same_ends(a: Seq<Edge>, b: Seq<Edge>, s: Set<int>, v: VertId, n: nat)
    requires
        a.len() >= n,
        b.len() >= n,
        forall|i: int| 0 <= i < n ==> (#[trigger] a[i]).v0 == b[i].v0 && a[i].v1 == b[i].v1,
    ensures
        degree(a, s, v, n) == degree(b, s, v, n),
    decreases n,
{
    if n > 0 {
        lemma_degree_same_ends(a, b, s, v, (n - 1) as nat);
    }
}

/// Pruning the dangling wires of a mesh already pruned changes nothing and
/// counts nothing.
pub proof fn law_cleanup_idempotent(m0: Mesh, m1: Mesh, m2: Mesh, e1: nat, v1: nat, e2: nat, v2: nat)
    requires
        wires_pruned(m0, m1, e1, v1),
        wires_pruned(m1, m2, e2, v2),
    ensures
        e2 == 0,
        v2 == 0,
        m2.verts@ == m1.verts@,
        m2.edges@ == m1.edges@,
        m2.hes@ == m1.hes@,
        m2.faces@ == m1.faces@,
{
    let n = m0.edges@.len() as nat;
    let l1 = live_edges(m1);
    let l2 = live_edges(m2);
    assert forall|i: int| 0 <= i < n implies (#[trigger] m1.edges@[i]).v0 == m0.edges@[i].v0
        && m1.edges@[i].v1 == m0.edges@[i].v1 by {
        assert(m1.edges@[i] == (Edge { alive: m1.edges@[i].alive, ..m0.edges@[i] }));
    }
    assert forall|i: int| #[trigger] l1.contains(i) && edge_free(m1, i) implies {
        &&& degree(m1.edges@, l1, m1.edges@[i].v0, n) >= 2
        &&& degree(m1.edges@, l1, m1.edges@[i].v1, n) >= 2
    } by {
        if !edge_free(m0, i) {
            let h = choose|h: int| !(0 <= h < m0.hes@.len() && (#[trigger] m0.hes@[h]).alive
                && m0.hes@[h].edge.ix() == i ==> !m0.face_present(m0.hes@[h].face));
            assert(!edge_cleared(m0, m1, i));
            assert(m1.hes@[h] == m0.hes@[h]);
            assert(!edge_free(m1, i));
        }
        lemma_degree_same_ends(m1.edges@, m0.edges@, l1, m1.edges@[i].v0, n);
        lemma_degree_same_ends(m1.edges@, m0.edges@, l1, m1.edges@[i].v1, n);
    }
    assert(wire_core(m1, l1));
    assert(l1.subset_of(l2));
    assert(l2 =~= l1);
    assert forall|i: int| 0 <= i < n implies #[trigger] m2.edges@[i] == m1.edges@[i] by {
        assert(l1.contains(i) == m1.edges@[i].alive);
        assert(l2.contains(i) == m2.edges@[i].alive);
    }
    assert(m2.edges@ =~= m1.edges@);
    assert forall|i: int| 0 <= i < m1.hes@.len() implies #[trigger] m2.hes@[i] == m1.hes@[i] by {
        assert(!edge_cleared(m1, m2, m1.hes@[i].edge.ix()));
    }
    assert(m2.hes@ =~= m1.hes@);
    assert forall|v: int| 0 <= v < m1.verts@.len() implies #[trigger] m2.verts@[v] == m1.verts@[v] by {}
    assert(m2.verts@ =~= m1.verts@);
    lemma_edges_cleared_none(m1.edges@, n);
    lemma_verts_cleared_none(m1.verts@, m1.verts@.len() as nat);
}

impl Mesh {
    /// For each edge slot, whether a live half-edge on it belongs to a
    /// present face.
    fn face_bound_edges(&self) -> (b: Vec<bool>)
        requires
            self.wf(),
        ensures
            b@.len() == self.edges@.len(),
            forall|i: int| 0 <= i < self.edges@.len() ==> (b@[i] <==> !edge_free(*self, i)),
    {
        let ne = self.edges.len();
        let mut b: Vec<bool> = Vec::new();
        let mut i: usize = 0;
        while i < ne
            invariant
                ne == self.edges@.len(),
                i <= ne,
                b@.len() == i,
                forall|j: int| 0 <= j < i ==> !b@[j],
            decreases ne - i,
        {
            b.push(false);
            i += 1;
        }
        let nh = self.hes.len();
        let mut h: usize = 0;
        while h < nh
            invariant
                self.wf(),
                nh == self.hes@.len(),
                ne == self.edges@.len(),
                b@.len() == ne,
                h <= nh,
                forall|j: int|
                    0 <= j < ne ==> (b@[j] <==> exists|k: int|
                        0 <= k < h && (#[trigger] self.hes@[k]).alive && self.hes@[k].edge.ix() == j
                            && self.face_present(self.hes@[k].face)),
            decreases nh - h,
        {
            let x = self.hes[h];
            if x.alive && (x.face.id as usize) < self.faces.len() && self.faces[x.face.id as usize].present {
                let ghost b0 = b@;
                b.set(x.edge.id as usize, true);
                proof {
                    assert forall|j: int| 0 <= j < ne implies (b@[j] <==> exists|k: int|
                        0 <= k < h + 1 && (#[trigger] self.hes@[k]).alive && self.hes@[k].edge.ix() == j
                            && self.face_present(self.hes@[k].face)) by {
                        if j == x.edge.ix() {
                            assert(self.hes@[h as int] == x);
                        } else {
                            if exists|k: int| 0 <= k < h + 1 && (#[trigger] self.hes@[k]).alive && self.hes@[k].edge.ix() == j
                                && self.face_present(self.hes@[k].face) {
                                let k = choose|k: int| 0 <= k < h + 1 && (#[trigger] self.hes@[k]).alive
                                    && self.hes@[k].edge.ix() == j && self.face_present(self.hes@[k].face);
                                assert(k != h);
                            }
                        }
                    }
                }
            } else {
                proof {
                    assert forall|j: int| 0 <= j < ne implies (b@[j] <==> exists|k: int|
                        0 <= k < h + 1 && (#[trigger] self.hes@[k]).alive && self.hes@[k].edge.ix() == j
                            && self.face_present(self.hes@[k].face)) by {
                        if exists|k: int| 0 <= k < h + 1 && (#[trigger] self.hes@[k]).alive && self.hes@[k].edge.ix() == j
                            && self.face_present(self.hes@[k].face) {
                            let k = choose|k: int| 0 <= k < h + 1 && (#[trigger] self.hes@[k]).alive
                                && self.hes@[k].edge.ix() == j && self.face_present(self.hes@[k].face);
                            assert(k != h);
                        }
                    }
                }
            }
            h += 1;
        }
        proof {
            assert forall|i: int| 0 <= i < ne implies (b@[i] <==> !edge_free(*self, i)) by {
                if !edge_free(*self, i) {
                    let k = choose|k: int| !(0 <= k < self.hes@.len() && (#[trigger] self.hes@[k]).alive
                        && self.hes@[k].edge.ix() == i ==> !self.face_present(self.hes@[k].face));
                    assert(0 <= k < nh && self.hes@[k].alive && self.hes@[k].edge.ix() == i
                        && self.face_present(self.hes@[k].face));
                }
            }
        }
        b
    }

    /// The number of live edge ends at each vertex.
    fn live_degrees(&self) -> (d: Vec<u64>)
        requires
            self.wf(),
        ensures
            d@.len() == self.verts@.len(),
            forall|v: int|
                0 <= v < self.verts@.len() ==> #[trigger] d@[v] == degree(
                    self.edges@,
                    live_edges(*self),
                    VertId { id: v as u32 },
                    self.edges@.len() as nat,
                ),
    {
        let nv = self.verts.len();
        let ne = self.edges.len();
        let mut d: Vec<u64> = Vec::new();
        let mut v: usize = 0;
        while v < nv
            invariant
                nv == self.verts@.len(),
                v <= nv,
                d@.len() == v,
                forall|w: int| 0 <= w < v ==> d@[w] == 0,
            decreases nv - v,
        {
            d.push(0);
            v += 1;
        }
        let mut i: usize = 0;
        while i < ne
            invariant
                self.wf(),
                nv == self.verts@.len(),
                ne == self.edges@.len(),
                d@.len() == nv,
                i <= ne,
                forall|w: int|
                    0 <= w < nv ==> #[trigger] d@[w] == degree(
                        self.edges@,
                        live_edges(*self),
                        VertId { id: w as u32 },
                        i as nat,
                    ),
            decreases ne - i,
        {
            let x = self.edges[i];
            proof {
                assert forall|w: int| 0 <= w < nv implies #[trigger] d@[w] <= 2 * i by {
                    lemma_degree_bound(self.edges@, live_edges(*self), VertId { id: w as u32 }, i as nat);
                }
            }
            if x.alive {
                let a = x.v0.id as usize;
                let b = x.v1.id as usize;
                let ghost d0 = d@;
                d.set(a, d[a] + 1);
                d.set(b, d[b] + 1);
                proof {
                    assert forall|w: int| 0 <= w < nv implies #[trigger] d@[w] == degree(
                        self.edges@,
                        live_edges(*self),
                        VertId { id: w as u32 },
                        (i + 1) as nat,
                    ) by {
                        assert(live_edges(*self).contains(i as int));
                        assert(self.edges@[i as int] == x);
                        let vw = VertId { id: w as u32 };
                        assert((x.v0 == vw) == (a == w));
                        assert((x.v1 == vw) == (b == w));
                    }
                }
            } else {
                proof {
                    assert forall|w: int| 0 <= w < nv implies #[trigger] d@[w] == degree(
                        self.edges@,
                        live_edges(*self),
                        VertId { id: w as u32 },
                        (i + 1) as nat,
                    ) by {
                        assert(!live_edges(*self).contains(i as int));
                    }
                }
            }
            i += 1;
        }
        d
    }

    /// Prunes the dangling wires, repeatedly, until none is left, then
    /// removes each live vertex that had edges and has none left. Returns
    /// the numbers of edges and of vertices removed.
    pub fn cleanup_dangling(&mut self) -> (r: (usize, usize))
        requires
            old(self).wf(),
        ensures
            final(self).wf(),
            wires_pruned(*old(self), *final(self), r.0 as nat, r.1 as nat),
    {
        let ghost m0 = *self;
        let ne = self.edges.len();
        let nv = self.verts.len();
        let bound = self.face_bound_edges();
        let deg0 = self.live_degrees();
        let mut deg = self.live_degrees();
        let mut removed: usize = 0;
        let mut go = true;
        proof {
            lemma_edges_cleared_same(m0.edges@, m0.edges@, self.edges@, ne as nat);
            assert(edges_cleared(m0.edges@, m0.edges@, ne as nat) == 0) by {
                lemma_edges_cleared_none(m0.edges@, ne as nat);
            }
        }
        while go
            invariant
                self.wf(),
                m0.wf(),
                ne == m0.edges@.len(),
                nv == m0.verts@.len(),
                self.faces@ == m0.faces@,
                self.verts@ == m0.verts@,
                self.edges@.len() == ne,
                self.hes@.len() == m0.hes@.len(),
                bound@.len() == ne,
                forall|i: int| 0 <= i < ne ==> (bound@[i] <==> !edge_free(m0, i)),
                deg@.len() == nv,
                forall|v: int|
                    0 <= v < nv ==> #[trigger] deg@[v] == degree(
                        m0.edges@,
                        live_edges(*self),
                        VertId { id: v as u32 },
                        ne as nat,
                    ),
                forall|i: int|
                    0 <= i < ne ==> #[trigger] self.edges@[i] == (Edge { alive: self.edges@[i].alive, ..m0.edges@[i] }),
                forall|i: int|
                    0 <= i < m0.hes@.len() ==> #[trigger] self.hes@[i] == if edge_cleared(
                        m0,
                        *self,
                        m0.hes@[i].edge.ix(),
                    ) {
                        HalfEdge { alive: false, ..m0.hes@[i] }
                    } else {
                        m0.hes@[i]
                    },
                live_edges(*self).subset_of(live_edges(m0)),
                forall|i: int| #[trigger] live_edges(m0).contains(i) && !edge_free(m0, i) ==> live_edges(*self).contains(i),
                forall|s: Set<int>| #[trigger] wire_core(m0, s) ==> s.subset_of(live_edges(*self)),
                removed == edges_cleared(m0.edges@, self.edges@, ne as nat),
                removed <= ne,
                !go ==> forall|i: int|
                    #[trigger] live_edges(*self).contains(i) && edge_free(m0, i) ==> {
                        &&& deg@[m0.edges@[i].v0.ix()] >= 2
                        &&& deg@[m0.edges@[i].v1.ix()] >= 2
                    },
            decreases ne - removed + if go { 1int } else { 0int },
        {
            let ghost start_removed = removed;
            let mut changed = false;
            let mut i: usize = 0;
            while i < ne
                invariant
                    self.wf(),
                    m0.wf(),
                    ne == m0.edges@.len(),
                    nv == m0.verts@.len(),
                    self.faces@ == m0.faces@,
                    self.verts@ == m0.verts@,
                    self.edges@.len() == ne,
                    self.hes@.len() == m0.hes@.len(),
                    bound@.len() == ne,
                    forall|j: int| 0 <= j < ne ==> (bound@[j] <==> !edge_free(m0, j)),
                    deg@.len() == nv,
                    forall|v: int|
                        0 <= v < nv ==> #[trigger] deg@[v] == degree(
                            m0.edges@,
                            live_edges(*self),
                            VertId { id: v as u32 },
                            ne as nat,
                        ),
                    forall|j: int|
                        0 <= j < ne ==> #[trigger] self.edges@[j] == (Edge { alive: self.edges@[j].alive, ..m0.edges@[j] }),
                    forall|j: int|
                        0 <= j < m0.hes@.len() ==> #[trigger] self.hes@[j] == if edge_cleared(
                            m0,
                            *self,
                            m0.hes@[j].edge.ix(),
                        ) {
                            HalfEdge { alive: false, ..m0.hes@[j] }
                        } else {
                            m0.hes@[j]
                        },
                    live_edges(*self).subset_of(live_edges(m0)),
                    forall|j: int| #[trigger] live_edges(m0).contains(j) && !edge_free(m0, j) ==> live_edges(*self).contains(j),
                    forall|s: Set<int>| #[trigger] wire_core(m0, s) ==> s.subset_of(live_edges(*self)),
                    removed == edges_cleared(m0.edges@, self.edges@, ne as nat),
                    removed <= ne,
                    i <= ne,
                    changed ==> removed > start_removed,
                    !changed ==> removed == start_removed,
                    !changed ==> forall|j: int|
                        0 <= j < i && #[trigger] live_edges(*self).contains(j) && edge_free(m0, j) ==> {
                            &&& deg@[m0.edges@[j].v0.ix()] >= 2
                            &&& deg@[m0.edges@[j].v1.ix()] >= 2
                        },
                decreases ne - i,
            {
                let x = self.edges[i];
                if x.alive && !bound[i] {
                    let a = x.v0.id as usize;
                    let b = x.v1.id as usize;
                    if deg[a] <= 1 || deg[b] <= 1 {
                        let ghost cur = *self;
                        let ghost live0 = live_edges(cur);
                        proof {
                            assert(self.edges@[i as int] == x);
                            assert(live0.contains(i as int));
                            assert(x.v0 == m0.edges@[i as int].v0 && x.v1 == m0.edges@[i as int].v1);
                            assert(VertId { id: a as u32 } == x.v0);
                            assert(VertId { id: b as u32 } == x.v1);
                            assert forall|s: Set<int>| #[trigger] wire_core(m0, s) implies s.subset_of(live0.remove(i as int)) by {
                                if s.contains(i as int) {
                                    lemma_degree_subset(m0.edges@, s, live0, x.v0, ne as nat);
                                    lemma_degree_subset(m0.edges@, s, live0, x.v1, ne as nat);
                                }
                            }
                            lemma_degree_member(m0.edges@, live0, x.v0, ne as nat, i as int);
                            lemma_degree_member(m0.edges@, live0, x.v1, ne as nat, i as int);
                        }
                        let _ = self.remove_edge_and_halfedges(EdgeId { id: i as u32 });
                        proof {
                            assert(live_edges(*self) =~= live0.remove(i as int));
                            lemma_edges_cleared_step(m0.edges@, cur.edges@, self.edges@, ne as nat, i as int);
                            lemma_edges_cleared_bound(m0.edges@, self.edges@, ne as nat);
                            assert forall|v: int| 0 <= v < nv implies degree(
                                m0.edges@,
                                live_edges(*self),
                                VertId { id: v as u32 },
                                ne as nat,
                            ) + ends_at(m0.edges@[i as int], VertId { id: v as u32 }) == #[trigger] deg@[v] by {
                                lemma_degree_remove(m0.edges@, live0, VertId { id: v as u32 }, ne as nat, i as int);
                            }
                        }
                        let ghost dg = deg@;
                        deg.set(a, deg[a] - 1);
                        deg.set(b, deg[b] - 1);
                        removed += 1;
                        changed = true;
                        proof {
                            assert forall|v: int| 0 <= v < nv implies #[trigger] deg@[v] == degree(
                                m0.edges@,
                                live_edges(*self),
                                VertId { id: v as u32 },
                                ne as nat,
                            ) by {
                                let vw = VertId { id: v as u32 };
                                assert((x.v0 == vw) == (a == v));
                                assert((x.v1 == vw) == (b == v));
                                assert(dg[v] == degree(m0.edges@, live_edges(*self), vw, ne as nat)
                                    + ends_at(m0.edges@[i as int], vw));
                            }
                            assert forall|j: int| 0 <= j < ne implies #[trigger] self.edges@[j] == Edge {
                                alive: self.edges@[j].alive,
                                ..m0.edges@[j]
                            } by {
                                assert(cur.edges@[j] == Edge { alive: cur.edges@[j].alive, ..m0.edges@[j] });
                            }
                            assert forall|j: int| 0 <= j < m0.hes@.len() implies #[trigger] self.hes@[j] == if edge_cleared(
                                m0,
                                *self,
                                m0.hes@[j].edge.ix(),
                            ) {
                                HalfEdge { alive: false, ..m0.hes@[j] }
                            } else {
                                m0.hes@[j]
                            } by {
                                let q = m0.hes@[j].edge.ix();
                                assert(cur.hes@[j].edge == m0.hes@[j].edge);
                                assert(0 <= q < ne);
                                assert((m0.hes@[j].edge == EdgeId { id: i as u32 }) == (q == i));
                                if q != i {
                                    assert(self.edges@[q] == cur.edges@[q]);
                                }
                            }
                        }
                    }
                }
                i += 1;
            }
            go = changed;
        }
        let ghost mp = *self;
        let mut vr: usize = 0;
        let mut v: usize = 0;
        while v < nv
            invariant
                self.wf(),
                m0.wf(),
                self.edges@ == mp.edges@,
                self.hes@ == mp.hes@,
                self.faces@ == mp.faces@,
                ne == m0.edges@.len(),
                nv == m0.verts@.len(),
                self.verts@.len() == nv,
                deg0@.len() == nv,
                deg@.len() == nv,
                forall|w: int|
                    0 <= w < nv ==> #[trigger] deg0@[w] == degree(
                        m0.edges@,
                        live_edges(m0),
                        VertId { id: w as u32 },
                        ne as nat,
                    ),
                forall|w: int|
                    0 <= w < nv ==> #[trigger] deg@[w] == degree(
                        m0.edges@,
                        live_edges(*self),
                        VertId { id: w as u32 },
                        ne as nat,
                    ),
                v <= nv,
                vr <= v,
                forall|w: int|
                    0 <= w < nv ==> #[trigger] self.verts@[w] == if w < v && m0.verts@[w].alive && deg0@[w] >= 1
                        && deg@[w] == 0 {
                        Vertex { alive: false }
                    } else {
                        m0.verts@[w]
                    },
                vr == verts_cleared(m0.verts@, self.verts@, v as nat),
            decreases nv - v,
        {
            let ghost vb = self.verts@;
            if self.verts[v].alive && deg0[v] >= 1 && deg[v] == 0 {
                self.verts.set(v, Vertex { alive: false });
                vr += 1;
            }
            proof {
                lemma_verts_cleared_same(m0.verts@, vb, self.verts@, v as nat);
            }
            v += 1;
        }
        proof {
            lemma_verts_cleared_same(m0.verts@, self.verts@, self.verts@, nv as nat);
            assert(live_edges(*self) =~= live_edges(mp));
            assert forall|i: int| #[trigger] live_edges(*self).contains(i) && edge_free(m0, i) implies {
                &&& degree(m0.edges@, live_edges(*self), m0.edges@[i].v0, ne as nat) >= 2
                &&& degree(m0.edges@, live_edges(*self), m0.edges@[i].v1, ne as nat) >= 2
            } by {
                let v0 = m0.edges@[i].v0;
                let v1 = m0.edges@[i].v1;
                assert(VertId { id: v0.ix() as u32 } == v0);
                assert(VertId { id: v1.ix() as u32 } == v1);
                assert(live_edges(mp).contains(i));
                assert(deg@[v0.ix()] >= 2);
                assert(deg@[v1.ix()] >= 2);
            }
        }
        (removed, vr)
    }
}

} // verus!