//! The P7 canonical resolver for a container face and the inner faces
//! stacked inside it: inner faces are grouped into edge-connected
//! components, and each component's combined perimeter is walked. The
//! rebuild of the container as a ring with holes is not performed yet, so
//! the resolver ends by reporting what it found.

use vstd::prelude::*;
use crate::ids::{VertId, HeId, EdgeId, FaceId, NULL_RAW};
use crate::text::{dec_text, bool_text, list_text, push_usize, push_bool, push_usize_list};
use vstd::string::StringExecFns;
use crate::mesh::{Mesh, MeshError, HalfEdge, walk, loop_seq, loop_verts, loop_len, loop_closes, is_loop, lemma_loop_len, lemma_walk_valid, lemma_loop_len_bounded};

verus! {


/// Why a component's perimeter could not be walked.
#[derive(Clone, Copy, Debug, PartialEq, Eq, Structural)]
pub enum PerimeterError {
    /// A face of the component is missing or its outer loop does not close.
    FaceLoop(FaceId),
    /// Every outer-loop edge of the component is shared inside it.
    NoBoundary,
    /// The boundary walk reached a vertex with no unused boundary half-edge
    /// leaving it.
    Open,
    /// The boundary walk closed after fewer than three vertices.
    TooShort,
}

/// Another live half-edge on the edge of `h` belongs to a face of `comp`.
pub open spec fn he_internal(m: Mesh, comp: Seq<FaceId>, h: HeId) -> bool {
    exists|j: int|
        0 <= j < m.hes@.len() && j != h.ix() && #[trigger] m.hes@[j].alive && m.hes@[j].edge == m.hes@[h.ix()].edge
            && comp.contains(m.hes@[j].face)
}

/// Position `i` of the outer loop of face `f` of `comp` is a boundary
/// half-edge of the component running from `u` to `v`.
pub open spec fn boundary_step(m: Mesh, comp: Seq<FaceId>, u: VertId, v: VertId, f: FaceId, i: int) -> bool {
    let s = m.faces@[f.ix()].outer.start;
    let n = loop_len(m.hes@, s);
    &&& comp.contains(f)
    &&& m.face_present(f)
    &&& loop_closes(m.hes@, s)
    &&& 0 <= i < n
    &&& !he_internal(m, comp, walk(m.hes@, s, i as nat))
    &&& loop_verts(m.hes@, s, n)[i] == u
    &&& m.hes@[walk(m.hes@, s, i as nat).ix()].dst == v
}

/// Some boundary half-edge of `comp` runs from `u` to `v`.
pub open spec fn is_boundary_pair(m: Mesh, comp: Seq<FaceId>, u: VertId, v: VertId) -> bool {
    exists|f: FaceId, i: int| #[trigger] boundary_step(m, comp, u, v, f, i)
}

/// `vs` is a closed walk along boundary half-edges of `comp`.
pub open spec fn perimeter_ok(m: Mesh, comp: Seq<FaceId>, vs: Seq<VertId>) -> bool {
    &&& vs.len() >= 1
    &&& forall|k: int| 0 <= k < vs.len() ==> #[trigger] is_boundary_pair(m, comp, vs[k], vs[(k + 1) % (vs.len() as int)])
}

/// The boundary pairs among the first `n` positions of the outer loop of
/// face `f`, in loop order: for each half-edge of the loop that is not
/// internal to `comp`, its tail and head.
pub open spec fn face_boundary_pairs(m: Mesh, comp: Seq<FaceId>, f: FaceId, n: nat) -> Seq<(VertId, VertId)>
    decreases n,
{
    if n == 0 {
        Seq::empty()
    } else {
        let p = face_boundary_pairs(m, comp, f, (n - 1) as nat);
        let s = m.faces@[f.ix()].outer.start;
        let h = walk(m.hes@, s, (n - 1) as nat);
        if he_internal(m, comp, h) {
            p
        } else {
            p.push((loop_verts(m.hes@, s, loop_len(m.hes@, s))[n - 1], m.hes@[h.ix()].dst))
        }
    }
}

/// The boundary pairs of the first `c` faces of `comp`, face after face;
/// or, for the first of them that is missing or whose outer loop does not
/// close, `FaceLoop` of it.
pub open spec fn boundary_pairs_upto(m: Mesh, comp: Seq<FaceId>, c: nat) -> Result<Seq<(VertId, VertId)>, PerimeterError>
    decreases c,
{
    if c == 0 {
        Ok(Seq::empty())
    } else {
        match boundary_pairs_upto(m, comp, (c - 1) as nat) {
            Err(x) => Err(x),
            Ok(p) => {
                let f = comp[c - 1];
                let s = m.faces@[f.ix()].outer.start;
                if !m.face_present(f) || !loop_closes(m.hes@, s) {
                    Err(PerimeterError::FaceLoop(f))
                } else {
                    Ok(p + face_boundary_pairs(m, comp, f, loop_len(m.hes@, s)))
                }
            },
        }
    }
}

/// Once a face fails, the failure stands for every longer prefix.
proof fn lemma_pairs_err_stays(m: Mesh, comp: Seq<FaceId>, c: nat, d: nat)
    requires
        c <= d,
        boundary_pairs_upto(m, comp, c) is Err,
    ensures
        boundary_pairs_upto(m, comp, d) == boundary_pairs_upto(m, comp, c),
    decreases d - c,
{
    if c < d {
        lemma_pairs_err_stays(m, comp, c, (d - 1) as nat);
    }
}

/// The first position from `from` on whose pair is unused and leaves `cur`.
pub open spec fn first_unused_from(ps: Seq<(VertId, VertId)>, used: Seq<bool>, cur: VertId, from: nat) -> Option<nat>
    decreases ps.len() - from,
{
    if from >= ps.len() {
        None
    } else if !used[from as int] && ps[from as int].0 == cur {
        Some(from)
    } else {
        first_unused_from(ps, used, cur, from + 1)
    }
}

/// The greedy walk over the pairs `ps` back to `start`: at `cur`, the
/// first unused pair leaving it is taken; the walk fails with `Open` where
/// there is none (or, with `fuel` spent, no pair is left).
pub open spec fn perimeter_walk(
    ps: Seq<(VertId, VertId)>,
    start: VertId,
    used: Seq<bool>,
    out: Seq<VertId>,
    cur: VertId,
    fuel: nat,
) -> Result<Seq<VertId>, PerimeterError>
    decreases fuel,
{
    if cur == start {
        Ok(out)
    } else if fuel == 0 {
        Err(PerimeterError::Open)
    } else {
        match first_unused_from(ps, used, cur, 0) {
            None => Err(PerimeterError::Open),
            Some(j) => perimeter_walk(ps, start, used.update(j as int, true), out.push(ps[j as int].0), ps[j as int].1, (fuel - 1) as nat),
        }
    }
}

/// The combined perimeter of `comp`: the boundary pairs of its faces
/// (see `boundary_pairs_upto`), refused with `NoBoundary` when there are
/// none, walked from the tail of the first.
pub open spec fn perimeter_of(m: Mesh, comp: Seq<FaceId>) -> Result<Seq<VertId>, PerimeterError> {
    match boundary_pairs_upto(m, comp, comp.len()) {
        Err(x) => Err(x),
        Ok(ps) => if ps.len() == 0 {
            Err(PerimeterError::NoBoundary)
        } else {
            match perimeter_walk(
                ps,
                ps[0].0,
                Seq::new(ps.len(), |j: int| j == 0),
                seq![ps[0].0],
                ps[0].1,
                (ps.len() - 1) as nat,
            ) {
                Ok(w) => if w.len() < 3 {
                    Err(PerimeterError::TooShort)
                } else {
                    Ok(w)
                },
                Err(e) => Err(e),
            }
        },
    }
}

/// Two half-edges in different slots, both live and on one edge, belong to
/// `a` and to `b`.
pub open spec fn faces_adjacent(m: Mesh, a: FaceId, b: FaceId) -> bool {
    exists|i: int, j: int|
        0 <= i < m.hes@.len() && 0 <= j < m.hes@.len() && i != j && #[trigger] m.hes@[i].alive
            && #[trigger] m.hes@[j].alive && m.hes@[i].edge == m.hes@[j].edge && m.hes@[i].face == a
            && m.hes@[j].face == b
}

/// Input positions `p` and `q` hold the same face or adjacent faces.
pub open spec fn linked(m: Mesh, inp: Seq<FaceId>, p: int, q: int) -> bool {
    inp[p] == inp[q] || faces_adjacent(m, inp[p], inp[q])
}

pub proof fn lemma_adjacent_symmetric(m: Mesh, a: FaceId, b: FaceId)
    ensures
        faces_adjacent(m, a, b) == faces_adjacent(m, b, a),
{
    if faces_adjacent(m, a, b) {
        let (i, j) = choose|i: int, j: int|
            0 <= i < m.hes@.len() && 0 <= j < m.hes@.len() && i != j && #[trigger] m.hes@[i].alive
                && #[trigger] m.hes@[j].alive && m.hes@[i].edge == m.hes@[j].edge && m.hes@[i].face == a
                && m.hes@[j].face == b;
        assert(m.hes@[j].alive && m.hes@[i].alive);
    }
    if faces_adjacent(m, b, a) {
        let (i, j) = choose|i: int, j: int|
            0 <= i < m.hes@.len() && 0 <= j < m.hes@.len() && i != j && #[trigger] m.hes@[i].alive
                && #[trigger] m.hes@[j].alive && m.hes@[i].edge == m.hes@[j].edge && m.hes@[i].face == b
                && m.hes@[j].face == a;
        assert(m.hes@[j].alive && m.hes@[i].alive);
    }
}

/// Every entry of `queue` after the first holds a position linked to
/// that of some earlier entry.
pub open spec fn queue_chained(m: Mesh, inp: Seq<FaceId>, queue: Seq<usize>) -> bool {
    forall|k: int|
        #![trigger queue[k]]
        0 < k < queue.len() ==> exists|j: int| #![trigger queue[j]] 0 <= j < k && linked(m, inp, queue[j] as int, queue[k] as int)
}

/// Entry `k` of the group `g` is the same face as, or shares an edge
/// with, an entry before it.
pub open spec fn linked_back(m: Mesh, g: Seq<FaceId>, k: int) -> bool {
    exists|j: int| #![trigger g[j]] 0 <= j < k && (g[j] == g[k] || faces_adjacent(m, g[j], g[k]))
}

/// Each group is edge-connected: every face after the first is the same
/// face as, or shares an edge with, one listed before it.
pub open spec fn groups_connected(m: Mesh, comps: Seq<Vec<FaceId>>) -> bool {
    forall|c: int, k: int| 0 <= c < comps.len() && 0 < k < comps[c]@.len() ==> #[trigger] linked_back(m, comps[c]@, k)
}

/// Some group holds `x`.
pub open spec fn in_some_component(comps: Seq<Vec<FaceId>>, x: FaceId) -> bool {
    exists|c: int| 0 <= c < comps.len() && #[trigger] comps[c]@.contains(x)
}

/// The grouping of `inp` into `comps`: every group is non-empty and holds
/// faces of `inp`, every face of `inp` is in a group, and faces in
/// different groups are distinct and share no edge.
pub open spec fn components_ok(m: Mesh, inp: Seq<FaceId>, comps: Seq<Vec<FaceId>>) -> bool {
    &&& forall|c: int| 0 <= c < comps.len() ==> (#[trigger] comps[c])@.len() >= 1
    &&& forall|c: int, k: int| 0 <= c < comps.len() && 0 <= k < comps[c]@.len() ==> inp.contains(#[trigger] comps[c]@[k])
    &&& forall|p: int| 0 <= p < inp.len() ==> #[trigger] in_some_component(comps, inp[p])
    &&& forall|c1: int, c2: int, x: FaceId, y: FaceId|
        #![trigger comps[c1]@.contains(x), comps[c2]@.contains(y)]
        0 <= c1 < comps.len() && 0 <= c2 < comps.len() && c1 != c2 && comps[c1]@.contains(x)
            && comps[c2]@.contains(y) ==> x != y && !faces_adjacent(m, x, y)
}


/// A duplicate-free sequence of numbers below `n` has at most `n` of them.
pub proof fn lemma_nodup_bounded(q: Seq<usize>, n: nat)
    requires
        q.no_duplicates(),
        forall|k: int| 0 <= k < q.len() ==> (#[trigger] q[k]) < n,
    ensures
        q.len() <= n,
{
    let ints = q.map_values(|x: usize| x as int);
    assert forall|a: int, b: int| 0 <= a < ints.len() && 0 <= b < ints.len() && a != b implies ints[a] != ints[b] by {
        assert(q[a] != q[b]);
    }
    ints.unique_seq_to_set();
    let r = vstd::set_lib::set_int_range(0, n as int);
    assert(ints.to_set().subset_of(r));
    vstd::set_lib::lemma_int_range(0, n as int);
    vstd::set_lib::lemma_len_subset(ints.to_set(), r);
}

/// A duplicate-free sequence of integers in `0..n` has at most `n` of them.
pub proof fn lemma_int_nodup_bounded(q: Seq<int>, n: nat)
    requires
        q.no_duplicates(),
        forall|k: int| 0 <= k < q.len() ==> 0 <= #[trigger] q[k] < n,
    ensures
        q.len() <= n,
{
    q.unique_seq_to_set();
    let r = vstd::set_lib::set_int_range(0, n as int);
    assert(q.to_set().subset_of(r));
    vstd::set_lib::lemma_int_range(0, n as int);
    vstd::set_lib::lemma_len_subset(q.to_set(), r);
}

/// The slot value that marks an input position not yet grouped.
pub open spec fn unset() -> usize {
    usize::MAX
}

/// Some position marked `d` holds `x`.
pub open spec fn member_from(inp: Seq<FaceId>, comp_of: Seq<usize>, d: int, x: FaceId) -> bool {
    exists|p: int| 0 <= p < inp.len() && comp_of[p] == d && #[trigger] inp[p] == x
}

/// The grouping state: every position holds `unset()` or the number of
/// a group; grouped positions are in their group; group members come from
/// positions of that group; groups are non-empty; and grouped positions
/// of groups below `closed` are closed under `linked`.
pub open spec fn grouping_ok(m: Mesh, inp: Seq<FaceId>, comp_of: Seq<usize>, comps: Seq<Vec<FaceId>>, closed: int, lim: int) -> bool {
    &&& comp_of.len() == inp.len()
    &&& forall|p: int| 0 <= p < inp.len() ==> (#[trigger] comp_of[p] == unset() || comp_of[p] < lim)
    &&& forall|p: int| 0 <= p < inp.len() && #[trigger] comp_of[p] != unset() && comp_of[p] < comps.len()
        ==> comps[comp_of[p] as int]@.contains(inp[p])
    &&& forall|d: int, k: int| 0 <= d < comps.len() && 0 <= k < comps[d]@.len() ==> member_from(inp, comp_of, d, #[trigger] comps[d]@[k])
    &&& forall|d: int| 0 <= d < comps.len() ==> (#[trigger] comps[d])@.len() >= 1
    &&& forall|p: int, q: int| 0 <= p < inp.len() && 0 <= q < inp.len() && #[trigger] comp_of[p] != unset()
        && comp_of[p] < closed && linked(m, inp, p, q) ==> #[trigger] comp_of[q] == comp_of[p]
}

/// The breadth-first state of group `c`: `queue` holds, once each, the
/// positions marked `c`, and the neighbours of its first `qh` entries are
/// all marked `c`.
pub open spec fn bfs_group_ok(m: Mesh, inp: Seq<FaceId>, comp_of: Seq<usize>, comps: Seq<Vec<FaceId>>, queue: Seq<usize>, qh: int) -> bool {
    let c = comps.len() as int;
    &&& grouping_ok(m, inp, comp_of, comps, c, c + 1)
    &&& c < unset()
    &&& queue.no_duplicates()
    &&& forall|k: int| 0 <= k < queue.len() ==> (#[trigger] queue[k]) < inp.len()
    &&& forall|p: int| 0 <= p < inp.len() ==> (#[trigger] comp_of[p] == c <==> queue.contains(p as usize))
    &&& 0 <= qh <= queue.len()
    &&& forall|k: int, q: int| 0 <= k < qh && 0 <= q < inp.len() && linked(m, inp, #[trigger] queue[k] as int, q)
        ==> #[trigger] comp_of[q] == c
}

impl Mesh {
    /// Marks with `c` every unmarked position linked to position `p`, and
    /// queues it.
    fn group_neighbours(&self, inp: &[FaceId], p: usize, c: usize, comp_of: &mut Vec<usize>, queue: &mut Vec<usize>, comps: Ghost<Seq<Vec<FaceId>>>, qh: Ghost<int>)
        requires
            self.wf(),
            c == comps@.len(),
            bfs_group_ok(*self, inp@, old(comp_of)@, comps@, old(queue)@, qh@),
            0 <= qh@ < old(queue)@.len(),
            p == old(queue)@[qh@],
            queue_chained(*self, inp@, old(queue)@),
        ensures
            bfs_group_ok(*self, inp@, final(comp_of)@, comps@, final(queue)@, qh@ + 1),
            queue_chained(*self, inp@, final(queue)@),
            final(queue)@.len() >= old(queue)@.len(),
            final(queue)@.take(old(queue)@.len() as int) == old(queue)@,
            forall|r: int| 0 <= r < inp@.len() && old(comp_of)@[r] != unset() ==> #[trigger] final(comp_of)@[r] == old(comp_of)@[r],
    {
        let n = inp.len();
        let ghost q0 = queue@;
        let ghost co0 = comp_of@;
        let mut q: usize = 0;
        while q < n
            invariant
                self.wf(),
                n == inp@.len(),
                c == comps@.len(),
                bfs_group_ok(*self, inp@, comp_of@, comps@, queue@, qh@),
                0 <= qh@ < queue@.len(),
                p == queue@[qh@],
                q <= n,
                queue@.len() >= q0.len(),
                queue@.take(q0.len() as int) == q0,
                q0 == old(queue)@,
                co0 == old(comp_of)@,
                forall|r: int| 0 <= r < n && co0[r] != unset() ==> #[trigger] comp_of@[r] == co0[r],
                forall|r: int| 0 <= r < q && linked(*self, inp@, p as int, r) ==> #[trigger] comp_of@[r] == c,
                queue_chained(*self, inp@, queue@),
            decreases n - q,
        {
            proof {
                assert(comp_of@[p as int] == c) by {
                    assert(queue@[qh@] == p);
                    assert(queue@.contains(p));
                }
            }
            if comp_of[q] == usize::MAX {
                let share = inp[p] == inp[q] || self.faces_share_edge(inp[p], inp[q]);
                if share {
                    let ghost cb = comp_of@;
                    let ghost qb = queue@;
                    proof {
                        assert(!qb.contains(q)) by {
                            if qb.contains(q) {
                                assert(cb[q as int] == c);
                            }
                        }
                    }
                    comp_of.set(q, c);
                    queue.push(q);
                    proof {
                        assert(queue@[qh@] == p);
                        assert(linked(*self, inp@, p as int, q as int));
                        assert forall|k: int| #![trigger queue@[k]] 0 < k < queue@.len() implies exists|j: int|
                            #![trigger queue@[j]] 0 <= j < k && linked(*self, inp@, queue@[j] as int, queue@[k] as int) by {
                            if k < qb.len() {
                                assert(qb[k] == queue@[k]);
                                let j = choose|j: int| #![trigger qb[j]] 0 <= j < k && linked(*self, inp@, qb[j] as int, qb[k] as int);
                                assert(queue@[j] == qb[j]);
                                assert(linked(*self, inp@, queue@[j] as int, queue@[k] as int));
                            } else {
                                assert(queue@[qh@] == p);
                                assert(queue@[k] == q);
                                assert(linked(*self, inp@, queue@[qh@] as int, queue@[k] as int));
                            }
                        }
                        self.lemma_bfs_mark(inp@, cb, comp_of@, comps@, qb, queue@, qh@, q);
                        crate::orient::lemma_take_push(qb, q, q0);
                        assert forall|r: int| 0 <= r < q + 1 && linked(*self, inp@, p as int, r) implies #[trigger] comp_of@[r] == c by {
                            if r < q {
                                assert(cb[r] == c);
                            }
                        }
                    }
                }
            } else {
                proof {
                    if linked(*self, inp@, p as int, q as int) {
                        let d = comp_of@[q as int];
                        if d != c {
                            assert(d < c);
                            lemma_adjacent_symmetric(*self, inp@[p as int], inp@[q as int]);
                            assert(linked(*self, inp@, q as int, p as int));
                            assert(comp_of@[p as int] == d);
                        }
                    }
                }
            }
            q += 1;
        }
    }

    /// The breadth-first state survives marking and queueing position `q`.
    proof fn lemma_bfs_mark(&self, inp: Seq<FaceId>, cb: Seq<usize>, co: Seq<usize>, comps: Seq<Vec<FaceId>>, qb: Seq<usize>, qu: Seq<usize>, qh: int, q: usize)
        requires
            bfs_group_ok(*self, inp, cb, comps, qb, qh),
            inp.len() <= usize::MAX,
            q < inp.len(),
            cb[q as int] == unset(),
            !qb.contains(q),
            co == cb.update(q as int, comps.len() as usize),
            qu == qb.push(q),
        ensures
            bfs_group_ok(*self, inp, co, comps, qu, qh),
    {
        let c = comps.len() as int;
        assert forall|a: int, b: int| 0 <= a < qu.len() && 0 <= b < qu.len() && a != b implies qu[a] != qu[b] by {
            if a < qb.len() && b < qb.len() {
                assert(qb[a] != qb[b]);
            } else if a < qb.len() {
                assert(qb.contains(qu[a]));
            } else if b < qb.len() {
                assert(qb.contains(qu[b]));
            }
        }
        assert forall|r: int| 0 <= r < inp.len() implies (#[trigger] co[r] == c <==> qu.contains(r as usize)) by {
            if r == q {
                assert(qu[qb.len() as int] == q);
            } else {
                assert(co[r] == cb[r]);
                if qu.contains(r as usize) {
                    let k = choose|k: int| 0 <= k < qu.len() && qu[k] == r as usize;
                    assert(k < qb.len());
                    assert(qb[k] == r as usize);
                }
                if qb.contains(r as usize) {
                    let k = choose|k: int| 0 <= k < qb.len() && qb[k] == r as usize;
                    assert(qu[k] == r as usize);
                }
            }
        }
        assert forall|k: int, r: int| 0 <= k < qh && 0 <= r < inp.len() && linked(*self, inp, #[trigger] qu[k] as int, r)
            implies #[trigger] co[r] == c by {
            assert(qu[k] == qb[k]);
            assert(cb[r] == c);
        }
        assert forall|d: int, k: int| 0 <= d < comps.len() && 0 <= k < comps[d]@.len() implies member_from(inp, co, d, #[trigger] comps[d]@[k]) by {
            assert(member_from(inp, cb, d, comps[d]@[k]));
            let pp = choose|pp: int| 0 <= pp < inp.len() && cb[pp] == d && #[trigger] inp[pp] == comps[d]@[k];
            assert(pp != q);
            assert(co[pp] == d);
        }
        assert forall|pp: int, r: int| 0 <= pp < inp.len() && 0 <= r < inp.len() && #[trigger] co[pp] != unset()
            && co[pp] < c && linked(*self, inp, pp, r) implies #[trigger] co[r] == co[pp] by {
            assert(pp != q);
            assert(cb[pp] != unset() && cb[pp] < c);
            assert(cb[r] == cb[pp]);
            assert(r != q);
        }
        assert forall|pp: int| 0 <= pp < inp.len() && #[trigger] co[pp] != unset() && co[pp] < comps.len()
            implies comps[co[pp] as int]@.contains(inp[pp]) by {
            assert(pp != q);
        }
        assert forall|pp: int| 0 <= pp < inp.len() implies (#[trigger] co[pp] == unset() || co[pp] < c + 1) by {
            if pp != q as int {
                assert(co[pp] == cb[pp]);
            }
        }
        assert forall|k: int| 0 <= k < qu.len() implies (#[trigger] qu[k]) < inp.len() by {
            if k < qb.len() {
                assert(qu[k] == qb[k]);
            }
        }
        assert(grouping_ok(*self, inp, co, comps, c, c + 1));
    }

    /// Whether the faces `a` and `b` share an edge (see `faces_adjacent`).
    pub fn faces_share_edge(&self, a: FaceId, b: FaceId) -> (r: bool)
        requires
            self.wf(),
        ensures
            r == faces_adjacent(*self, a, b),
    {
        let n = self.hes.len();
        let mut i: usize = 0;
        while i < n
            invariant
                n == self.hes@.len(),
                i <= n,
                forall|i2: int, j2: int|
                    0 <= i2 < i && 0 <= j2 < n && i2 != j2 && #[trigger] self.hes@[i2].alive
                        && #[trigger] self.hes@[j2].alive && self.hes@[i2].edge == self.hes@[j2].edge
                        ==> !(self.hes@[i2].face == a && self.hes@[j2].face == b),
            decreases n - i,
        {
            let hi = self.hes[i];
            if hi.alive && hi.face == a {
                let mut j: usize = 0;
                while j < n
                    invariant
                        n == self.hes@.len(),
                        i < n,
                        j <= n,
                        hi == self.hes@[i as int],
                        hi.alive && hi.face == a,
                        forall|j2: int| 0 <= j2 < j && j2 != i && #[trigger] self.hes@[j2].alive
                            && hi.edge == self.hes@[j2].edge ==> self.hes@[j2].face != b,
                    decreases n - j,
                {
                    let hj = self.hes[j];
                    if j != i && hj.alive && hj.edge == hi.edge && hj.face == b {
                        assert(self.hes@[i as int].alive && self.hes@[j as int].alive);
                        return true;
                    }
                    j += 1;
                }
            }
            i += 1;
        }
        proof {
            if faces_adjacent(*self, a, b) {
                let (i2, j2) = choose|i2: int, j2: int|
                    0 <= i2 < self.hes@.len() && 0 <= j2 < self.hes@.len() && i2 != j2 && #[trigger] self.hes@[i2].alive
                        && #[trigger] self.hes@[j2].alive && self.hes@[i2].edge == self.hes@[j2].edge && self.hes@[i2].face == a
                        && self.hes@[j2].face == b;
                assert(self.hes@[i2].alive && self.hes@[j2].alive);
            }
        }
        false
    }

    /// Groups the faces of `inp` into edge-connected components by a
    /// breadth-first walk over `inp` (two entries are linked when they hold
    /// the same face or faces sharing an edge). Groups come in order of their
    /// first entry; each lists its faces in the order they were reached.
    pub fn find_inner_components(&self, inp: &[FaceId]) -> (comps: Vec<Vec<FaceId>>)
        requires
            self.wf(),
        ensures
            components_ok(*self, inp@, comps@),
            groups_connected(*self, comps@),
            comps@.len() <= inp@.len(),
            inp@.len() >= 1 ==> comps@.len() >= 1,
    {
        let n = inp.len();
        let mut comp_of: Vec<usize> = Vec::new();
        let mut i: usize = 0;
        while i < n
            invariant
                i <= n,
                comp_of@.len() == i,
                forall|p: int| 0 <= p < i ==> #[trigger] comp_of@[p] == unset(),
            decreases n - i,
        {
            comp_of.push(usize::MAX);
            i += 1;
        }
        let mut comps: Vec<Vec<FaceId>> = Vec::new();
        let mut s: usize = 0;
        while s < n
            invariant
                self.wf(),
                n == inp@.len(),
                s <= n,
                comps@.len() <= s,
                grouping_ok(*self, inp@, comp_of@, comps@, comps@.len() as int, comps@.len() as int),
                forall|p: int| 0 <= p < s ==> #[trigger] comp_of@[p] != unset(),
                s >= 1 ==> comps@.len() >= 1,
                groups_connected(*self, comps@),
            decreases n - s,
        {
            if comp_of[s] == usize::MAX {
                let c = comps.len();
                let ghost cb = comp_of@;
                comp_of.set(s, c);
                let mut queue: Vec<usize> = Vec::new();
                queue.push(s);
                proof {
                    assert forall|p: int| 0 <= p < n implies (#[trigger] comp_of@[p] == c <==> queue@.contains(p as usize)) by {
                        if p == s as int {
                            assert(queue@[0] == s);
                        } else {
                            assert(comp_of@[p] == cb[p]);
                            if queue@.contains(p as usize) {
                                let k = choose|k: int| 0 <= k < queue@.len() && queue@[k] == p as usize;
                                assert(k == 0);
                            }
                        }
                    }
                    assert forall|d: int, k: int| 0 <= d < comps@.len() && 0 <= k < comps@[d]@.len() implies member_from(inp@, comp_of@, d, #[trigger] comps@[d]@[k]) by {
                        assert(member_from(inp@, cb, d, comps@[d]@[k]));
                        let pp = choose|pp: int| 0 <= pp < inp@.len() && cb[pp] == d && #[trigger] inp@[pp] == comps@[d]@[k];
                        assert(comp_of@[pp] == d);
                    }
                    assert forall|pp: int, r: int| 0 <= pp < inp@.len() && 0 <= r < inp@.len() && #[trigger] comp_of@[pp] != unset()
                        && comp_of@[pp] < c && linked(*self, inp@, pp, r) implies #[trigger] comp_of@[r] == comp_of@[pp] by {
                        assert(pp != s);
                        assert(cb[r] == cb[pp]);
                        assert(r != s);
                    }
                    assert(bfs_group_ok(*self, inp@, comp_of@, comps@, queue@, 0));
                    assert(queue_chained(*self, inp@, queue@));
                }
                let mut qh: usize = 0;
                while qh < queue.len()
                    invariant
                        self.wf(),
                        n == inp@.len(),
                        c == comps@.len(),
                        s < n,
                        comps@.len() <= s,
                        bfs_group_ok(*self, inp@, comp_of@, comps@, queue@, qh as int),
                        comp_of@[s as int] == c,
                        forall|p: int| 0 <= p < s ==> #[trigger] comp_of@[p] != unset(),
                        queue_chained(*self, inp@, queue@),
                        groups_connected(*self, comps@),
                    decreases n - qh,
                {
                    proof { lemma_nodup_bounded(queue@, n as nat); }
                    let p = queue[qh];
                    self.group_neighbours(inp, p, c, &mut comp_of, &mut queue, Ghost(comps@), Ghost(qh as int));
                    qh += 1;
                }
                let mut group: Vec<FaceId> = Vec::new();
                let nq = queue.len();
                let mut k: usize = 0;
                while k < nq
                    invariant
                        nq == queue@.len(),
                        n == inp@.len(),
                        forall|j: int| 0 <= j < nq ==> (#[trigger] queue@[j]) < n,
                        k <= nq,
                        group@.len() == k,
                        forall|j: int| 0 <= j < k ==> #[trigger] group@[j] == inp@[queue@[j] as int],
                        queue_chained(*self, inp@, queue@),
                        groups_connected(*self, comps@),
                    decreases nq - k,
                {
                    group.push(inp[queue[k]]);
                    k += 1;
                }
                let ghost cs0 = comps@;
                proof {
                    assert(queue@.contains(s)) by { assert(comp_of@[s as int] == c); }
                }
                comps.push(group);
                proof {
                    let g = comps@[c as int];
                    assert(comps@ == cs0.push(g));
                    assert(g@.len() >= 1) by {
                        let k = choose|k: int| 0 <= k < queue@.len() && queue@[k] == s;
                    }
                    assert forall|p: int| 0 <= p < inp@.len() && #[trigger] comp_of@[p] != unset() && comp_of@[p] < comps@.len()
                        implies comps@[comp_of@[p] as int]@.contains(inp@[p]) by {
                        if comp_of@[p] == c {
                            assert(queue@.contains(p as usize));
                            let k = choose|k: int| 0 <= k < queue@.len() && queue@[k] == p as usize;
                            assert(g@[k] == inp@[p]);
                        } else {
                            assert(comps@[comp_of@[p] as int] == cs0[comp_of@[p] as int]);
                        }
                    }
                    assert forall|d: int, k: int| 0 <= d < comps@.len() && 0 <= k < comps@[d]@.len() implies member_from(inp@, comp_of@, d, #[trigger] comps@[d]@[k]) by {
                        if d == c {
                            assert(g@[k] == inp@[queue@[k] as int]);
                            assert(queue@.contains(queue@[k]));
                            assert(comp_of@[queue@[k] as int] == c);
                        } else {
                            assert(comps@[d] == cs0[d]);
                        }
                    }
                    assert forall|d: int| 0 <= d < comps@.len() implies (#[trigger] comps@[d])@.len() >= 1 by {
                        if d < c {
                            assert(comps@[d] == cs0[d]);
                        }
                    }
                    assert forall|pp: int, r: int| 0 <= pp < inp@.len() && 0 <= r < inp@.len() && #[trigger] comp_of@[pp] != unset()
                        && comp_of@[pp] < c + 1 && linked(*self, inp@, pp, r) implies #[trigger] comp_of@[r] == comp_of@[pp] by {
                        if comp_of@[pp] == c {
                            assert(queue@.contains(pp as usize));
                            let k = choose|k: int| 0 <= k < queue@.len() && queue@[k] == pp as usize;
                            assert(queue@[k] as int == pp);
                        }
                    }
                    assert(grouping_ok(*self, inp@, comp_of@, comps@, comps@.len() as int, comps@.len() as int));
                    assert forall|c2: int, k: int| 0 <= c2 < comps@.len() && 0 < k < comps@[c2]@.len() implies #[trigger] linked_back(
                        *self,
                        comps@[c2]@,
                        k,
                    ) by {
                        if c2 < c {
                            assert(comps@[c2] == cs0[c2]);
                            assert(linked_back(*self, cs0[c2]@, k));
                        } else {
                            assert(queue@[k] == queue@[k]);
                            let j = choose|j: int| #![trigger queue@[j]] 0 <= j < k && linked(*self, inp@, queue@[j] as int, queue@[k] as int);
                            assert(g@[j] == inp@[queue@[j] as int]);
                            assert(g@[k] == inp@[queue@[k] as int]);
                            assert(comps@[c2]@[j] == g@[j]);
                        }
                    }
                    assert(groups_connected(*self, comps@));
                }
            }
            s += 1;
        }
        proof {
            let cs = comps@;
            assert forall|c: int, k: int| 0 <= c < cs.len() && 0 <= k < cs[c]@.len() implies inp@.contains(#[trigger] cs[c]@[k]) by {
                assert(member_from(inp@, comp_of@, c, cs[c]@[k]));
            }
            assert forall|p: int| 0 <= p < inp@.len() implies #[trigger] in_some_component(cs, inp@[p]) by {
                assert(comp_of@[p] != unset());
                assert(cs[comp_of@[p] as int]@.contains(inp@[p]));
            }
            assert forall|c1: int, c2: int, x: FaceId, y: FaceId|
                #![trigger cs[c1]@.contains(x), cs[c2]@.contains(y)]
                0 <= c1 < cs.len() && 0 <= c2 < cs.len() && c1 != c2 && cs[c1]@.contains(x)
                    && cs[c2]@.contains(y) implies x != y && !faces_adjacent(*self, x, y) by {
                let k1 = choose|k: int| 0 <= k < cs[c1]@.len() && cs[c1]@[k] == x;
                let k2 = choose|k: int| 0 <= k < cs[c2]@.len() && cs[c2]@[k] == y;
                assert(member_from(inp@, comp_of@, c1, cs[c1]@[k1]));
                assert(member_from(inp@, comp_of@, c2, cs[c2]@[k2]));
                let p = choose|p: int| 0 <= p < inp@.len() && comp_of@[p] == c1 && #[trigger] inp@[p] == x;
                let q = choose|q: int| 0 <= q < inp@.len() && comp_of@[q] == c2 && #[trigger] inp@[q] == y;
                if x == y || faces_adjacent(*self, x, y) {
                    assert(linked(*self, inp@, p, q));
                    assert(comp_of@[q] == comp_of@[p]);
                }
            }
        }
        comps
    }

    /// Whether another live half-edge on the edge of `h` belongs to a face
    /// of `comp`.
    fn is_internal_he(&self, comp: &[FaceId], h: HeId) -> (r: bool)
        requires
            self.wf(),
            self.valid_he(h),
        ensures
            r == he_internal(*self, comp@, h),
    {
        let n = self.hes.len();
        let e = self.hes[h.id as usize].edge;
        let mut j: usize = 0;
        while j < n
            invariant
                n == self.hes@.len(),
                j <= n,
                self.valid_he(h),
                e == self.hes@[h.ix()].edge,
                forall|j2: int| 0 <= j2 < j && j2 != h.ix() && #[trigger] self.hes@[j2].alive && self.hes@[j2].edge == e
                    ==> !comp@.contains(self.hes@[j2].face),
            decreases n - j,
        {
            let hj = self.hes[j];
            if j != h.id as usize && hj.alive && hj.edge == e {
                let mut k: usize = 0;
                while k < comp.len()
                    invariant
                        n == self.hes@.len(),
                        j < n,
                        self.valid_he(h),
                        e == self.hes@[h.ix()].edge,
                        hj == self.hes@[j as int],
                        j != h.ix(),
                        hj.alive,
                        hj.edge == e,
                        k <= comp@.len(),
                        forall|k2: int| 0 <= k2 < k ==> comp@[k2] != hj.face,
                    decreases comp@.len() - k,
                {
                    if comp[k] == hj.face {
                        assert(comp@.contains(self.hes@[j as int].face)) by { assert(comp@[k as int] == hj.face); }
                        return true;
                    }
                    k += 1;
                }
            }
            j += 1;
        }
        false
    }

    /// The boundary half-edges of `comp`'s outer loops, as vertex pairs.
    fn boundary_pairs(&self, comp: &[FaceId]) -> (r: Result<Vec<(VertId, VertId)>, PerimeterError>)
        requires
            self.wf(),
        ensures
            r matches Ok(ps) ==> forall|k: int| 0 <= k < ps@.len() ==> #[trigger] is_boundary_pair(*self, comp@, ps@[k].0, ps@[k].1),
            r matches Err(e) ==> e is FaceLoop,
            match r {
                Ok(ps) => boundary_pairs_upto(*self, comp@, comp@.len()) == Ok::<Seq<(VertId, VertId)>, PerimeterError>(ps@),
                Err(e) => boundary_pairs_upto(*self, comp@, comp@.len()) == Err::<Seq<(VertId, VertId)>, PerimeterError>(e),
            },
    {
        let mut out: Vec<(VertId, VertId)> = Vec::new();
        let nc = comp.len();
        let mut c: usize = 0;
        while c < nc
            invariant
                self.wf(),
                nc == comp@.len(),
                c <= nc,
                forall|k: int| 0 <= k < out@.len() ==> #[trigger] is_boundary_pair(*self, comp@, out@[k].0, out@[k].1),
                boundary_pairs_upto(*self, comp@, c as nat) == Ok::<Seq<(VertId, VertId)>, PerimeterError>(out@),
            decreases nc - c,
        {
            let f = comp[c];
            if f.id as usize >= self.faces.len() || !self.faces[f.id as usize].present {
                proof { lemma_pairs_err_stays(*self, comp@, (c + 1) as nat, nc as nat); }
                return Err(PerimeterError::FaceLoop(f));
            }
            let s = self.faces[f.id as usize].outer.start;
            let hs = match self.collect_loop_hes(s) {
                Ok(h) => h,
                Err(_) => {
                    proof { lemma_pairs_err_stays(*self, comp@, (c + 1) as nat, nc as nat); }
                    return Err(PerimeterError::FaceLoop(f));
                },
            };
            let vs = match self.collect_loop_verts(s) {
                Ok(v) => v,
                Err(_) => {
                    proof { lemma_pairs_err_stays(*self, comp@, (c + 1) as nat, nc as nat); }
                    return Err(PerimeterError::FaceLoop(f));
                },
            };
            let ghost base_out = out@;
            let n = hs.len();
            proof {
                lemma_loop_len(self.hes@, s, n as nat);
                lemma_loop_len(self.hes@, s, vs@.len());
                assert(comp@.contains(f)) by { assert(comp@[c as int] == f); }
            }
            let mut i: usize = 0;
            while i < n
                invariant
                    self.wf(),
                    nc == comp@.len(),
                    c < nc,
                    f == comp@[c as int],
                    comp@.contains(f),
                    self.face_present(f),
                    s == self.faces@[f.ix()].outer.start,
                    self.valid_he(s),
                    is_loop(self.hes@, s, n as nat),
                    loop_len(self.hes@, s) == n,
                    hs@ == loop_seq(self.hes@, s, n as nat),
                    vs@ == loop_verts(self.hes@, s, n as nat),
                    n == hs@.len(),
                    n == vs@.len(),
                    i <= n,
                    forall|k: int| 0 <= k < out@.len() ==> #[trigger] is_boundary_pair(*self, comp@, out@[k].0, out@[k].1),
                    boundary_pairs_upto(*self, comp@, c as nat) == Ok::<Seq<(VertId, VertId)>, PerimeterError>(base_out),
                    out@ == base_out + face_boundary_pairs(*self, comp@, f, i as nat),
                decreases n - i,
            {
                proof {
                    lemma_walk_valid(self.hes@, self.verts@.len() as int, self.edges@.len() as int,
                        self.faces@.len() as int, s, i as nat);
                }
                let h = hs[i];
                if !self.is_internal_he(comp, h) {
                    let u = vs[i];
                    let v = self.hes[h.id as usize].dst;
                    proof {
                        assert(boundary_step(*self, comp@, u, v, f, i as int));
                        assert(is_boundary_pair(*self, comp@, u, v));
                    }
                    out.push((u, v));
                }
                proof {
                    assert(hs@[i as int] == walk(self.hes@, s, i as nat));
                    assert(out@ =~= base_out + face_boundary_pairs(*self, comp@, f, (i + 1) as nat));
                }
                i += 1;
            }
            proof {
                assert(boundary_pairs_upto(*self, comp@, (c + 1) as nat) == Ok::<Seq<(VertId, VertId)>, PerimeterError>(out@));
            }
            c += 1;
        }
        Ok(out)
    }

    /// Walks the combined perimeter of a component: starting from its first
    /// boundary half-edge, repeatedly takes the first unused boundary
    /// half-edge leaving the vertex reached, until it is back at the start.
    /// Returns the vertices passed, in order.
    pub fn compute_combined_perimeter(&self, comp: &[FaceId]) -> (r: Result<Vec<VertId>, PerimeterError>)
        requires
            self.wf(),
        ensures
            r matches Ok(vs) ==> perimeter_ok(*self, comp@, vs@),
            match r {
                Ok(vs) => perimeter_of(*self, comp@) == Ok::<Seq<VertId>, PerimeterError>(vs@),
                Err(e) => perimeter_of(*self, comp@) == Err::<Seq<VertId>, PerimeterError>(e),
            },
    {
        let pairs = self.boundary_pairs(comp)?;
        let np = pairs.len();
        if np == 0 {
            return Err(PerimeterError::NoBoundary);
        }
        let ghost ps = pairs@;
        let mut used: Vec<bool> = Vec::new();
        let mut k: usize = 0;
        while k < np
            invariant
                k <= np,
                used@.len() == k,
                forall|j: int| 0 <= j < k ==> !(#[trigger] used@[j]),
            decreases np - k,
        {
            used.push(false);
            k += 1;
        }
        let start = pairs[0].0;
        let mut out: Vec<VertId> = Vec::new();
        out.push(start);
        used.set(0, true);
        let mut cur = pairs[0].1;
        let ghost mut idx: Seq<int> = seq![0int];
        let ghost goal = perimeter_walk(
            ps,
            ps[0].0,
            Seq::new(ps.len(), |j: int| j == 0),
            seq![ps[0].0],
            ps[0].1,
            (ps.len() - 1) as nat,
        );
        proof {
            assert(used@ =~= Seq::new(ps.len(), |j: int| j == 0));
            assert(out@ =~= seq![ps[0].0]);
        }
        proof {
            assert forall|j: int| 0 <= j < np && #[trigger] used@[j] implies idx.contains(j) by {
                assert(j == 0);
                assert(idx[0] == 0);
            }
        }
        while cur != start
            invariant
                np == pairs@.len(),
                np >= 1,
                used@.len() == np,
                forall|k: int| 0 <= k < np ==> #[trigger] is_boundary_pair(*self, comp@, pairs@[k].0, pairs@[k].1),
                out@.len() >= 1,
                out@.len() == idx.len(),
                out@[0] == start,
                idx.no_duplicates(),
                out@.len() <= np,
                forall|k: int| 0 <= k < idx.len() ==> 0 <= #[trigger] idx[k] < np && used@[idx[k]],
                forall|j: int| 0 <= j < np && #[trigger] used@[j] ==> idx.contains(j),
                forall|k: int| 0 <= k < out@.len() ==> #[trigger] out@[k] == pairs@[idx[k]].0,
                forall|k: int| 0 <= k < out@.len() - 1 ==> #[trigger] pairs@[idx[k]].1 == out@[k + 1],
                cur == pairs@[idx[idx.len() - 1]].1,
                ps == pairs@,
                start == ps[0].0,
                perimeter_of(*self, comp@) == match goal {
                    Ok(w) => if w.len() < 3 {
                        Err(PerimeterError::TooShort)
                    } else {
                        Ok(w)
                    },
                    Err(e) => Err(e),
                },
                goal == perimeter_walk(ps, start, used@, out@, cur, (np - out@.len()) as nat),
            decreases np - out@.len(),
        {
            let mut found: usize = np;
            let mut j: usize = 0;
            while j < np && found == np
                invariant
                    np == pairs@.len(),
                    ps == pairs@,
                    used@.len() == np,
                    j <= np,
                    found == np || (found < np && !used@[found as int] && pairs@[found as int].0 == cur),
                    found == np ==> first_unused_from(ps, used@, cur, 0) == first_unused_from(ps, used@, cur, j as nat),
                    found < np ==> first_unused_from(ps, used@, cur, 0) == Some(found as nat),
                decreases np - j,
            {
                if !used[j] && pairs[j].0 == cur {
                    found = j;
                }
                j += 1;
            }
            if found == np {
                return Err(PerimeterError::Open);
            }
            proof {
                assert(!used@[found as int]);
                assert(!idx.contains(found as int)) by {
                    if idx.contains(found as int) {
                        let k = choose|k: int| 0 <= k < idx.len() && idx[k] == found as int;
                        assert(used@[idx[k]]);
                    }
                }
                let ints = idx;
                assert forall|k: int| 0 <= k < ints.len() implies (#[trigger] ints[k]) < np by {}
                lemma_int_nodup_bounded(idx.push(found as int), np as nat);
            }
            let ghost ib = idx;
            let ghost ob = out@;
            out.push(pairs[found].0);
            used.set(found, true);
            proof {
                idx = idx.push(found as int);
                assert forall|a: int, b: int| 0 <= a < idx.len() && 0 <= b < idx.len() && a != b implies idx[a] != idx[b] by {
                    if a < ib.len() && b < ib.len() {
                        assert(ib[a] != ib[b]);
                    } else if a < ib.len() {
                        assert(ib.contains(idx[a]));
                    } else if b < ib.len() {
                        assert(ib.contains(idx[b]));
                    }
                }
                assert forall|j2: int| 0 <= j2 < np && #[trigger] used@[j2] implies idx.contains(j2) by {
                    if j2 == found as int {
                        assert(idx[idx.len() - 1] == j2);
                    } else {
                        let k = choose|k: int| 0 <= k < ib.len() && ib[k] == j2;
                        assert(idx[k] == j2);
                    }
                }
                assert forall|k: int| 0 <= k < out@.len() - 1 implies #[trigger] pairs@[idx[k]].1 == out@[k + 1] by {
                    if k < ob.len() - 1 {
                        assert(out@[k + 1] == ob[k + 1]);
                    }
                }
            }
            cur = pairs[found].1;
        }
        proof {
            let l = out@.len() as int;
            assert forall|k: int| 0 <= k < l implies #[trigger] is_boundary_pair(*self, comp@, out@[k], out@[(k + 1) % l]) by {
                assert(is_boundary_pair(*self, comp@, pairs@[idx[k]].0, pairs@[idx[k]].1));
                if k < l - 1 {
                    assert((k + 1) % l == k + 1) by (nonlinear_arith) requires 0 <= k < l - 1;
                } else {
                    assert((k + 1) % l == 0) by (nonlinear_arith) requires k == l - 1, l >= 1;
                }
            }
        }
        if out.len() < 3 {
            return Err(PerimeterError::TooShort);
        }
        Ok(out)
    }
}


/// Errors of `enforce_p7_canonical`.
#[derive(Debug, Clone)]
pub enum P7EnforceError {
    /// The container or every inner face is missing or inactive.
    InvalidInput { container_active: bool, inner_count_active: usize, inner_count_total: usize },
    /// No connected component was found among the inner faces.
    NoComponents,
    /// The perimeter of a component could not be walked.
    PerimeterFailed { component_index: usize, reason: String },
    /// Components and perimeters were found; the rebuild of the container
    /// as a ring with holes is not performed yet.
    RebuildDeferred { component_count: usize, hole_loop_lengths: Vec<usize> },
}

/// Invariant counts checked after a rebuild.
#[derive(Clone, Copy, Debug, PartialEq, Eq, Structural)]
pub struct P7ManifoldReport {
    /// Edges with more than two face-bearing half-edges.
    pub nonmanifold_edges: usize,
}

impl P7ManifoldReport {
    /// No invariant is violated.
    pub fn is_valid(&self) -> (b: bool)
        ensures
            b == (self.nonmanifold_edges == 0),
    {
        self.nonmanifold_edges == 0
    }
}

/// Result of a successful rebuild.
#[derive(Clone, Copy, Debug)]
pub struct P7EnforceResult {
    /// Components processed (= hole loops created).
    pub component_count: usize,
    /// Manifold report after the rebuild.
    pub manifold_report: P7ManifoldReport,
}

/// The message of a perimeter failure.
pub open spec fn perimeter_error_text(e: PerimeterError) -> Seq<char> {
    match e {
        PerimeterError::FaceLoop(_) => "face outer loop not closed"@,
        PerimeterError::NoBoundary => "no boundary HE"@,
        PerimeterError::Open => "boundary walk did not close"@,
        PerimeterError::TooShort => "boundary walk closed with fewer than 3 vertices"@,
    }
}

/// The message of an enforce error.
pub open spec fn p7_error_text(e: P7EnforceError) -> Seq<char> {
    match e {
        P7EnforceError::InvalidInput { container_active, inner_count_active, inner_count_total } =>
            "InvalidInput (container_active="@ + bool_text(container_active) + ", inners "@
                + dec_text(inner_count_active as nat) + "/"@ + dec_text(inner_count_total as nat) + " active)"@,
        P7EnforceError::NoComponents => "NoComponents (no inners or all inactive)"@,
        P7EnforceError::PerimeterFailed { component_index, reason } =>
            "PerimeterFailed (component "@ + dec_text(component_index as nat) + ", reason: "@ + reason@ + ")"@,
        P7EnforceError::RebuildDeferred { component_count, hole_loop_lengths } =>
            "RebuildDeferred (β-2 scope — "@ + dec_text(component_count as nat) + " components, hole loops: "@
                + list_text(hole_loop_lengths@) + ")"@,
    }
}

impl PerimeterError {
    /// The message of the error.
    pub fn to_text(&self) -> (s: String)
        ensures
            s@ == perimeter_error_text(*self),
    {
        match self {
            PerimeterError::FaceLoop(_) => String::from_str("face outer loop not closed"),
            PerimeterError::NoBoundary => String::from_str("no boundary HE"),
            PerimeterError::Open => String::from_str("boundary walk did not close"),
            PerimeterError::TooShort => String::from_str("boundary walk closed with fewer than 3 vertices"),
        }
    }
}

impl P7EnforceError {
    /// The message of the error, as the error's display text.
    pub fn to_display_string(&self) -> (s: String)
        ensures
            s@ == p7_error_text(*self),
    {
        match self {
            P7EnforceError::InvalidInput { container_active, inner_count_active, inner_count_total } => {
                let mut s = String::from_str("InvalidInput (container_active=");
                push_bool(&mut s, *container_active);
                s.append(", inners ");
                push_usize(&mut s, *inner_count_active);
                s.append("/");
                push_usize(&mut s, *inner_count_total);
                s.append(" active)");
                s
            },
            P7EnforceError::NoComponents => String::from_str("NoComponents (no inners or all inactive)"),
            P7EnforceError::PerimeterFailed { component_index, reason } => {
                let mut s = String::from_str("PerimeterFailed (component ");
                push_usize(&mut s, *component_index);
                s.append(", reason: ");
                s.append(reason.as_str());
                s.append(")");
                s
            },
            P7EnforceError::RebuildDeferred { component_count, hole_loop_lengths } => {
                let mut s = String::from_str("RebuildDeferred (β-2 scope — ");
                push_usize(&mut s, *component_count);
                s.append(" components, hole loops: ");
                push_usize_list(&mut s, hole_loop_lengths.as_slice());
                s.append(")");
                s
            },
        }
    }
}

/// The number of entries of `inners` among the first `k` that name active
/// faces.
pub open spec fn active_inner_count(m: Mesh, inners: Seq<FaceId>, k: int) -> nat
    decreases k,
{
    if k <= 0 {
        0
    } else {
        active_inner_count(m, inners, k - 1) + if m.face_active(inners[k - 1]) { 1nat } else { 0nat }
    }
}

/// The entries of `inners` among the first `k` that name active faces, in
/// order.
pub open spec fn active_inner_list(m: Mesh, inners: Seq<FaceId>, k: int) -> Seq<FaceId>
    decreases k,
{
    if k <= 0 {
        Seq::empty()
    } else {
        let p = active_inner_list(m, inners, k - 1);
        if m.face_active(inners[k - 1]) {
            p.push(inners[k - 1])
        } else {
            p
        }
    }
}

/// The outcome of walking the perimeters of the groups `comps` in order:
/// `RebuildDeferred` with the group count and each perimeter's length
/// when every walk succeeds, else `PerimeterFailed` at the first group
/// whose walk fails, with that failure's message.
pub open spec fn perimeters_reported(m: Mesh, comps: Seq<Vec<FaceId>>, r: Result<P7EnforceResult, P7EnforceError>) -> bool {
    match r {
        Err(P7EnforceError::RebuildDeferred { component_count, hole_loop_lengths }) => component_count == comps.len()
            && hole_loop_lengths@.len() == comps.len() && forall|i: int|
            0 <= i < comps.len() ==> #[trigger] perimeter_of(m, comps[i]@) is Ok && perimeter_of(m, comps[i]@)->Ok_0.len()
                == hole_loop_lengths@[i],
        Err(P7EnforceError::PerimeterFailed { component_index, reason }) => component_index < comps.len() && (forall|i: int|
            0 <= i < component_index ==> #[trigger] perimeter_of(m, comps[i]@) is Ok) && perimeter_of(m, comps[component_index as int]@) is Err
            && reason@ == perimeter_error_text(perimeter_of(m, comps[component_index as int]@)->Err_0),
        _ => false,
    }
}

/// Enforces the P7 canonical topology on a container face and the inner
/// faces stacked inside it.
///
/// Refuses with `InvalidInput` when the container is missing or inactive
/// or no entry of `inners` names an active face. Otherwise the active
/// inner faces are grouped into edge-connected components
/// (`find_inner_components`) and each component's perimeter is walked
/// (`compute_combined_perimeter`); the first failing walk gives
/// `PerimeterFailed`. The container is not rebuilt yet: the call then ends
/// with `RebuildDeferred`, reporting the component count and the length of
/// each perimeter. The mesh is never changed.
pub fn enforce_p7_canonical(mesh: &mut Mesh, container: FaceId, inners: &[FaceId]) -> (r: Result<P7EnforceResult, P7EnforceError>)
    requires
        old(mesh).wf(),
    ensures
        *final(mesh) == *old(mesh),
        r is Err,
        ({
            let ca = old(mesh).face_active(container);
            let ac = active_inner_count(*old(mesh), inners@, inners@.len() as int);
            &&& (r matches Err(P7EnforceError::InvalidInput { .. })) <==> (!ca || ac == 0)
            &&& r matches Err(P7EnforceError::InvalidInput { container_active, inner_count_active, inner_count_total })
                ==> container_active == ca && inner_count_active == ac && inner_count_total == inners@.len()
            &&& !(r matches Err(P7EnforceError::NoComponents))
            &&& r matches Err(P7EnforceError::PerimeterFailed { component_index, reason })
                ==> component_index < ac
            &&& r matches Err(P7EnforceError::RebuildDeferred { component_count, hole_loop_lengths })
                ==> 1 <= component_count <= ac && hole_loop_lengths@.len() == component_count
                    && forall|i: int| 0 <= i < component_count ==> #[trigger] hole_loop_lengths@[i] >= 3
        }),
        old(mesh).face_active(container) && active_inner_count(*old(mesh), inners@, inners@.len() as int) > 0 ==> exists|
            comps: Seq<Vec<FaceId>>,
        |
            #![trigger components_ok(*old(mesh), active_inner_list(*old(mesh), inners@, inners@.len() as int), comps)]
            components_ok(*old(mesh), active_inner_list(*old(mesh), inners@, inners@.len() as int), comps) && groups_connected(
                *old(mesh),
                comps,
            ) && perimeters_reported(*old(mesh), comps, r),
{
    let container_active = (container.id as usize) < mesh.faces.len() && mesh.faces[container.id as usize].present
        && mesh.faces[container.id as usize].active;
    let n = inners.len();
    let mut active_inners: Vec<FaceId> = Vec::new();
    let mut count: usize = 0;
    let mut k: usize = 0;
    while k < n
        invariant
            mesh.wf(),
            *mesh == *old(mesh),
            n == inners@.len(),
            k <= n,
            count == active_inner_count(*mesh, inners@, k as int),
            count == active_inners@.len(),
            active_inners@ == active_inner_list(*mesh, inners@, k as int),
            count <= k,
        decreases n - k,
    {
        let f = inners[k];
        if (f.id as usize) < mesh.faces.len() && mesh.faces[f.id as usize].present && mesh.faces[f.id as usize].active {
            active_inners.push(f);
            count += 1;
        }
        k += 1;
    }
    if !container_active || count == 0 {
        return Err(P7EnforceError::InvalidInput {
            container_active,
            inner_count_active: count,
            inner_count_total: n,
        });
    }
    let components = mesh.find_inner_components(active_inners.as_slice());
    if components.len() == 0 {
        return Err(P7EnforceError::NoComponents);
    }
    let nc = components.len();
    let mut lengths: Vec<usize> = Vec::new();
    let mut i: usize = 0;
    while i < nc
        invariant
            mesh.wf(),
            *mesh == *old(mesh),
            nc == components@.len(),
            1 <= nc <= count,
            count == active_inner_count(*old(mesh), inners@, inners@.len() as int),
            container_active == old(mesh).face_active(container),
            container_active,
            i <= nc,
            lengths@.len() == i,
            forall|j: int| 0 <= j < i ==> #[trigger] lengths@[j] >= 3,
            components_ok(*old(mesh), active_inner_list(*old(mesh), inners@, inners@.len() as int), components@),
            groups_connected(*old(mesh), components@),
            forall|j: int| 0 <= j < i ==> #[trigger] perimeter_of(*old(mesh), components@[j]@) is Ok
                && perimeter_of(*old(mesh), components@[j]@)->Ok_0.len() == lengths@[j],
        decreases nc - i,
    {
        assert(components[i as int]@ == components@[i as int]@);
        match mesh.compute_combined_perimeter(components[i].as_slice()) {
            Ok(p) => {
                lengths.push(p.len());
            },
            Err(e) => {
                let reason = e.to_text();
                let r = Err(P7EnforceError::PerimeterFailed { component_index: i, reason });
                assert(perimeters_reported(*old(mesh), components@, r));
                return r;
            },
        }
        i += 1;
    }
    let r = Err(P7EnforceError::RebuildDeferred { component_count: nc, hole_loop_lengths: lengths });
    assert(perimeters_reported(*old(mesh), components@, r));
    r
}

} // verus!
