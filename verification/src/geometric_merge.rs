//! Merging two coplanar faces that meet along one collinear stretch of
//! boundary without sharing an edge there: the order in which the merged
//! boundary visits the two loops, and the replacement of the two faces by
//! the merged one.
//!
//! Where the stretch lies, and which of its ends are new points, is found
//! on coordinates by the caller.

use vstd::prelude::*;
use crate::ids::{VertId, FaceId};
use crate::mesh::{Mesh, face_added, hole_views};
use crate::shared_merge::{MergeFacesError, face_removed, face_holes};
use crate::cleanup::wires_pruned;
use crate::erase_resynth::same_mesh;
use crate::face_count::{present_faces, lemma_present_removed, lemma_present_added};

verus! {

/// A point of the merged boundary before repeated points are collapsed.
#[derive(Clone, Copy, Debug, PartialEq, Eq, Structural)]
pub enum MergeSlot {
    /// Vertex `k` of the first face's outer loop.
    First(usize),
    /// Vertex `k` of the second face's outer loop.
    Second(usize),
    /// The end of the overlap nearer the first face's vertex `i1`.
    OverlapStart,
    /// The end of the overlap nearer the first face's vertex `i1 + 1`.
    OverlapEnd,
}

/// The merged boundary where the overlap lies on edge `i1` of the first
/// loop (`n1` vertices) and edge `j2` of the second (`n2`): the first loop
/// up to vertex `i1`, the overlap's start where it is apart from that
/// vertex, the whole second loop from vertex `j2 + 1` round to `j2`, the
/// overlap's end where it is apart from vertex `i1 + 1`, then the rest of
/// the first loop from vertex `i1 + 1` to its last (or, where `i1` is its
/// last vertex, the whole first loop again from vertex `0`).
pub open spec fn merged_slots(n1: nat, n2: nat, i1: nat, j2: nat, start_apart: bool, end_apart: bool) -> Seq<MergeSlot> {
    let head = Seq::new(i1 + 1, |k: int| MergeSlot::First(k as usize));
    let start = if start_apart { seq![MergeSlot::OverlapStart] } else { Seq::empty() };
    let second = Seq::new(n2, |k: int| MergeSlot::Second(((j2 + 1 + k) % (n2 as int)) as usize));
    let end = if end_apart { seq![MergeSlot::OverlapEnd] } else { Seq::empty() };
    let tail = if i1 + 1 < n1 {
        Seq::new((n1 - i1 - 1) as nat, |k: int| MergeSlot::First((i1 + 1 + k) as usize))
    } else {
        Seq::new(n1, |k: int| MergeSlot::First(k as usize))
    };
    head + start + second + end + tail
}

/// The merged boundary of two loops joined along an overlap on edge `i1`
/// of the first and edge `j2` of the second (see `merged_slots`).
pub fn merged_boundary_slots(n1: usize, n2: usize, i1: usize, j2: usize, start_apart: bool, end_apart: bool) -> (r: Vec<
    MergeSlot,
>)
    requires
        i1 < n1,
        j2 < n2,
        n1 + n2 + 2 <= usize::MAX,
    ensures
        r@ == merged_slots(n1 as nat, n2 as nat, i1 as nat, j2 as nat, start_apart, end_apart),
{
    let ghost head = Seq::new((i1 + 1) as nat, |k: int| MergeSlot::First(k as usize));
    let ghost start = if start_apart { seq![MergeSlot::OverlapStart] } else { Seq::<MergeSlot>::empty() };
    let ghost second = Seq::new(n2 as nat, |k: int| MergeSlot::Second(((j2 + 1 + k) % (n2 as int)) as usize));
    let ghost end = if end_apart { seq![MergeSlot::OverlapEnd] } else { Seq::<MergeSlot>::empty() };
    let mut out: Vec<MergeSlot> = Vec::new();
    let mut k: usize = 0;
    while k <= i1
        invariant
            i1 < n1,
            k <= i1 + 1,
            out@ == head.take(k as int),
            head == Seq::new((i1 + 1) as nat, |q: int| MergeSlot::First(q as usize)),
        decreases i1 + 1 - k,
    {
        out.push(MergeSlot::First(k));
        assert(head[k as int] == MergeSlot::First(k));
        assert(out@ =~= head.take(k + 1));
        k += 1;
    }
    assert(head.take(i1 + 1) =~= head);
    if start_apart {
        out.push(MergeSlot::OverlapStart);
    }
    assert(out@ =~= head + start);
    let ghost base = out@;
    let mut idx: usize = if j2 + 1 == n2 { 0 } else { j2 + 1 };
    let mut steps: usize = 0;
    assert(idx as int == (j2 + 1 + 0) % (n2 as int)) by (nonlinear_arith)
        requires
            idx == (if j2 + 1 == n2 { 0 } else { j2 + 1 }),
            j2 < n2,
    ;
    while steps < n2
        invariant
            j2 < n2,
            steps <= n2,
            idx < n2,
            idx as int == (j2 + 1 + steps) % (n2 as int),
            out@ == base + second.take(steps as int),
            second == Seq::new(n2 as nat, |q: int| MergeSlot::Second(((j2 + 1 + q) % (n2 as int)) as usize)),
        decreases n2 - steps,
    {
        out.push(MergeSlot::Second(idx));
        assert(second[steps as int] == MergeSlot::Second(idx));
        assert(out@ =~= base + second.take(steps + 1));
        let nidx = if idx + 1 == n2 { 0 } else { idx + 1 };
        assert(nidx as int == (j2 + 1 + steps + 1) % (n2 as int)) by (nonlinear_arith)
            requires
                idx as int == (j2 + 1 + steps) % (n2 as int),
                nidx == (if idx + 1 == n2 { 0 } else { idx + 1 }),
                idx < n2,
        {
            vstd::arithmetic::div_mod::lemma_add_mod_noop((j2 + 1 + steps) as int, 1, n2 as int);
        }
        idx = nidx;
        steps += 1;
    }
    assert(second.take(n2 as int) =~= second);
    if end_apart {
        out.push(MergeSlot::OverlapEnd);
    }
    assert(out@ =~= head + start + second + end);
    let ghost base2 = out@;
    let from: usize = if i1 + 1 < n1 { i1 + 1 } else { 0 };
    let ghost tail = if i1 + 1 < n1 {
        Seq::new((n1 - i1 - 1) as nat, |k: int| MergeSlot::First((i1 + 1 + k) as usize))
    } else {
        Seq::new(n1 as nat, |k: int| MergeSlot::First(k as usize))
    };
    let mut k: usize = from;
    while k < n1
        invariant
            from <= k <= n1,
            from == (if i1 + 1 < n1 { i1 + 1 } else { 0 }),
            tail.len() == n1 - from,
            forall|q: int| 0 <= q < tail.len() ==> #[trigger] tail[q] == MergeSlot::First((from + q) as usize),
            out@ == base2 + tail.take(k - from),
        decreases n1 - k,
    {
        out.push(MergeSlot::First(k));
        assert(out@ =~= base2 + tail.take(k + 1 - from));
        k += 1;
    }
    assert(tail.take(n1 - from) =~= tail);
    out
}

/// `new` and `r` are what replacing faces `f1` and `f2` by one face bounded
/// by `outer` gives from `old`: `f1` and `f2` are removed; then, where
/// `outer` has three vertices or more, the merged face is added with the
/// material of `f1` and with the holes of both faces, and the dangling
/// wires left are pruned.
pub open spec fn pair_merged(old: Mesh, new: Mesh, f1: FaceId, f2: FaceId, outer: Seq<VertId>, r: Result<FaceId, MergeFacesError>) -> bool {
    let holes = face_holes(old, f1) + face_holes(old, f2);
    let material = old.faces@[f1.ix()].material;
    if f1 == f2 {
        r == Err::<FaceId, MergeFacesError>(MergeFacesError::SameFace) && new == old
    } else if !old.face_present(f1) {
        r == Err::<FaceId, MergeFacesError>(MergeFacesError::FaceNotFound(f1)) && new == old
    } else if !old.face_present(f2) {
        r == Err::<FaceId, MergeFacesError>(MergeFacesError::FaceNotFound(f2)) && new == old
    } else if !old.faces@[f1.ix()].active {
        r == Err::<FaceId, MergeFacesError>(MergeFacesError::FaceInactive(f1)) && new == old
    } else if !old.faces@[f2.ix()].active {
        r == Err::<FaceId, MergeFacesError>(MergeFacesError::FaceInactive(f2)) && new == old
    } else {
        exists|b: Mesh, c: Mesh|
            #![trigger face_removed(old, b, f1), face_removed(b, c, f2)]
            face_removed(old, b, f1) && face_removed(b, c, f2) && if outer.len() < 3 {
                r == Err::<FaceId, MergeFacesError>(MergeFacesError::DegenerateAfterSimplify) && same_mesh(new, c)
            } else {
                exists|d: Mesh, ra: Result<FaceId, crate::mesh::MeshError>|
                    #![trigger face_added(c, d, outer, holes, material, ra)]
                    face_added(c, d, outer, holes, material, ra) && match ra {
                        Ok(f) => r == Ok::<FaceId, MergeFacesError>(f) && exists|ne: nat, nv: nat| wires_pruned(d, new, ne, nv),
                        Err(e) => r == Err::<FaceId, MergeFacesError>(MergeFacesError::Mesh(e)) && same_mesh(new, d),
                    }
            }
    }
}

impl Mesh {
    /// Replaces the coplanar faces `f1` and `f2` by one face bounded by
    /// `outer`, the merged boundary after collinear vertices are dropped:
    /// both faces are removed, then the merged face is added with the
    /// material of `f1` and the holes of both, and the dangling wires left
    /// are pruned. A boundary of fewer than three vertices is refused after
    /// the faces are removed.
    pub fn merge_pair_into(&mut self, f1: FaceId, f2: FaceId, outer: &[VertId]) -> (r: Result<FaceId, MergeFacesError>)
        requires
            old(self).wf(),
        ensures
            final(self).wf(),
            pair_merged(*old(self), *final(self), f1, f2, outer@, r),
            r is Ok ==> present_faces(final(self).faces@) + 1 == present_faces(old(self).faces@),
    {
        if f1 == f2 {
            return Err(MergeFacesError::SameFace);
        }
        if f1.id as usize >= self.faces.len() || !self.faces[f1.id as usize].present {
            return Err(MergeFacesError::FaceNotFound(f1));
        }
        if f2.id as usize >= self.faces.len() || !self.faces[f2.id as usize].present {
            return Err(MergeFacesError::FaceNotFound(f2));
        }
        if !self.faces[f1.id as usize].active {
            return Err(MergeFacesError::FaceInactive(f1));
        }
        if !self.faces[f2.id as usize].active {
            return Err(MergeFacesError::FaceInactive(f2));
        }
        let ghost m0 = *self;
        let mut holes: Vec<Vec<VertId>> = Vec::new();
        self.collect_face_holes(f1, &mut holes);
        self.collect_face_holes(f2, &mut holes);
        proof {
            assert(hole_views(Seq::<Vec<VertId>>::empty()) =~= Seq::<Seq<VertId>>::empty());
            assert(Seq::<Seq<VertId>>::empty() + face_holes(m0, f1) =~= face_holes(m0, f1));
        }
        let material = self.faces[f1.id as usize].material;
        let _ = self.remove_face(f1);
        let ghost b = *self;
        let _ = self.remove_face(f2);
        let ghost c = *self;
        assert(face_removed(m0, b, f1));
        assert(face_removed(b, c, f2));
        if outer.len() < 3 {
            return Err(MergeFacesError::DegenerateAfterSimplify);
        }
        let ra = self.add_face_with_holes(outer, holes.as_slice(), material);
        let ghost d = *self;
        assert(face_added(c, d, outer@, hole_views(holes@), material, ra));
        match ra {
            Ok(nf) => {
                let cleaned = self.cleanup_dangling();
                assert(wires_pruned(d, *self, cleaned.0 as nat, cleaned.1 as nat));
                proof {
                    lemma_present_removed(m0, b, f1);
                    lemma_present_removed(b, c, f2);
                    lemma_present_added(c, d, outer@, hole_views(holes@), material, nf);
                }
                Ok(nf)
            },
            Err(e) => Err(MergeFacesError::Mesh(e)),
        }
    }
}

} // verus!
