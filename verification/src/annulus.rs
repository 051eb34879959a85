//! Circle faces: promoting an inner circle to a hole of an outer one
//! (annulus), splitting a circle face by an inner circle (ring + disk),
//! and telling which of two circle faces contains the other.
//!
//! A circle face is bounded by a single self-loop edge carrying a circle.
//! How two circles lie relative to each other (coplanarity, containment)
//! is decided from their centres, radii and normals by the caller and
//! handed in as a `CircleRelation`.

use vstd::prelude::*;
use crate::ids::{HeId, FaceId, NULL_RAW};
use crate::mesh::{
    Mesh, MeshError, HalfEdge, LoopRef, CurveKind, Face, loop_seq, is_loop, loop_len, lemma_loop_len,
    loop_closes, face_wf, radial_next_ix, walk,
};

verus! {

/// Which face a validation failure is about.
#[derive(Clone, Copy, Debug, PartialEq, Eq, Structural)]
pub enum FaceRole {
    Outer,
    Inner,
}

/// How a first circle lies relative to a second one.
#[derive(Clone, Copy, Debug, PartialEq, Eq, Structural)]
pub enum CircleRelation {
    /// Not on one plane (normals not parallel, or planes apart).
    NotCoplanar,
    /// Coplanar, and the first circle contains the second.
    FirstContainsSecond,
    /// Coplanar, the first does not contain the second, and the second
    /// contains the first.
    SecondContainsFirst,
    /// Coplanar, and neither contains the other.
    Neither,
}

/// Why an annulus promotion or ring split was refused.
#[derive(Clone, Copy, Debug, PartialEq, Eq, Structural)]
pub enum AnnulusError {
    /// The face is not in storage, or inactive.
    InactiveFace { face_id: u32, role: FaceRole },
    /// The face is not bounded by a single self-loop circle edge.
    NotCircleFace { face_id: u32, role: FaceRole },
    /// The two circles are not coplanar.
    NotCoplanar,
    /// The inner circle is not contained in the outer one.
    InnerNotContained,
}

/// The face is bounded by exactly one half-edge, looping to itself, whose
/// live edge carries a circle.
pub open spec fn is_circle_face(m: Mesh, f: FaceId) -> bool {
    let s = m.faces@[f.ix()].outer.start;
    &&& m.face_present(f)
    &&& m.valid_he(s)
    &&& loop_closes(m.hes@, s)
    &&& loop_len(m.hes@, s) == 1
    &&& m.edge_alive(m.hes@[s.ix()].edge)
    &&& m.edges@[m.hes@[s.ix()].edge.ix()].curve == Some(CurveKind::Circle)
}

/// The validations shared by annulus promotion and ring split, in order.
pub open spec fn circle_pair_check(m: Mesh, outer: FaceId, inner: FaceId, rel: CircleRelation) -> Result<(), AnnulusError> {
    if !m.face_active(outer) {
        Err(AnnulusError::InactiveFace { face_id: outer.id, role: FaceRole::Outer })
    } else if !m.face_active(inner) {
        Err(AnnulusError::InactiveFace { face_id: inner.id, role: FaceRole::Inner })
    } else if !is_circle_face(m, outer) {
        Err(AnnulusError::NotCircleFace { face_id: outer.id, role: FaceRole::Outer })
    } else if !is_circle_face(m, inner) {
        Err(AnnulusError::NotCircleFace { face_id: inner.id, role: FaceRole::Inner })
    } else if rel == CircleRelation::NotCoplanar {
        Err(AnnulusError::NotCoplanar)
    } else if rel != CircleRelation::FirstContainsSecond {
        Err(AnnulusError::InnerNotContained)
    } else {
        Ok(())
    }
}

/// `b` is `a` with the half-edge `h` handed to face `f` as part of a hole.
pub open spec fn he_moved_to_hole(a: Seq<HalfEdge>, b: Seq<HalfEdge>, h: int, f: FaceId) -> bool {
    &&& b.len() == a.len()
    &&& b[h] == HalfEdge { face: f, is_outer: false, ..a[h] }
    &&& forall|i: int| 0 <= i < a.len() && i != h ==> #[trigger] b[i] == a[i]
}

/// Face `g` of `b` equals face `g` of `a` (its inner loops compared by view).
pub open spec fn same_face(a: Face, b: Face) -> bool {
    &&& b.present == a.present
    &&& b.active == a.active
    &&& b.outer == a.outer
    &&& b.inners@ == a.inners@
    &&& b.material == a.material
    &&& b.surface == a.surface
    &&& b.normal_flipped == a.normal_flipped
}

impl Mesh {
    /// Whether the face is a circle face (see `is_circle_face`).
    pub fn extract_circle(&self, f: FaceId) -> (b: bool)
        requires
            self.wf(),
        ensures
            b == is_circle_face(*self, f),
    {
        if f.id as usize >= self.faces.len() || !self.faces[f.id as usize].present {
            return false;
        }
        let s = self.faces[f.id as usize].outer.start;
        if s.id as usize >= self.hes.len() {
            return false;
        }
        match self.collect_loop_hes(s) {
            Err(_) => {
                proof {
                    if loop_closes(self.hes@, s) {
                        crate::mesh::lemma_loop_len_bounded(self.hes@, self.verts@.len() as int, self.edges@.len() as int,
                            self.faces@.len() as int, s, loop_len(self.hes@, s));
                    }
                }
                false
            },
            Ok(l) => {
                proof { lemma_loop_len(self.hes@, s, l@.len()); }
                if l.len() != 1 {
                    return false;
                }
                let e = self.hes[s.id as usize].edge;
                match self.edge_curve(e) {
                    Some(CurveKind::Circle) => true,
                    _ => false,
                }
            },
        }
    }

    fn check_circle_pair(&self, outer: FaceId, inner: FaceId, rel: CircleRelation) -> (r: Result<(), AnnulusError>)
        requires
            self.wf(),
        ensures
            r == circle_pair_check(*self, outer, inner, rel),
    {
        if outer.id as usize >= self.faces.len() || !self.faces[outer.id as usize].present
            || !self.faces[outer.id as usize].active {
            return Err(AnnulusError::InactiveFace { face_id: outer.id, role: FaceRole::Outer });
        }
        if inner.id as usize >= self.faces.len() || !self.faces[inner.id as usize].present
            || !self.faces[inner.id as usize].active {
            return Err(AnnulusError::InactiveFace { face_id: inner.id, role: FaceRole::Inner });
        }
        if !self.extract_circle(outer) {
            return Err(AnnulusError::NotCircleFace { face_id: outer.id, role: FaceRole::Outer });
        }
        if !self.extract_circle(inner) {
            return Err(AnnulusError::NotCircleFace { face_id: inner.id, role: FaceRole::Inner });
        }
        match rel {
            CircleRelation::NotCoplanar => Err(AnnulusError::NotCoplanar),
            CircleRelation::FirstContainsSecond => Ok(()),
            _ => Err(AnnulusError::InnerNotContained),
        }
    }

    /// Hands the half-edge `h` to face `f` as a hole half-edge.
    fn move_he_to_hole(&mut self, h: HeId, f: FaceId)
        requires
            old(self).wf(),
            old(self).valid_he(h),
            old(self).valid_face(f),
        ensures
            final(self).wf(),
            final(self).verts@ == old(self).verts@,
            final(self).edges@ == old(self).edges@,
            final(self).faces@ == old(self).faces@,
            he_moved_to_hole(old(self).hes@, final(self).hes@, h.ix(), f),
    {
        let hi = h.id as usize;
        self.hes[hi].face = f;
        self.hes[hi].is_outer = false;
        assert forall|q: int| 0 <= q < self.hes@.len() implies {
            let x = #[trigger] self.hes@[q];
            &&& 0 <= x.next.ix() < self.hes@.len()
            &&& 0 <= x.prev.ix() < self.hes@.len()
            &&& 0 <= x.dst.ix() < self.verts@.len()
            &&& 0 <= x.edge.ix() < self.edges@.len()
            &&& (x.face.id == NULL_RAW || 0 <= x.face.ix() < self.faces@.len())
        } by {
            assert(q == hi || self.hes@[q] == old(self).hes@[q]);
        }
    }

    /// Adds an inner loop to a face.
    fn add_inner(&mut self, f: FaceId, l: LoopRef)
        requires
            old(self).wf(),
            old(self).valid_face(f),
            old(self).valid_he(l.start),
        ensures
            final(self).wf(),
            final(self).verts@ == old(self).verts@,
            final(self).edges@ == old(self).edges@,
            final(self).hes@ == old(self).hes@,
            final(self).faces@.len() == old(self).faces@.len(),
            forall|g: int| 0 <= g < old(self).faces@.len() && g != f.ix() ==> #[trigger] final(self).faces@[g] == old(self).faces@[g],
            same_face(Face { inners: final(self).faces@[f.ix()].inners, ..old(self).faces@[f.ix()] }, final(self).faces@[f.ix()]),
            final(self).faces@[f.ix()].inners@ == old(self).faces@[f.ix()].inners@.push(l),
    {
        let fi = f.id as usize;
        let mut v: Vec<LoopRef> = Vec::new();
        let n = self.faces[fi].inners.len();
        let mut k: usize = 0;
        while k < n
            invariant
                fi < self.faces@.len(),
                self.faces@ == old(self).faces@,
                n == self.faces@[fi as int].inners@.len(),
                k <= n,
                v@ == self.faces@[fi as int].inners@.take(k as int),
            decreases n - k,
        {
            v.push(self.faces[fi].inners[k]);
            assert(self.faces@[fi as int].inners@.take(k + 1) =~= self.faces@[fi as int].inners@.take(k as int).push(self.faces@[fi as int].inners@[k as int]));
            k += 1;
        }
        assert(self.faces@[fi as int].inners@.take(n as int) =~= self.faces@[fi as int].inners@);
        v.push(l);
        self.faces[fi].inners = v;
        assert forall|i: int| 0 <= i < self.faces@.len() implies face_wf(#[trigger] self.faces@[i], self.hes@.len() as int) by {
            if i != fi {
                assert(self.faces@[i] == old(self).faces@[i]);
            } else {
                assert forall|q: int| 0 <= q < self.faces@[i].inners@.len() implies crate::mesh::loop_ref_wf(#[trigger] self.faces@[i].inners@[q], self.hes@.len() as int) by {
                    if q < n {
                        assert(self.faces@[i].inners@[q] == old(self).faces@[i].inners@[q]);
                    }
                }
            }
        }
    }
}

/// Promotes an inner circle face to a hole of an outer circle face
/// (annulus): the inner face's boundary half-edge moves to the outer face
/// as a hole loop, and the inner face is deactivated (its half-edge, edge
/// and vertex stay).
///
/// `rel` is how the outer circle lies relative to the inner one. Refused,
/// in this order, when: the outer or the inner face is missing or
/// inactive; the outer or the inner face is not a circle face; the circles
/// are not coplanar; the outer circle does not contain the inner one.
pub fn promote_circles_to_annulus(mesh: &mut Mesh, outer_face: FaceId, inner_face: FaceId, rel: CircleRelation) -> (r: Result<(), AnnulusError>)
    requires
        old(mesh).wf(),
    ensures
        final(mesh).wf(),
        final(mesh).verts@ == old(mesh).verts@,
        final(mesh).edges@ == old(mesh).edges@,
        r == circle_pair_check(*old(mesh), outer_face, inner_face, rel),
        r is Err ==> final(mesh).hes@ == old(mesh).hes@ && final(mesh).faces@ == old(mesh).faces@,
        r is Ok ==> {
            let s = old(mesh).faces@[inner_face.ix()].outer.start;
            let oi = outer_face.ix();
            let ii = inner_face.ix();
            &&& he_moved_to_hole(old(mesh).hes@, final(mesh).hes@, s.ix(), outer_face)
            &&& final(mesh).faces@.len() == old(mesh).faces@.len()
            &&& forall|g: int| 0 <= g < old(mesh).faces@.len() && g != oi && g != ii ==> #[trigger] final(mesh).faces@[g] == old(mesh).faces@[g]
            &&& final(mesh).faces@[oi].inners@ == old(mesh).faces@[oi].inners@.push(LoopRef { start: s, is_outer: false })
            &&& !final(mesh).faces@[ii].active
            &&& oi != ii ==> same_face(Face { inners: final(mesh).faces@[oi].inners, ..old(mesh).faces@[oi] }, final(mesh).faces@[oi])
            &&& oi != ii ==> same_face(Face { active: false, ..old(mesh).faces@[ii] }, final(mesh).faces@[ii])
        },
{
    mesh.check_circle_pair(outer_face, inner_face, rel)?;
    let s = mesh.faces[inner_face.id as usize].outer.start;
    let hs = match mesh.collect_loop_hes(s) {
        Ok(hs) => hs,
        Err(_) => {
            proof {
                crate::mesh::lemma_loop_len_bounded(mesh.hes@, mesh.verts@.len() as int, mesh.edges@.len() as int,
                    mesh.faces@.len() as int, s, 1);
            }
            return Ok(());
        },
    };
    proof { lemma_loop_len(mesh.hes@, s, hs@.len()); }
    mesh.move_he_to_hole(hs[0], outer_face);
    mesh.add_inner(outer_face, LoopRef { start: s, is_outer: false });
    let ghost fb = mesh.faces@;
    mesh.faces[inner_face.id as usize].active = false;
    proof {
        assert forall|i: int| 0 <= i < mesh.faces@.len() implies face_wf(#[trigger] mesh.faces@[i], mesh.hes@.len() as int) by {
            assert(i == inner_face.ix() || mesh.faces@[i] == fb[i]);
        }
    }
    Ok(())
}

/// Splits an outer circle face by an inner circle face into a ring and a
/// disk: the free twin of the inner face's boundary half-edge (the next
/// one round its edge) becomes a hole loop of the outer face, and the inner
/// disk stays active.
///
/// Refused like `promote_circles_to_annulus`, and with `NotCircleFace` for
/// the inner face when its boundary edge has no other half-edge.
pub fn split_face_by_inner_circle(mesh: &mut Mesh, outer_face: FaceId, inner_face: FaceId, rel: CircleRelation) -> (r: Result<(), AnnulusError>)
    requires
        old(mesh).wf(),
    ensures
        final(mesh).wf(),
        final(mesh).verts@ == old(mesh).verts@,
        final(mesh).edges@ == old(mesh).edges@,
        ({
            let s = old(mesh).faces@[inner_face.ix()].outer.start;
            let t = radial_next_ix(old(mesh).hes@, s.ix());
            r == match circle_pair_check(*old(mesh), outer_face, inner_face, rel) {
                Err(e) => Err(e),
                Ok(()) => if t == s.ix() {
                    Err(AnnulusError::NotCircleFace { face_id: inner_face.id, role: FaceRole::Inner })
                } else {
                    Ok(())
                },
            }
        }),
        r is Err ==> final(mesh).hes@ == old(mesh).hes@ && final(mesh).faces@ == old(mesh).faces@,
        r is Ok ==> {
            let s = old(mesh).faces@[inner_face.ix()].outer.start;
            let t = radial_next_ix(old(mesh).hes@, s.ix());
            let oi = outer_face.ix();
            &&& he_moved_to_hole(old(mesh).hes@, final(mesh).hes@, t, outer_face)
            &&& final(mesh).faces@.len() == old(mesh).faces@.len()
            &&& forall|g: int| 0 <= g < old(mesh).faces@.len() && g != oi ==> #[trigger] final(mesh).faces@[g] == old(mesh).faces@[g]
            &&& final(mesh).faces@[oi].inners@ == old(mesh).faces@[oi].inners@.push(LoopRef { start: HeId { id: t as u32 }, is_outer: false })
            &&& same_face(Face { inners: final(mesh).faces@[oi].inners, ..old(mesh).faces@[oi] }, final(mesh).faces@[oi])
        },
{
    mesh.check_circle_pair(outer_face, inner_face, rel)?;
    let he1 = mesh.faces[inner_face.id as usize].outer.start;
    let he2 = mesh.radial_next(he1);
    if he2 == he1 {
        return Err(AnnulusError::NotCircleFace { face_id: inner_face.id, role: FaceRole::Inner });
    }
    mesh.move_he_to_hole(he2, outer_face);
    mesh.add_inner(outer_face, LoopRef { start: he2, is_outer: false });
    Ok(())
}

/// Law: a containment found by detection passes the annulus split's
/// check. `rel` is how the circle of `a` lies relative to that of `b`, and
/// `rel_back` how that of `b` lies relative to that of `a`: when the second
/// contains the first one way round, the first contains the second the
/// other way round, and a face compared with itself gives one relation.
/// Where detection reports `(outer, inner)` for two active faces, the
/// split's check of `outer` and `inner`, with the relation of `outer` to
/// `inner`, succeeds; `split_face_by_inner_circle` then succeeds whenever
/// the inner loop's start has another half-edge round its edge.
pub proof fn law_detected_containment_passes_split_check(m: Mesh, a: FaceId, b: FaceId, rel: CircleRelation, rel_back: CircleRelation)
    requires
        m.face_active(a),
        m.face_active(b),
        rel == CircleRelation::SecondContainsFirst ==> rel_back == CircleRelation::FirstContainsSecond,
        a == b ==> rel == rel_back,
        (if !is_circle_face(m, a) || !is_circle_face(m, b) {
            None
        } else {
            match rel {
                CircleRelation::FirstContainsSecond => Some((a, b)),
                CircleRelation::SecondContainsFirst => Some((b, a)),
                _ => None,
            }
        }) is Some,
    ensures
        rel == CircleRelation::FirstContainsSecond ==> circle_pair_check(m, a, b, rel) is Ok,
        rel == CircleRelation::SecondContainsFirst ==> circle_pair_check(m, b, a, rel_back) is Ok,
{
}

/// When the two faces are coplanar circle faces and one contains the
/// other, the pair (containing, contained); otherwise `None`. `rel` is how
/// the circle of `fid_a` lies relative to that of `fid_b`; when each
/// contains the other, `fid_a` is taken as the containing one.
pub fn detect_circle_containment(mesh: &Mesh, fid_a: FaceId, fid_b: FaceId, rel: CircleRelation) -> (r: Option<(FaceId, FaceId)>)
    requires
        mesh.wf(),
    ensures
        r == if !is_circle_face(*mesh, fid_a) || !is_circle_face(*mesh, fid_b) {
            None
        } else {
            match rel {
                CircleRelation::FirstContainsSecond => Some((fid_a, fid_b)),
                CircleRelation::SecondContainsFirst => Some((fid_b, fid_a)),
                _ => None,
            }
        },
{
    if !mesh.extract_circle(fid_a) || !mesh.extract_circle(fid_b) {
        return None;
    }
    match rel {
        CircleRelation::FirstContainsSecond => Some((fid_a, fid_b)),
        CircleRelation::SecondContainsFirst => Some((fid_b, fid_a)),
        _ => None,
    }
}

} // verus!
