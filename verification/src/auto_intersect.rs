//! The rebuild step of the coplanar auto-intersect: two overlapping faces
//! are replaced by three, the first face's region outside the overlap,
//! the second's, and the overlap (the lens) itself.
//!
//! Whether the faces overlap, and the three boundaries, are worked out on
//! coordinates by the caller, who hands in the boundary vertices.

use vstd::prelude::*;
use crate::ids::{VertId, FaceId, MaterialId};
use crate::mesh::{Mesh, MeshError, Face, face_added, hole_views};
use crate::results::AutoIntersectResult;
use crate::shared_merge::face_removed;
use crate::erase_resynth::same_mesh;
use crate::face_count::{present_faces, lemma_present_removed, lemma_present_added, lemma_present_same};

verus! {

/// The faces of `m` with the surface of `f1`, `f2` and `f3` set to `sf`.
pub open spec fn with_surfaces(m: Mesh, f1: FaceId, f2: FaceId, f3: FaceId, sf: Option<crate::mesh::SurfaceKind>) -> Seq<Face> {
    m.faces@.update(f1.ix(), Face { surface: sf, ..m.faces@[f1.ix()] }).update(
        f2.ix(),
        Face { surface: sf, ..m.faces@[f2.ix()] },
    ).update(f3.ix(), Face { surface: sf, ..m.faces@[f3.ix()] })
}

/// `new` and `r` are what adding the faces bounded by `a_only`, `b_only`
/// and `lens`, in that order and with `material`, gives from `m`, each
/// then taking the surface `sf`; the first failure stops the rebuild.
pub open spec fn three_added(
    m: Mesh,
    new: Mesh,
    a_only: Seq<VertId>,
    b_only: Seq<VertId>,
    lens: Seq<VertId>,
    material: MaterialId,
    sf: Option<crate::mesh::SurfaceKind>,
    r: Result<AutoIntersectResult, MeshError>,
) -> bool {
    exists|m1: Mesh, r1: Result<FaceId, MeshError>|
        #![trigger face_added(m, m1, a_only, Seq::empty(), material, r1)]
        face_added(m, m1, a_only, Seq::empty(), material, r1) && match r1 {
            Err(e) => r == Err::<AutoIntersectResult, MeshError>(e) && same_mesh(new, m1),
            Ok(f1) => exists|m2: Mesh, r2: Result<FaceId, MeshError>|
                #![trigger face_added(m1, m2, b_only, Seq::empty(), material, r2)]
                face_added(m1, m2, b_only, Seq::empty(), material, r2) && match r2 {
                    Err(e) => r == Err::<AutoIntersectResult, MeshError>(e) && same_mesh(new, m2),
                    Ok(f2) => exists|m3: Mesh, r3: Result<FaceId, MeshError>|
                        #![trigger face_added(m2, m3, lens, Seq::empty(), material, r3)]
                        face_added(m2, m3, lens, Seq::empty(), material, r3) && match r3 {
                            Err(e) => r == Err::<AutoIntersectResult, MeshError>(e) && same_mesh(new, m3),
                            Ok(f3) => r == Ok::<AutoIntersectResult, MeshError>(
                                AutoIntersectResult { face_a_only: f1, face_b_only: f2, lens: f3 },
                            ) && new.verts@ == m3.verts@ && new.hes@ == m3.hes@ && new.edges@ == m3.edges@
                                && new.faces@ == with_surfaces(m3, f1, f2, f3, sf),
                        },
                },
        }
}

/// `new` and `r` are what replacing faces `fa` and `fb` by the three
/// faces bounded by `a_only`, `b_only` and `lens` gives from `old`: `fa`
/// is removed, then `fb`, then the three faces are added, each inheriting
/// the surface that `fa` had.
pub open spec fn overlap_rebuilt(
    old: Mesh,
    new: Mesh,
    fa: FaceId,
    fb: FaceId,
    a_only: Seq<VertId>,
    b_only: Seq<VertId>,
    lens: Seq<VertId>,
    material: MaterialId,
    r: Result<AutoIntersectResult, MeshError>,
) -> bool {
    let sf = old.faces@[fa.ix()].surface;
    if !old.face_present(fa) {
        r == Err::<AutoIntersectResult, MeshError>(MeshError::FaceNotFound(fa)) && new == old
    } else {
        exists|m1: Mesh|
            #![trigger face_removed(old, m1, fa)]
            face_removed(old, m1, fa) && if !m1.face_present(fb) {
                r == Err::<AutoIntersectResult, MeshError>(MeshError::FaceNotFound(fb)) && new == m1
            } else {
                exists|m2: Mesh|
                    #![trigger face_removed(m1, m2, fb)]
                    face_removed(m1, m2, fb) && three_added(m2, new, a_only, b_only, lens, material, sf, r)
            }
    }
}

impl Mesh {
    /// Replaces the overlapping faces `face_a` and `face_b` by three new
    /// faces with `material`: the one bounded by `a_only` (the first
    /// face's region outside the overlap), the one bounded by `b_only`
    /// (the second's), and the lens bounded by `lens`. All three inherit
    /// the surface of `face_a`.
    pub fn rebuild_coplanar_overlap(
        &mut self,
        face_a: FaceId,
        face_b: FaceId,
        a_only: &[VertId],
        b_only: &[VertId],
        lens: &[VertId],
        material: MaterialId,
    ) -> (r: Result<AutoIntersectResult, MeshError>)
        requires
            old(self).wf(),
        ensures
            final(self).wf(),
            overlap_rebuilt(*old(self), *final(self), face_a, face_b, a_only@, b_only@, lens@, material, r),
            r is Ok ==> present_faces(final(self).faces@) == present_faces(old(self).faces@) + 1,
    {
        if face_a.id as usize >= self.faces.len() || !self.faces[face_a.id as usize].present {
            return Err(MeshError::FaceNotFound(face_a));
        }
        let sf = self.faces[face_a.id as usize].surface;
        let ghost m0 = *self;
        let _ = self.remove_face(face_a);
        let ghost m1 = *self;
        assert(face_removed(m0, m1, face_a));
        if face_b.id as usize >= self.faces.len() || !self.faces[face_b.id as usize].present {
            return Err(MeshError::FaceNotFound(face_b));
        }
        let _ = self.remove_face(face_b);
        let ghost m2 = *self;
        assert(face_removed(m1, m2, face_b));
        let holes: Vec<Vec<VertId>> = Vec::new();
        assert(hole_views(holes@) =~= Seq::<Seq<VertId>>::empty());
        let f1 = match self.add_face_with_holes(a_only, holes.as_slice(), material) {
            Ok(f) => f,
            Err(e) => {
                assert(face_added(m2, *self, a_only@, Seq::empty(), material, Err(e)));
                return Err(e);
            },
        };
        let ghost m3 = *self;
        assert(face_added(m2, m3, a_only@, Seq::empty(), material, Ok(f1)));
        let f2 = match self.add_face_with_holes(b_only, holes.as_slice(), material) {
            Ok(f) => f,
            Err(e) => {
                assert(face_added(m3, *self, b_only@, Seq::empty(), material, Err(e)));
                return Err(e);
            },
        };
        let ghost m4 = *self;
        assert(face_added(m3, m4, b_only@, Seq::empty(), material, Ok(f2)));
        let f3 = match self.add_face_with_holes(lens, holes.as_slice(), material) {
            Ok(f) => f,
            Err(e) => {
                assert(face_added(m4, *self, lens@, Seq::empty(), material, Err(e)));
                return Err(e);
            },
        };
        let ghost m5 = *self;
        assert(face_added(m4, m5, lens@, Seq::empty(), material, Ok(f3)));
        let _ = self.set_face_surface(f1, sf);
        let _ = self.set_face_surface(f2, sf);
        let _ = self.set_face_surface(f3, sf);
        assert(self.faces@ == with_surfaces(m5, f1, f2, f3, sf));
        proof {
            lemma_present_removed(m0, m1, face_a);
            lemma_present_removed(m1, m2, face_b);
            lemma_present_added(m2, m3, a_only@, Seq::empty(), material, f1);
            lemma_present_added(m3, m4, b_only@, Seq::empty(), material, f2);
            lemma_present_added(m4, m5, lens@, Seq::empty(), material, f3);
            lemma_present_same(self.faces@, m5.faces@);
        }
        Ok(AutoIntersectResult { face_a_only: f1, face_b_only: f2, lens: f3 })
    }
}

} // verus!
