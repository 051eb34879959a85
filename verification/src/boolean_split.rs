//! The mesh side of the boolean face split: a face cut by intersection
//! lines is replaced by the pieces it was cut into.
//!
//! The pieces themselves (as vertex loops) come from the caller, who cuts
//! the face's polygon on coordinates.

use vstd::prelude::*;
use crate::ids::{VertId, FaceId, MaterialId};
use crate::mesh::{Mesh, face_added, hole_views};
use crate::boolean::{dedup_loop, dedup_consecutive_verts};
use crate::shared_merge::face_removed;
use crate::erase_resynth::same_mesh;
use crate::face_count::{present_faces, lemma_present_removed, lemma_present_added};

verus! {

/// The loop that piece `p` gives, when it gives one: a piece of fewer
/// than three vertices is skipped, and so is one that has fewer than three
/// once repeated neighbours are collapsed.
pub open spec fn piece_loop(p: Seq<VertId>) -> Option<Seq<VertId>> {
    if p.len() < 3 || dedup_loop(p).len() < 3 {
        None
    } else {
        Some(dedup_loop(p))
    }
}

/// `new` and `added` are what handling one more piece `p` gives from
/// `mid`, where `before` were the faces added so far: a piece that gives a
/// loop is added as a face with `material`, and listed where that worked.
pub open spec fn piece_step(mid: Mesh, new: Mesh, p: Seq<VertId>, material: MaterialId, before: Seq<FaceId>, added: Seq<FaceId>) -> bool {
    if piece_loop(p) is None {
        same_mesh(new, mid) && added == before
    } else {
        exists|r: Result<FaceId, crate::mesh::MeshError>|
            #![trigger face_added(mid, new, dedup_loop(p), Seq::empty(), material, r)]
            face_added(mid, new, dedup_loop(p), Seq::empty(), material, r) && added == match r {
                Ok(f) => before.push(f),
                Err(_) => before,
            }
    }
}

/// `new` and `added` are what adding a face for each of `pieces` in turn
/// gives from `old`, with `material`: each piece that gives a loop is
/// added, and the faces that were added are listed; a piece whose face
/// could not be added is passed over.
pub open spec fn pieces_added(old: Mesh, new: Mesh, pieces: Seq<Seq<VertId>>, material: MaterialId, added: Seq<FaceId>) -> bool {
    exists|ms: Seq<Mesh>, adds: Seq<Seq<FaceId>>|
        #![trigger ms.len(), adds.len()]
        ms.len() == pieces.len() + 1 && adds.len() == pieces.len() + 1 && ms[0] == old && ms.last() == new
            && adds[0] == Seq::<FaceId>::empty() && adds.last() == added && forall|k: int|
            0 <= k < pieces.len() ==> #[trigger] piece_step(ms[k], ms[k + 1], pieces[k], material, adds[k], adds[k + 1])
}

/// `new` and `r` are what replacing face `f` by `pieces` gives from `old`.
/// Nothing changes, and `r` is `f` alone, where `f` is not an active face,
/// where there are fewer than two pieces, or where no piece could be
/// added; otherwise the pieces are added with `f`'s material, `f` is
/// removed, and `r` lists the new faces.
pub open spec fn face_replaced_by_pieces(old: Mesh, new: Mesh, f: FaceId, pieces: Seq<Seq<VertId>>, r: Seq<FaceId>) -> bool {
    if !old.face_active(f) || pieces.len() < 2 {
        same_mesh(new, old) && r == seq![f]
    } else {
        exists|mid: Mesh, added: Seq<FaceId>|
            #![trigger pieces_added(old, mid, pieces, old.faces@[f.ix()].material, added)]
            pieces_added(old, mid, pieces, old.faces@[f.ix()].material, added) && if added.len() == 0 {
                same_mesh(new, mid) && r == seq![f]
            } else {
                face_removed(mid, new, f) && r == added
            }
    }
}

impl Mesh {
    /// Replaces face `f` by the pieces a cut along intersection lines made
    /// of it, each given by its vertex loop. Each piece with at least three
    /// vertices, after repeated neighbours are collapsed, becomes a face
    /// with `f`'s material; a piece whose face cannot be added is passed
    /// over. Where at least one was added, `f` is removed and the new faces
    /// are returned; otherwise (or where `f` is not active, or was cut into
    /// fewer than two pieces) the mesh is unchanged and `f` alone is
    /// returned.
    pub fn replace_face_by_pieces(&mut self, f: FaceId, pieces: &[Vec<VertId>]) -> (r: Vec<FaceId>)
        requires
            old(self).wf(),
        ensures
            final(self).wf(),
            face_replaced_by_pieces(*old(self), *final(self), f, hole_views(pieces@), r@),
            present_faces(final(self).faces@) + 1 == present_faces(old(self).faces@) + r@.len(),
    {
        let ghost pv = hole_views(pieces@);
        if f.id as usize >= self.faces.len() || !self.faces[f.id as usize].present || !self.faces[f.id as usize].active
            || pieces.len() < 2 {
            let mut only: Vec<FaceId> = Vec::new();
            only.push(f);
            assert(only@ =~= seq![f]);
            return only;
        }
        let material = self.faces[f.id as usize].material;
        let ghost m0 = *self;
        let holes: Vec<Vec<VertId>> = Vec::new();
        assert(hole_views(holes@) =~= Seq::<Seq<VertId>>::empty());
        let mut added: Vec<FaceId> = Vec::new();
        let n = pieces.len();
        let mut i: usize = 0;
        let ghost mut ms: Seq<Mesh> = seq![m0];
        let ghost mut adds: Seq<Seq<FaceId>> = seq![Seq::<FaceId>::empty()];
        assert(added@ =~= Seq::<FaceId>::empty());
        while i < n
            invariant
                self.wf(),
                n == pieces@.len(),
                pv == hole_views(pieces@),
                pv.len() == n,
                i <= n,
                holes@.len() == 0,
                hole_views(holes@) == Seq::<Seq<VertId>>::empty(),
                ms.len() == i + 1,
                adds.len() == i + 1,
                ms[0] == m0,
                ms[i as int] == *self,
                adds[0] == Seq::<FaceId>::empty(),
                adds[i as int] == added@,
                forall|k: int| 0 <= k < i ==> #[trigger] piece_step(ms[k], ms[k + 1], pv[k], material, adds[k], adds[k + 1]),
                present_faces(self.faces@) == present_faces(m0.faces@) + added@.len(),
                self.face_present(f),
            decreases n - i,
        {
            let ghost mid = *self;
            let ghost before = added@;
            let p = &pieces[i];
            assert(pv[i as int] == p@);
            if p.len() >= 3 {
                let d = dedup_consecutive_verts(p.as_slice());
                assert(d@ == dedup_loop(p@));
                if d.len() >= 3 {
                    let r = self.add_face_with_holes(d.as_slice(), holes.as_slice(), material);
                    match r {
                        Ok(g) => {
                            added.push(g);
                        },
                        Err(_) => {},
                    }
                    assert(face_added(mid, *self, d@, Seq::empty(), material, r));
                    proof {
                        if let Ok(g) = r {
                            lemma_present_added(mid, *self, d@, Seq::empty(), material, g);
                            assert(self.faces@[f.ix()] == self.faces@.take(mid.faces@.len() as int)[f.ix()]);
                        }
                    }
                    assert(piece_loop(p@) == Some(d@));
                    assert(piece_step(mid, *self, p@, material, before, added@));
                } else {
                    assert(piece_loop(p@) is None);
                    assert(piece_step(mid, *self, p@, material, before, added@));
                }
            } else {
                assert(piece_loop(p@) is None);
                assert(piece_step(mid, *self, p@, material, before, added@));
            }
            assert(piece_step(mid, *self, pv[i as int], material, before, added@));
            proof {
                ms = ms.push(*self);
                adds = adds.push(added@);
                assert forall|k: int| 0 <= k < i + 1 implies #[trigger] piece_step(ms[k], ms[k + 1], pv[k], material, adds[k], adds[k + 1]) by {
                    if k < i {
                    }
                }
            }
            i += 1;
        }
        assert(pieces_added(m0, *self, pv, material, added@));
        if added.len() == 0 {
            let mut only: Vec<FaceId> = Vec::new();
            only.push(f);
            assert(only@ =~= seq![f]);
            return only;
        }
        let ghost mid = *self;
        let _ = self.remove_face(f);
        assert(face_removed(mid, *self, f));
        proof {
            lemma_present_removed(mid, *self, f);
        }
        added
    }
}

} // verus!
