//! The number of faces in storage, and how removing and adding faces
//! change it.

use vstd::prelude::*;
use crate::ids::{VertId, FaceId, MaterialId};
use crate::mesh::{Mesh, Face, face_added};
use crate::shared_merge::face_removed;

verus! {

/// The number of faces of `fs` that are in storage.
pub open spec fn present_faces(fs: Seq<Face>) -> nat
    decreases fs.len(),
{
    if fs.len() == 0 {
        0
    } else {
        present_faces(fs.drop_last()) + if fs.last().present {
            1nat
        } else {
            0nat
        }
    }
}

/// Appending a face counts it where it is in storage.
pub proof fn lemma_present_push(fs: Seq<Face>, x: Face)
    ensures
        present_faces(fs.push(x)) == present_faces(fs) + if x.present {
            1nat
        } else {
            0nat
        },
{
    assert(fs.push(x).drop_last() =~= fs);
}

/// Replacing one face changes the count by the difference in storage.
pub proof fn lemma_present_update(fs: Seq<Face>, i: int, x: Face)
    requires
        0 <= i < fs.len(),
    ensures
        present_faces(fs.update(i, x)) + (if fs[i].present {
            1nat
        } else {
            0nat
        }) == present_faces(fs) + if x.present {
            1nat
        } else {
            0nat
        },
    decreases fs.len(),
{
    let g = fs.update(i, x);
    if i == fs.len() - 1 {
        assert(g.drop_last() =~= fs.drop_last());
    } else {
        lemma_present_update(fs.drop_last(), i, x);
        assert(g.drop_last() =~= fs.drop_last().update(i, x));
    }
}

/// Faces that agree in storage have the same count.
pub proof fn lemma_present_same(a: Seq<Face>, b: Seq<Face>)
    requires
        a.len() == b.len(),
        forall|i: int| 0 <= i < a.len() ==> (#[trigger] a[i]).present == b[i].present,
    ensures
        present_faces(a) == present_faces(b),
    decreases a.len(),
{
    if a.len() > 0 {
        lemma_present_same(a.drop_last(), b.drop_last());
    }
}

/// Removing a face in storage takes one from the count.
pub proof fn lemma_present_removed(old: Mesh, new: Mesh, f: FaceId)
    requires
        face_removed(old, new, f),
        old.face_present(f),
    ensures
        present_faces(new.faces@) + 1 == present_faces(old.faces@),
{
    let x = Face { present: false, ..old.faces@[f.ix()] };
    assert(new.faces@ =~= old.faces@.update(f.ix(), x));
    lemma_present_update(old.faces@, f.ix(), x);
}

/// Adding a face adds one to the count.
pub proof fn lemma_present_added(
    old: Mesh,
    new: Mesh,
    outer: Seq<VertId>,
    holes: Seq<Seq<VertId>>,
    material: MaterialId,
    f: FaceId,
)
    requires
        face_added(old, new, outer, holes, material, Ok(f)),
    ensures
        present_faces(new.faces@) == present_faces(old.faces@) + 1,
{
    assert(new.faces@ =~= old.faces@.push(new.faces@[f.ix()]));
    lemma_present_push(old.faces@, new.faces@[f.ix()]);
}

} // verus!
