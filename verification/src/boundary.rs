//! Orphan edges: live edges that no active face uses, the candidates from
//! which a boundary is traced round a picked point.

use vstd::prelude::*;
use crate::ids::{EdgeId, FaceId};
use crate::mesh::{Mesh, face_on_edge};

verus! {

/// Edge `e` is an orphan: live, used by no active face, and with both ends
/// live.
pub open spec fn is_orphan(m: Mesh, e: EdgeId) -> bool {
    let ed = m.edges@[e.ix()];
    &&& m.edge_alive(e)
    &&& forall|f: FaceId| face_on_edge(m, e, f) ==> !m.face_active(f)
    &&& m.verts@[ed.v0.ix()].alive
    &&& m.verts@[ed.v1.ix()].alive
}

/// The orphan edges among the first `k` slots, in slot order.
pub open spec fn orphans_upto(m: Mesh, k: nat) -> Seq<EdgeId>
    decreases k,
{
    if k == 0 {
        Seq::empty()
    } else {
        let p = orphans_upto(m, (k - 1) as nat);
        if is_orphan(m, EdgeId { id: (k - 1) as u32 }) {
            p.push(EdgeId { id: (k - 1) as u32 })
        } else {
            p
        }
    }
}

impl Mesh {
    /// The orphan edges of the mesh, in slot order (see `is_orphan`).
    pub fn orphan_edges(&self) -> (r: Vec<EdgeId>)
        requires
            self.wf(),
        ensures
            r@ == orphans_upto(*self, self.edges@.len() as nat),
    {
        let n = self.edges.len();
        let mut out: Vec<EdgeId> = Vec::new();
        let mut i: usize = 0;
        while i < n
            invariant
                self.wf(),
                n == self.edges@.len(),
                i <= n,
                out@ == orphans_upto(*self, i as nat),
            decreases n - i,
        {
            let e = EdgeId { id: i as u32 };
            let ed = self.edges[i];
            if ed.alive {
                let faces = self.get_faces_sharing_edge(e);
                let mut any_active = false;
                let mut k: usize = 0;
                while k < faces.len()
                    invariant
                        self.wf(),
                        k <= faces@.len(),
                        forall|x: FaceId| #[trigger] faces@.contains(x) <==> face_on_edge(*self, e, x),
                        any_active <==> exists|j: int| 0 <= j < k && self.face_active(#[trigger] faces@[j]),
                    decreases faces@.len() - k,
                {
                    let f = faces[k];
                    if (f.id as usize) < self.faces.len() && self.faces[f.id as usize].present && self.faces[f.id as usize].active {
                        any_active = true;
                    }
                    k += 1;
                }
                proof {
                    if any_active {
                        let j = choose|j: int| 0 <= j < faces@.len() && self.face_active(#[trigger] faces@[j]);
                        assert(faces@.contains(faces@[j]));
                    } else {
                        assert forall|f: FaceId| face_on_edge(*self, e, f) implies !self.face_active(f) by {
                            assert(faces@.contains(f));
                            let j = choose|j: int| 0 <= j < faces@.len() && faces@[j] == f;
                            assert(!self.face_active(faces@[j]));
                        }
                    }
                }
                if !any_active && self.verts[ed.v0.id as usize].alive && self.verts[ed.v1.id as usize].alive {
                    out.push(e);
                }
            }
            i += 1;
        }
        out
    }
}

} // verus!
