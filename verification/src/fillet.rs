//! Choosing between the BRep fillet and the mesh chamfer.

use vstd::prelude::*;

verus! {

/// Which fillet implementation handles an edge.
#[derive(Clone, Copy, Debug, PartialEq, Eq, Structural)]
pub enum FilletDispatch {
    BRep,
    Mesh,
}

/// Chooses the BRep fillet when the edge carries a curve and both adjacent
/// faces carry a surface; otherwise the mesh chamfer.
pub fn dispatch_fillet_or_chamfer(edge_has_curve: bool, both_faces_have_surface: bool) -> (d: FilletDispatch)
    ensures
        d == (if edge_has_curve && both_faces_have_surface {
            FilletDispatch::BRep
        } else {
            FilletDispatch::Mesh
        }),
{
    if edge_has_curve && both_faces_have_surface {
        FilletDispatch::BRep
    } else {
        FilletDispatch::Mesh
    }
}

} // verus!
