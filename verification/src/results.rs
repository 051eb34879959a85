//! Results of the cleave, coplanar auto-intersect and face split
//! operations, and the NURBS boolean's DCEL output.

use vstd::prelude::*;
use crate::ids::{VertId, EdgeId, FaceId};

verus! {

/// Result of cleaving a face from its coplanar siblings.
#[derive(Clone, Copy, Debug, PartialEq, Eq, Structural)]
pub struct CleaveResult {
    /// The cleaved source face's new id (siblings unchanged).
    pub new_face_id: FaceId,
    /// New outer-boundary vertices created.
    pub new_vert_count: usize,
    /// New boundary edges created.
    pub new_edge_count: usize,
}

/// Result of the coplanar auto-intersect: three faces replacing two.
#[derive(Clone, Copy, Debug, PartialEq, Eq, Structural)]
pub struct AutoIntersectResult {
    /// The first face's region minus the lens.
    pub face_a_only: FaceId,
    /// The second face's region minus the lens.
    pub face_b_only: FaceId,
    /// The overlap of the two.
    pub lens: FaceId,
}

/// Result of a face split.
#[derive(Debug)]
pub struct FaceSplitResult {
    /// The new faces (the original face is removed).
    pub new_faces: Vec<FaceId>,
    /// New vertices created on edges.
    pub new_verts: Vec<VertId>,
    /// New edges created by the split.
    pub new_edges: Vec<EdgeId>,
    /// Log lines.
    pub debug: Vec<String>,
}

} // verus!
