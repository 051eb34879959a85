//! Topological operations over a half-edge mesh: primitive solids,
//! extrusion, face and edge offsets, orientation, booleans between split
//! solids and between trimmed surfaces, hole and annulus editing, edge
//! erasure with face re-synthesis, dangling-wire cleanup, smooth surface
//! groups, face merges, edge and face splits, the coplanar auto-intersect,
//! polygon difference walks, and the P7 canonical resolver.
//!
//! The mesh holds topology only. Vertex positions, surface parameters and
//! every decision taken on coordinates stay with the caller, who hands the
//! outcome of such a decision in as a plain value.

pub mod ids;
pub mod mesh;
pub mod fillet;
pub mod orient;
pub mod offset;
pub mod cleanup;
pub mod erase_resynth;
pub mod primitives;
pub mod annulus;
pub mod create_solid;
pub mod p7;
pub mod text;
pub mod boolean;
pub mod boolean_nurbs_dcel;
pub mod results;
pub mod tolerance;
pub mod smooth_group;
pub mod difference_walk;
pub mod shared_merge;
pub mod split_trace;
pub mod cleave;
pub mod face_split;
pub mod auto_intersect;
pub mod boolean_split;
pub mod geometric_merge;
pub mod face_count;
pub mod boundary;
pub mod fx_set;
pub mod boolean_merge;
