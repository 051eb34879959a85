use axia_geo_ops::geometric_merge::{merged_boundary_slots, MergeSlot};
use axia_geo_ops::ids::{FaceId, MaterialId, VertId};
use axia_geo_ops::mesh::Mesh;
use axia_geo_ops::shared_merge::MergeFacesError;

use MergeSlot::{First, OverlapEnd, OverlapStart, Second};

#[test]
fn merged_boundary_bridges_through_the_second_loop() {
    // Overlap on edge 1 of a quad and edge 3 of another quad.
    let s = merged_boundary_slots(4, 4, 1, 3, true, false);
    assert_eq!(
        s,
        vec![First(0), First(1), OverlapStart, Second(0), Second(1), Second(2), Second(3), First(2), First(3)]
    );
    let s = merged_boundary_slots(3, 4, 0, 0, false, true);
    assert_eq!(s, vec![First(0), Second(1), Second(2), Second(3), Second(0), OverlapEnd, First(1), First(2)]);
}

#[test]
fn merged_boundary_on_the_last_edge_walks_the_first_loop_again() {
    let s = merged_boundary_slots(3, 3, 2, 1, false, false);
    assert_eq!(
        s,
        vec![First(0), First(1), First(2), Second(2), Second(0), Second(1), First(0), First(1), First(2)]
    );
}

fn verts(mesh: &mut Mesh, n: usize) -> Vec<VertId> {
    (0..n).map(|_| mesh.add_vertex().unwrap()).collect()
}

#[test]
fn merge_pair_into_replaces_both_faces_and_keeps_their_holes() {
    let mut mesh = Mesh::new();
    let v = verts(&mut mesh, 11);
    let m1 = MaterialId::new(7);
    let f1 = mesh.add_face_with_holes(&[v[0], v[1], v[2], v[3]], &[vec![v[8], v[9], v[10]]], m1).unwrap();
    let f2 = mesh.add_face(&[v[4], v[5], v[6], v[7]], MaterialId::new(2)).unwrap();
    let outer = [v[0], v[1], v[5], v[6], v[2], v[3]];
    let nf = mesh.merge_pair_into(f1, f2, &outer).unwrap();
    assert!(!mesh.faces[f1.raw() as usize].present);
    assert!(!mesh.faces[f2.raw() as usize].present);
    let face = &mesh.faces[nf.raw() as usize];
    assert_eq!(face.material.raw(), 7);
    assert_eq!(face.inners.len(), 1);
    assert_eq!(mesh.collect_loop_verts(face.outer.start).unwrap(), outer.to_vec());
    assert_eq!(mesh.collect_loop_verts(face.inners[0].start).unwrap(), vec![v[8], v[9], v[10]]);
}

#[test]
fn merge_pair_into_refusals() {
    let mut mesh = Mesh::new();
    let v = verts(&mut mesh, 8);
    let f1 = mesh.add_face(&[v[0], v[1], v[2], v[3]], MaterialId::new(0)).unwrap();
    let f2 = mesh.add_face(&[v[4], v[5], v[6], v[7]], MaterialId::new(0)).unwrap();
    assert_eq!(mesh.merge_pair_into(f1, f1, &v), Err(MergeFacesError::SameFace));
    let gone = FaceId::new(9);
    assert_eq!(mesh.merge_pair_into(f1, gone, &v), Err(MergeFacesError::FaceNotFound(gone)));
    // A boundary too short is refused once both faces are gone.
    assert_eq!(mesh.merge_pair_into(f1, f2, &v[..2]), Err(MergeFacesError::DegenerateAfterSimplify));
    assert!(!mesh.faces[f1.raw() as usize].present);
    assert!(!mesh.faces[f2.raw() as usize].present);
}
