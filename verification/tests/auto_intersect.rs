use axia_geo_ops::ids::{FaceId, MaterialId, VertId};
use axia_geo_ops::mesh::{Mesh, MeshError, SurfaceKind};

fn verts(mesh: &mut Mesh, n: usize) -> Vec<VertId> {
    (0..n).map(|_| mesh.add_vertex().unwrap()).collect()
}

fn loop_len(mesh: &Mesh, f: FaceId) -> usize {
    mesh.collect_loop_verts(mesh.faces[f.raw() as usize].outer.start).unwrap().len()
}

/// Two squares overlapping in a smaller square: a = 0 1 2 3, b = 4 5 6 7,
/// with the crossings 8 and 9 and the corners 2 (of a) and 4 (of b) inside
/// the other square.
fn overlapping(mesh: &mut Mesh) -> (Vec<VertId>, FaceId, FaceId) {
    let v = verts(mesh, 10);
    let m = MaterialId::new(3);
    let a = mesh.add_face(&[v[0], v[1], v[2], v[3]], m).unwrap();
    let b = mesh.add_face(&[v[4], v[5], v[6], v[7]], m).unwrap();
    (v, a, b)
}

#[test]
fn rebuild_replaces_two_faces_by_three_with_the_first_surface() {
    let mut mesh = Mesh::new();
    let (v, a, b) = overlapping(&mut mesh);
    mesh.set_face_surface(a, Some(SurfaceKind::Plane)).unwrap();
    let a_only = [v[0], v[1], v[8], v[4], v[9], v[3]];
    let b_only = [v[8], v[5], v[6], v[7], v[9], v[2]];
    let lens = [v[4], v[8], v[2], v[9]];
    let r = mesh.rebuild_coplanar_overlap(a, b, &a_only, &b_only, &lens, MaterialId::new(5)).unwrap();
    assert!(!mesh.faces[a.raw() as usize].present);
    assert!(!mesh.faces[b.raw() as usize].present);
    assert_eq!(r.face_a_only.raw(), 2);
    assert_eq!(r.face_b_only.raw(), 3);
    assert_eq!(r.lens.raw(), 4);
    assert_eq!(loop_len(&mesh, r.face_a_only), 6);
    assert_eq!(loop_len(&mesh, r.face_b_only), 6);
    assert_eq!(loop_len(&mesh, r.lens), 4);
    for f in [r.face_a_only, r.face_b_only, r.lens] {
        let face = &mesh.faces[f.raw() as usize];
        assert!(face.present && face.active);
        assert_eq!(face.surface, Some(SurfaceKind::Plane));
        assert_eq!(face.material.raw(), 5);
    }
    assert_eq!(mesh.faces.iter().filter(|f| f.present).count(), 3);
}

#[test]
fn rebuild_refuses_a_missing_face() {
    let mut mesh = Mesh::new();
    let (v, a, _b) = overlapping(&mut mesh);
    let gone = FaceId::new(40);
    let tri = [v[0], v[1], v[2]];
    assert_eq!(
        mesh.rebuild_coplanar_overlap(gone, a, &tri, &tri, &tri, MaterialId::new(0)),
        Err(MeshError::FaceNotFound(gone))
    );
    assert!(mesh.faces[a.raw() as usize].present);
    // The same face twice: it is gone by the time the second is removed.
    assert_eq!(
        mesh.rebuild_coplanar_overlap(a, a, &tri, &tri, &tri, MaterialId::new(0)),
        Err(MeshError::FaceNotFound(a))
    );
    assert!(!mesh.faces[a.raw() as usize].present);
}

#[test]
fn rebuild_stops_at_a_degenerate_boundary() {
    let mut mesh = Mesh::new();
    let (v, a, b) = overlapping(&mut mesh);
    let good = [v[0], v[1], v[2]];
    let bad = [v[4], v[8]];
    let r = mesh.rebuild_coplanar_overlap(a, b, &good, &bad, &good, MaterialId::new(0));
    assert_eq!(r, Err(MeshError::DegenerateLoop));
    // Both inputs are gone and only the first new face was added.
    assert_eq!(mesh.faces.iter().filter(|f| f.present).count(), 1);
}
