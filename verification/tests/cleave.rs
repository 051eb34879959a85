use axia_geo_ops::ids::{FaceId, MaterialId, VertId};
use axia_geo_ops::mesh::{CurveKind, Mesh, MeshError, SurfaceKind};
use axia_geo_ops::results::CleaveResult;

fn verts(mesh: &mut Mesh, n: usize) -> Vec<VertId> {
    (0..n).map(|_| mesh.add_vertex().unwrap()).collect()
}

/// Three quads in a row, f0 in the middle, and a separate triangle.
fn strip(mesh: &mut Mesh) -> (Vec<VertId>, [FaceId; 4]) {
    let v = verts(mesh, 11);
    let m = MaterialId::new(1);
    let f0 = mesh.add_face(&[v[1], v[2], v[6], v[5]], m).unwrap();
    let f1 = mesh.add_face(&[v[0], v[1], v[5], v[4]], m).unwrap();
    let f2 = mesh.add_face(&[v[2], v[3], v[7], v[6]], m).unwrap();
    let f3 = mesh.add_face(&[v[8], v[9], v[10]], m).unwrap();
    (v, [f0, f1, f2, f3])
}

#[test]
fn coplanar_siblings_are_the_flagged_neighbours_in_order() {
    let mut mesh = Mesh::new();
    let (_v, [f0, f1, f2, _f3]) = strip(&mut mesh);
    assert_eq!(mesh.collect_coplanar_siblings(f0, &[true; 4]).unwrap(), vec![f1, f2]);
    assert_eq!(mesh.collect_coplanar_siblings(f0, &[true, false, true, true]).unwrap(), vec![f2]);
    assert_eq!(mesh.collect_coplanar_siblings(f1, &[true; 4]).unwrap(), vec![f0]);
    assert_eq!(mesh.collect_coplanar_siblings(f0, &[]).unwrap(), Vec::<FaceId>::new());
}

#[test]
fn coplanar_siblings_errors() {
    let mut mesh = Mesh::new();
    let (_v, [f0, _f1, _f2, _f3]) = strip(&mut mesh);
    let far = FaceId::new(30);
    assert_eq!(mesh.collect_coplanar_siblings(far, &[]), Err(MeshError::FaceNotFound(far)));
    mesh.faces[f0.raw() as usize].active = false;
    assert_eq!(mesh.collect_coplanar_siblings(f0, &[]), Err(MeshError::FaceInactive(f0)));
}

#[test]
fn cleave_without_siblings_changes_nothing() {
    let mut mesh = Mesh::new();
    let (_v, [f0, _f1, _f2, _f3]) = strip(&mut mesh);
    let nv = mesh.verts.len();
    let r = mesh.cleave_face_from_siblings(f0, &[]).unwrap();
    assert_eq!(r, CleaveResult { new_face_id: f0, new_vert_count: 0, new_edge_count: 0 });
    assert_eq!(mesh.verts.len(), nv);
    assert!(mesh.faces[f0.raw() as usize].present);
}

#[test]
fn cleave_rebuilds_the_face_on_new_vertices() {
    let mut mesh = Mesh::new();
    let (v, [f0, f1, f2, _f3]) = strip(&mut mesh);
    mesh.set_face_surface(f0, Some(SurfaceKind::Plane)).unwrap();
    let top = mesh.find_edge(v[6], v[5]).unwrap();
    mesh.set_edge_curve(top, Some(CurveKind::Arc)).unwrap();
    let nv = mesh.verts.len() as u32;
    let nfaces = mesh.faces.len() as u32;
    let r = mesh.cleave_face_from_siblings(f0, &[f1, f2]).unwrap();
    assert_eq!(r.new_face_id, FaceId::new(nfaces));
    assert_eq!(r.new_vert_count, 4);
    assert_eq!(r.new_edge_count, 4);
    assert!(!mesh.faces[f0.raw() as usize].present);
    let face = &mesh.faces[r.new_face_id.raw() as usize];
    assert!(face.present && face.active);
    assert_eq!(face.material, MaterialId::new(1));
    assert_eq!(face.surface, Some(SurfaceKind::Plane));
    let lp = mesh.collect_loop_verts(face.outer.start).unwrap();
    let fresh: Vec<VertId> = (0..4).map(|k| VertId::new(nv + k)).collect();
    assert_eq!(lp, fresh);
    // The edge in the place of the old 6-5 edge carries its curve.
    let e = mesh.find_edge(fresh[2], fresh[3]).unwrap();
    assert_eq!(mesh.edges[e.raw() as usize].curve, Some(CurveKind::Arc));
    let e = mesh.find_edge(fresh[0], fresh[1]).unwrap();
    assert_eq!(mesh.edges[e.raw() as usize].curve, None);
    // The neighbours are untouched and no longer share an edge with it.
    assert!(mesh.faces[f1.raw() as usize].present && mesh.faces[f2.raw() as usize].present);
    assert_eq!(mesh.collect_coplanar_siblings(r.new_face_id, &[true; 8]).unwrap(), Vec::<FaceId>::new());
}
