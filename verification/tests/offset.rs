use axia_geo_ops::ids::{FaceId, MaterialId, VertId};
use axia_geo_ops::mesh::{CurveKind, Mesh, SurfaceKind};
use axia_geo_ops::offset::OffsetHostError;

fn verts(mesh: &mut Mesh, n: usize) -> Vec<VertId> {
    (0..n).map(|_| mesh.add_vertex().unwrap()).collect()
}

fn make_square_face(mesh: &mut Mesh) -> FaceId {
    let v = verts(mesh, 4);
    mesh.add_face(&v, MaterialId::new(0)).unwrap()
}

fn active_faces(mesh: &Mesh) -> usize {
    mesh.faces.iter().filter(|f| f.present && f.active).count()
}

#[test]
fn test_offset_inset() {
    let mut mesh = Mesh::new();
    let fid = make_square_face(&mut mesh);
    assert_eq!(active_faces(&mesh), 1);
    let result = mesh.offset_face(fid, true).unwrap();
    // One inner face and one frame face with a hole.
    assert_eq!(active_faces(&mesh), 2);
    assert_eq!(result.strip_faces.len(), 1);
    assert!(mesh.faces[result.inner_face.raw() as usize].present);
}

#[test]
fn test_offset_outset() {
    let mut mesh = Mesh::new();
    let fid = make_square_face(&mut mesh);
    let result = mesh.offset_face(fid, false).unwrap();
    assert_eq!(active_faces(&mesh), 2);
    assert_eq!(result.strip_faces.len(), 1);
}

#[test]
fn test_offset_triangle() {
    let mut mesh = Mesh::new();
    let v = verts(&mut mesh, 3);
    let fid = mesh.add_face(&v, MaterialId::new(0)).unwrap();
    let result = mesh.offset_face(fid, true).unwrap();
    assert_eq!(active_faces(&mesh), 2);
    assert_eq!(result.strip_faces.len(), 1);
}

#[test]
fn line_offset_on_hole_face_rejected() {
    let mut mesh = Mesh::new();
    let outer = verts(&mut mesh, 4);
    let inner = verts(&mut mesh, 4);
    let face = mesh.add_face_with_holes(&outer, &[inner.clone()], MaterialId::new(0)).expect("frame face");
    mesh.set_face_surface(face, Some(SurfaceKind::Plane)).unwrap();
    let edge = mesh.find_edge(outer[0], outer[1]).unwrap();
    let err = mesh.offset_edge_host(edge, &[]).err().expect("must reject multi-loop");
    assert!(matches!(err, OffsetHostError::MultiLoopHostFace(_)));
}

#[test]
fn line_offset_on_cylinder_host_returns_unsupported() {
    let mut mesh = Mesh::new();
    let vs = verts(&mut mesh, 4);
    let face = mesh.add_face(&vs, MaterialId::new(0)).unwrap();
    mesh.set_face_surface(face, Some(SurfaceKind::Cylinder)).unwrap();
    let edge = mesh.find_edge(vs[0], vs[1]).unwrap();
    let err = mesh.offset_edge_host(edge, &[]).err().expect("must defer cylinder host");
    assert!(matches!(err, OffsetHostError::UnsupportedHostSurface(SurfaceKind::Cylinder)));
}

#[test]
fn line_offset_no_incident_face_returns_no_incident() {
    let mut mesh = Mesh::new();
    let v = verts(&mut mesh, 2);
    let (edge_id, _) = mesh.add_edge(v[0], v[1]).unwrap();
    let err = mesh.offset_edge_host(edge_id, &[]).err().expect("must reject free wire");
    assert!(matches!(err, OffsetHostError::NoIncidentFace));
}

#[test]
fn line_offset_ambiguous_host_face_rejected() {
    let mut mesh = Mesh::new();
    let v = verts(&mut mesh, 6);
    let f1 = mesh.add_face(&[v[0], v[1], v[2], v[3]], MaterialId::new(0)).unwrap();
    mesh.set_face_surface(f1, Some(SurfaceKind::Plane)).unwrap();
    let f2 = mesh.add_face(&[v[0], v[4], v[5], v[1]], MaterialId::new(0)).unwrap();
    mesh.set_face_surface(f2, Some(SurfaceKind::Plane)).unwrap();
    let shared = mesh.find_edge(v[0], v[1]).unwrap();
    // The two planes do not coincide.
    let err = mesh.offset_edge_host(shared, &[false]).err().expect("must reject ambiguous");
    assert!(matches!(err, OffsetHostError::AmbiguousHostFace { .. }));
    // Where they coincide the first face hosts the offset.
    assert_eq!(mesh.offset_edge_host(shared, &[true]), Ok(f1));
}

#[test]
fn arc_curve_offset_returns_unsupported_in_v_beta_alpha() {
    let mut mesh = Mesh::new();
    let vs = verts(&mut mesh, 4);
    let face = mesh.add_face(&vs, MaterialId::new(0)).unwrap();
    mesh.set_face_surface(face, Some(SurfaceKind::Plane)).unwrap();
    let edge = mesh.find_edge(vs[0], vs[1]).unwrap();
    mesh.set_edge_curve(edge, Some(CurveKind::Arc)).unwrap();
    let err = mesh.offset_edge_host(edge, &[]).err().expect("must defer arc");
    assert!(matches!(err, OffsetHostError::UnsupportedCurveKind(CurveKind::Arc)));
}
