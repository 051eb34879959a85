use axia_geo_ops::face_split::{split_face_by_line, BoundaryPoint, FaceSplitError};
use axia_geo_ops::ids::{FaceId, MaterialId, VertId};
use axia_geo_ops::mesh::{CurveKind, Mesh, MeshError, SurfaceKind};

/// A square face v0 v1 v2 v3.
fn make_square(mesh: &mut Mesh) -> (FaceId, [VertId; 4]) {
    let mat = MaterialId::new(0);
    let v0 = mesh.add_vertex().unwrap();
    let v1 = mesh.add_vertex().unwrap();
    let v2 = mesh.add_vertex().unwrap();
    let v3 = mesh.add_vertex().unwrap();
    let fid = mesh.add_face(&[v0, v1, v2, v3], mat).unwrap();
    (fid, [v0, v1, v2, v3])
}

fn face_count(mesh: &Mesh) -> usize {
    mesh.faces.iter().filter(|f| f.present).count()
}

fn outer_verts(mesh: &Mesh, f: FaceId) -> Vec<VertId> {
    mesh.collect_loop_verts(mesh.faces[f.raw() as usize].outer.start).unwrap()
}

#[test]
fn split_edge_creates_new_vertex() {
    let mut m = Mesh::new();
    let (_fid, [v0, v1, _v2, _v3]) = make_square(&mut m);
    let eid = m.find_edge(v0, v1).expect("edge should exist");
    let (vp, e1, e2) = m.split_edge(eid).unwrap();
    assert_ne!(vp, v0);
    assert_ne!(vp, v1);
    assert!(!e1.is_null());
    assert!(!e2.is_null());
    assert_eq!(vp.raw(), 4);
}

#[test]
fn split_edge_preserves_face_loop() {
    let mut m = Mesh::new();
    let (fid, [v0, v1, _v2, _v3]) = make_square(&mut m);
    let eid = m.find_edge(v0, v1).unwrap();
    let (vp, _, _) = m.split_edge(eid).unwrap();
    let loop_verts = outer_verts(&m, fid);
    assert_eq!(loop_verts.len(), 5, "face should have 5 verts after edge split");
    assert!(loop_verts.contains(&vp), "new vertex should be in face loop");
}

#[test]
fn split_edge_old_edge_deactivated() {
    let mut m = Mesh::new();
    let (_, [v0, v1, _, _]) = make_square(&mut m);
    let eid = m.find_edge(v0, v1).unwrap();
    m.split_edge(eid).unwrap();
    assert!(!m.edges[eid.raw() as usize].alive);
    assert!(m.find_edge(v0, v1).is_none());
}

#[test]
fn split_edge_new_edges_findable() {
    let mut m = Mesh::new();
    let (_, [v0, v1, _, _]) = make_square(&mut m);
    let eid = m.find_edge(v0, v1).unwrap();
    let (vp, _, _) = m.split_edge(eid).unwrap();
    assert!(m.find_edge(v0, vp).is_some(), "edge v0-vp should exist");
    assert!(m.find_edge(vp, v1).is_some(), "edge vp-v1 should exist");
}

#[test]
fn split_edge_on_box_preserves_all_faces() {
    let mut m = Mesh::new();
    let faces = m.create_box(MaterialId::new(0)).unwrap();
    assert_eq!(face_count(&m), 6, "box should have 6 faces");
    let bottom = faces[0];
    let loop_verts = outer_verts(&m, bottom);
    let eid = m.find_edge(loop_verts[0], loop_verts[1]).unwrap();
    let sharing = m.get_faces_sharing_edge(eid);
    assert_eq!(sharing.len(), 2);
    let (vp, _, _) = m.split_edge(eid).unwrap();
    assert_eq!(face_count(&m), 6, "face count should remain 6 after edge split");
    for f in sharing {
        let vs = outer_verts(&m, f);
        assert_eq!(vs.len(), 5);
        assert!(vs.contains(&vp));
    }
}

#[test]
fn split_edge_halves_keep_the_curve_kind() {
    let mut m = Mesh::new();
    let (_, [v0, v1, _, _]) = make_square(&mut m);
    let eid = m.find_edge(v0, v1).unwrap();
    m.set_edge_curve(eid, Some(CurveKind::Arc)).unwrap();
    let (vp, e1, e2) = m.split_edge(eid).unwrap();
    assert_eq!(m.edge_curve(e1), Some(CurveKind::Arc));
    assert_eq!(m.edge_curve(e2), Some(CurveKind::Arc));
    assert_eq!(m.find_edge(v0, vp), Some(e1));
    assert_eq!(m.find_edge(vp, v1), Some(e2));
}

#[test]
fn split_edge_of_a_dead_edge_is_refused() {
    let mut m = Mesh::new();
    let (_, [v0, v1, _, _]) = make_square(&mut m);
    let eid = m.find_edge(v0, v1).unwrap();
    m.split_edge(eid).unwrap();
    assert_eq!(m.split_edge(eid), Err(MeshError::EdgeNotFound(eid)));
}

#[test]
fn split_face_creates_two_faces() {
    let mut m = Mesh::new();
    let (fid, [v0, _v1, v2, _v3]) = make_square(&mut m);
    let (fa, fb) = m.split_face(fid, v0, v2).unwrap();
    assert_ne!(fa, fb);
    assert!(!m.faces[fid.raw() as usize].present);
    assert_eq!(face_count(&m), 2);
}

#[test]
fn split_face_vertex_counts() {
    let mut m = Mesh::new();
    let (fid, [_v0, v1, _v2, v3]) = make_square(&mut m);
    let (fa, fb) = m.split_face(fid, v1, v3).unwrap();
    assert_eq!(outer_verts(&m, fa).len(), 3, "face A should be triangle");
    assert_eq!(outer_verts(&m, fb).len(), 3, "face B should be triangle");
}

#[test]
fn split_face_pieces_run_from_each_end_to_the_other() {
    let mut m = Mesh::new();
    let (fid, [v0, v1, v2, v3]) = make_square(&mut m);
    m.set_face_surface(fid, Some(SurfaceKind::Plane)).unwrap();
    let (fa, fb) = m.split_face(fid, v1, v3).unwrap();
    assert_eq!(outer_verts(&m, fa), vec![v1, v2, v3]);
    assert_eq!(outer_verts(&m, fb), vec![v3, v0, v1]);
    assert_eq!(m.faces[fa.raw() as usize].surface, Some(SurfaceKind::Plane));
    assert_eq!(m.faces[fb.raw() as usize].surface, Some(SurfaceKind::Plane));
    assert!(m.find_edge(v1, v3).is_some());
}

#[test]
fn split_face_preserves_material() {
    let mut m = Mesh::new();
    let mat = MaterialId::new(42);
    let v: Vec<VertId> = (0..4).map(|_| m.add_vertex().unwrap()).collect();
    let fid = m.add_face(&v, mat).unwrap();
    let (fa, fb) = m.split_face(fid, v[0], v[2]).unwrap();
    assert_eq!(m.faces[fa.raw() as usize].material.raw(), 42);
    assert_eq!(m.faces[fb.raw() as usize].material.raw(), 42);
}

#[test]
fn split_face_rejects_adjacent_vertices() {
    let mut m = Mesh::new();
    let (fid, [v0, v1, _, _]) = make_square(&mut m);
    let result = m.split_face(fid, v0, v1);
    assert!(result.is_err());
    assert_eq!(result, Err(FaceSplitError::AdjacentVertices));
}

#[test]
fn split_face_rejects_same_vertex() {
    let mut m = Mesh::new();
    let (fid, [v0, _, _, _]) = make_square(&mut m);
    let result = m.split_face(fid, v0, v0);
    assert!(result.is_err());
    assert_eq!(result, Err(FaceSplitError::SameVertex));
}

#[test]
fn split_face_rejects_a_vertex_off_the_boundary_and_a_face_with_holes() {
    let mut m = Mesh::new();
    let (fid, [v0, _, _, _]) = make_square(&mut m);
    let stray = m.add_vertex().unwrap();
    assert_eq!(m.split_face(fid, v0, stray), Err(FaceSplitError::NotOnBoundary(stray)));
    let outer: Vec<VertId> = (0..4).map(|_| m.add_vertex().unwrap()).collect();
    let hole: Vec<VertId> = (0..3).map(|_| m.add_vertex().unwrap()).collect();
    let holed = m.add_face_with_holes(&outer, &[hole], MaterialId::new(0)).unwrap();
    assert_eq!(m.split_face(holed, outer[0], outer[2]), Err(FaceSplitError::HasHoles));
    let gone = FaceId::new(99);
    assert_eq!(m.split_face(gone, v0, stray), Err(FaceSplitError::Mesh(MeshError::FaceNotFound(gone))));
}

#[test]
fn split_face_by_line_midpoints() {
    let mut m = Mesh::new();
    let (fid, [v0, v1, v2, v3]) = make_square(&mut m);
    // The line runs from the middle of v0-v1 to the middle of v2-v3.
    let e01 = m.find_edge(v0, v1).unwrap();
    let e23 = m.find_edge(v2, v3).unwrap();
    let result = split_face_by_line(&mut m, fid, BoundaryPoint::OnEdge(e01), BoundaryPoint::OnEdge(e23)).unwrap();
    assert_eq!(result.new_faces.len(), 2, "should create 2 faces");
    assert_eq!(result.new_verts.len(), 2, "should create 2 new vertices");
    assert_eq!(face_count(&m), 2);
    assert_eq!(result.new_edges.len(), 5);
    let chord = m.find_edge(result.new_verts[0], result.new_verts[1]).unwrap();
    assert_eq!(result.new_edges[4], chord);
    assert_eq!(outer_verts(&m, result.new_faces[0]).len(), 4);
    assert_eq!(outer_verts(&m, result.new_faces[1]).len(), 4);
}

#[test]
fn split_face_by_line_vertex_to_vertex() {
    let mut m = Mesh::new();
    let (fid, [v0, _v1, v2, _v3]) = make_square(&mut m);
    let result = split_face_by_line(
        &mut m,
        fid,
        BoundaryPoint::ExistingVertex(v0),
        BoundaryPoint::ExistingVertex(v2),
    )
    .unwrap();
    assert_eq!(result.new_faces.len(), 2);
    assert_eq!(result.new_verts.len(), 0, "no new verts needed (existing vertices)");
    assert_eq!(face_count(&m), 2);
}

#[test]
fn split_face_by_line_vertex_to_edge() {
    let mut m = Mesh::new();
    let (fid, [v0, v1, v2, _v3]) = make_square(&mut m);
    let e12 = m.find_edge(v1, v2).unwrap();
    let result = split_face_by_line(&mut m, fid, BoundaryPoint::ExistingVertex(v0), BoundaryPoint::OnEdge(e12)).unwrap();
    assert_eq!(result.new_faces.len(), 2);
    assert_eq!(result.new_verts.len(), 1, "one new vert on edge v1-v2");
    assert_eq!(face_count(&m), 2);
}

#[test]
fn split_face_by_line_refuses_one_point_twice() {
    let mut m = Mesh::new();
    let (fid, [v0, _, _, _]) = make_square(&mut m);
    let r = split_face_by_line(&mut m, fid, BoundaryPoint::ExistingVertex(v0), BoundaryPoint::ExistingVertex(v0));
    assert!(matches!(r, Err(FaceSplitError::SameVertex)));
    assert_eq!(face_count(&m), 1);
    let gone = FaceId::new(7);
    let r = split_face_by_line(&mut m, gone, BoundaryPoint::ExistingVertex(v0), BoundaryPoint::ExistingVertex(v0));
    assert!(matches!(r, Err(FaceSplitError::Mesh(MeshError::FaceNotFound(_)))));
}

#[test]
fn split_face_by_line_on_one_edge_twice_fails_on_the_dead_edge() {
    let mut m = Mesh::new();
    let (fid, [v0, v1, _, _]) = make_square(&mut m);
    let e01 = m.find_edge(v0, v1).unwrap();
    let r = split_face_by_line(&mut m, fid, BoundaryPoint::OnEdge(e01), BoundaryPoint::OnEdge(e01));
    assert!(matches!(r, Err(FaceSplitError::Mesh(MeshError::EdgeNotFound(e))) if e == e01));
    // The first split stays: the face now has five vertices.
    assert_eq!(outer_verts(&m, fid).len(), 5);
}
