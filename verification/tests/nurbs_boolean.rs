use axia_geo_ops::boolean_nurbs_dcel::{NurbsBooleanError, NurbsTrims, TrimGroup, TrimSide};
use axia_geo_ops::ids::{FaceId, MaterialId, VertId};
use axia_geo_ops::mesh::{Mesh, MeshError, SurfaceKind};

fn verts(mesh: &mut Mesh, n: usize) -> Vec<VertId> {
    (0..n).map(|_| mesh.add_vertex().unwrap()).collect()
}

/// A quad face carrying a plane surface.
fn make_plane_quad(mesh: &mut Mesh, mat: MaterialId) -> FaceId {
    let v = verts(mesh, 4);
    let fid = mesh.add_face(&v, mat).unwrap();
    mesh.set_face_surface(fid, Some(SurfaceKind::Plane)).unwrap();
    fid
}

fn no_groups() -> TrimSide {
    TrimSide { max_depth: 0, groups: Vec::new() }
}

fn disjoint() -> NurbsTrims {
    NurbsTrims { disjoint: true, side_a: no_groups(), side_b: no_groups() }
}

fn active_faces(mesh: &Mesh) -> usize {
    mesh.faces.iter().filter(|f| f.present && f.active).count()
}

fn loop_of(mesh: &Mesh, f: FaceId) -> Vec<VertId> {
    mesh.collect_loop_verts(mesh.faces[f.raw() as usize].outer.start).unwrap()
}

#[test]
fn nurbs_boolean_to_dcel_disjoint_returns_no_new_faces() {
    let mut mesh = Mesh::new();
    let mat = MaterialId::new(0);
    let face_a = make_plane_quad(&mut mesh, mat);
    let face_b = make_plane_quad(&mut mesh, mat);

    let result = mesh
        .nurbs_boolean_to_dcel(face_a, face_b, &disjoint())
        .expect("disjoint should not error, return disjoint=true");

    assert!(result.disjoint, "parallel planes 5mm apart must be disjoint");
    assert!(result.new_faces_a.is_empty(), "disjoint Subtract must produce no new face_a");
    assert!(result.new_faces_b.is_empty());
    assert_eq!(result.preserved_faces.len(), 2);
    assert!(result.preserved_faces.contains(&face_a));
    assert!(result.preserved_faces.contains(&face_b));
}

#[test]
fn nurbs_boolean_to_dcel_preserves_originals() {
    let mut mesh = Mesh::new();
    let mat = MaterialId::new(0);
    let face_a = make_plane_quad(&mut mesh, mat);
    let face_b = make_plane_quad(&mut mesh, mat);

    let result = mesh.nurbs_boolean_to_dcel(face_a, face_b, &disjoint()).unwrap();

    assert!(mesh.faces[face_a.raw() as usize].active, "face_a must remain active");
    assert!(mesh.faces[face_b.raw() as usize].active, "face_b must remain active");
    assert_eq!(result.preserved_faces, vec![face_a, face_b]);
}

#[test]
fn nurbs_boolean_to_dcel_dropin_alongside_no_regression() {
    let mut mesh = Mesh::new();
    let mat = MaterialId::new(0);
    let face_a = make_plane_quad(&mut mesh, mat);
    let face_b = make_plane_quad(&mut mesh, mat);
    let before = active_faces(&mesh);
    let _ = mesh.nurbs_boolean_to_dcel(face_a, face_b, &disjoint()).unwrap();
    let after = active_faces(&mesh);
    assert_eq!(before, after, "drop-in alongside: disjoint case must not change active face count");
}

#[test]
fn nurbs_boolean_to_dcel_rejects_invalid_input() {
    let mut mesh = Mesh::new();
    let mat = MaterialId::new(0);
    let face_a = make_plane_quad(&mut mesh, mat);
    let v = verts(&mut mesh, 4);
    let face_no_surface = mesh.add_face(&v, mat).unwrap();

    let err = mesh.nurbs_boolean_to_dcel(face_a, face_no_surface, &disjoint());
    assert!(err.is_err(), "face without surface must be rejected");
    assert_eq!(err.unwrap_err(), NurbsBooleanError::NoSurface(face_no_surface));
}

#[test]
fn nurbs_boolean_checks_the_first_face_first() {
    let mut mesh = Mesh::new();
    let a = make_plane_quad(&mut mesh, MaterialId::new(0));
    let b = make_plane_quad(&mut mesh, MaterialId::new(4));
    mesh.faces[b.raw() as usize].active = false;
    let far = FaceId::new(9);
    assert_eq!(
        mesh.nurbs_boolean_to_dcel(far, b, &disjoint()).unwrap_err(),
        NurbsBooleanError::FaceNotFound(far)
    );
    assert_eq!(mesh.nurbs_boolean_to_dcel(a, b, &disjoint()).unwrap_err(), NurbsBooleanError::FaceInactive(b));
}

#[test]
fn nurbs_boolean_makes_trimmed_faces_with_the_side_surface_and_material() {
    let mut mesh = Mesh::new();
    let a = make_plane_quad(&mut mesh, MaterialId::new(1));
    let b = make_plane_quad(&mut mesh, MaterialId::new(2));
    mesh.set_face_surface(b, Some(SurfaceKind::Cylinder)).unwrap();
    let faces_before = mesh.faces.len();
    let outer = verts(&mut mesh, 4);
    let hole = verts(&mut mesh, 3);
    let tri = verts(&mut mesh, 3);
    let trims = NurbsTrims {
        disjoint: false,
        side_a: TrimSide {
            max_depth: 1,
            groups: vec![TrimGroup { outer: outer.clone(), holes: vec![hole.clone()] }],
        },
        side_b: TrimSide {
            max_depth: 0,
            groups: vec![
                TrimGroup { outer: vec![tri[0], tri[1]], holes: Vec::new() },
                TrimGroup { outer: tri.clone(), holes: Vec::new() },
            ],
        },
    };
    let res = mesh.nurbs_boolean_to_dcel(a, b, &trims).unwrap();
    assert!(!res.disjoint);
    assert_eq!(res.preserved_faces, vec![a, b]);
    assert_eq!(res.new_faces_a, vec![FaceId::new(faces_before as u32)]);
    // The two-vertex group is skipped.
    assert_eq!(res.new_faces_b, vec![FaceId::new(faces_before as u32 + 1)]);
    let fa = &mesh.faces[res.new_faces_a[0].raw() as usize];
    assert_eq!(fa.surface, Some(SurfaceKind::Plane));
    assert_eq!(fa.material, MaterialId::new(1));
    assert_eq!(fa.inners.len(), 1);
    assert_eq!(loop_of(&mesh, res.new_faces_a[0]), outer);
    let hole_loop = mesh.collect_loop_verts(mesh.faces[res.new_faces_a[0].raw() as usize].inners[0].start).unwrap();
    assert_eq!(hole_loop, hole);
    let fb = &mesh.faces[res.new_faces_b[0].raw() as usize];
    assert_eq!(fb.surface, Some(SurfaceKind::Cylinder));
    assert_eq!(fb.material, MaterialId::new(2));
    assert_eq!(loop_of(&mesh, res.new_faces_b[0]), tri);
    assert!(mesh.faces[a.raw() as usize].active && mesh.faces[b.raw() as usize].active);
}

#[test]
fn nurbs_boolean_refuses_nested_holes() {
    let mut mesh = Mesh::new();
    let a = make_plane_quad(&mut mesh, MaterialId::new(0));
    let b = make_plane_quad(&mut mesh, MaterialId::new(0));
    let outer = verts(&mut mesh, 3);
    let faces_before = mesh.faces.len();
    let trims = NurbsTrims {
        disjoint: false,
        side_a: TrimSide { max_depth: 2, groups: vec![TrimGroup { outer, holes: Vec::new() }] },
        side_b: no_groups(),
    };
    assert_eq!(mesh.nurbs_boolean_to_dcel(a, b, &trims).unwrap_err(), NurbsBooleanError::NestedContainment(2));
    assert_eq!(mesh.faces.len(), faces_before);
}

#[test]
fn nurbs_boolean_reports_a_bad_trim_loop() {
    let mut mesh = Mesh::new();
    let a = make_plane_quad(&mut mesh, MaterialId::new(0));
    let b = make_plane_quad(&mut mesh, MaterialId::new(0));
    let v = verts(&mut mesh, 2);
    let trims = NurbsTrims {
        disjoint: false,
        side_a: TrimSide { max_depth: 0, groups: vec![TrimGroup { outer: vec![v[0], v[1], v[1]], holes: Vec::new() }] },
        side_b: no_groups(),
    };
    assert_eq!(
        mesh.nurbs_boolean_to_dcel(a, b, &trims).unwrap_err(),
        NurbsBooleanError::Mesh(MeshError::DegenerateLoop)
    );
}
