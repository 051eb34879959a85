use axia_geo_ops::boolean::BoolOp;
use axia_geo_ops::ids::{FaceId, MaterialId, VertId};
use axia_geo_ops::mesh::{Mesh, MeshError};

/// A box: eight vertices and six outward quads, in the order
/// -Z, +Z, -Y, +Y, -X, +X.
fn make_box(mesh: &mut Mesh, mat: MaterialId) -> Vec<FaceId> {
    let v: Vec<VertId> = (0..8).map(|_| mesh.add_vertex().unwrap()).collect();
    let face_verts = [
        [v[0], v[3], v[2], v[1]],
        [v[4], v[5], v[6], v[7]],
        [v[0], v[1], v[5], v[4]],
        [v[2], v[3], v[7], v[6]],
        [v[0], v[4], v[7], v[3]],
        [v[1], v[2], v[6], v[5]],
    ];
    let mut faces = Vec::new();
    for verts in &face_verts {
        if let Ok(fid) = mesh.add_face(verts, mat) {
            faces.push(fid);
        }
    }
    faces
}

fn active(mesh: &Mesh, f: FaceId) -> bool {
    mesh.faces.get(f.raw() as usize).map(|x| x.present && x.active).unwrap_or(false)
}

/// Two boxes far apart: no face is split and every centroid lies outside
/// the other box.
fn disjoint_boolean(op: BoolOp) -> (Mesh, Vec<FaceId>, Result<axia_geo_ops::boolean::BooleanResult, MeshError>) {
    let mut mesh = Mesh::new();
    let mat = MaterialId::new(0);
    let a = make_box(&mut mesh, mat);
    let b = make_box(&mut mesh, mat);
    let outside = vec![Some(false); 6];
    let r = mesh.boolean(&a, &b, 0, &a, &outside, &b, &outside, &[], op);
    (mesh, a, r)
}

#[test]
fn boolean_no_overlap() {
    let (_, _, r) = disjoint_boolean(BoolOp::Union);
    let r = r.unwrap();
    assert!(!r.faces.is_empty(), "disjoint union should produce faces");
}

#[test]
fn boolean_disjoint_union() {
    let (mesh, _, r) = disjoint_boolean(BoolOp::Union);
    let result = r.unwrap();
    assert!(!result.faces.is_empty(), "Union of disjoint boxes should produce faces");
    assert_eq!(result.faces.len(), 12);
    assert!(result.faces.iter().all(|f| active(&mesh, *f)));
}

#[test]
fn boolean_intersect_disjoint() {
    let (_, a, r) = disjoint_boolean(BoolOp::Intersect);
    let result = r.unwrap();
    assert!(result.faces.is_empty() || result.faces.len() < a.len(), "Intersect of disjoint boxes should be empty or minimal");
    assert!(result.faces.is_empty());
}

#[test]
fn boolean_subtract_disjoint() {
    let (_, a, r) = disjoint_boolean(BoolOp::Subtract);
    let result = r.unwrap();
    assert!(!result.faces.is_empty(), "Subtract disjoint should keep A's faces");
    assert_eq!(result.faces, a);
}

/// Two overlapping boxes, A = [0,2]^3 and B = [1,3]x[0,2]x[0,2]: the +X face
/// of A lies inside B and the -X face of B inside A.
fn overlapping_union() -> (Mesh, Result<axia_geo_ops::boolean::BooleanResult, MeshError>) {
    let mut mesh = Mesh::new();
    let mat = MaterialId::new(0);
    let a = make_box(&mut mesh, mat);
    let b = make_box(&mut mesh, mat);
    let mut in_a = vec![Some(false); 6];
    in_a[5] = Some(true);
    let mut in_b = vec![Some(false); 6];
    in_b[4] = Some(true);
    let r = mesh.boolean(&a, &b, 0, &a, &in_a, &b, &in_b, &[], BoolOp::Union);
    (mesh, r)
}

#[test]
fn boolean_overlapping_union_result_is_closed() {
    let (mesh, r) = overlapping_union();
    let result = r.unwrap();
    assert!(!result.faces.is_empty(), "union should produce faces");
    for &fid in &result.faces {
        assert!(active(&mesh, fid), "all result faces should be active");
    }
    assert_eq!(result.faces.len(), 10);
}

#[test]
fn boolean_empty_input() {
    let mut mesh = Mesh::new();
    let mat = MaterialId::new(0);
    let a = make_box(&mut mesh, mat);
    let outside = vec![Some(false); 6];
    let result = mesh.boolean(&a, &[], 0, &a, &outside, &[], &[], &[], BoolOp::Union);
    if result.is_ok() {
        let r = result.unwrap();
        assert!(!r.faces.is_empty(), "should handle empty B gracefully");
    }
}

#[test]
fn boolean_debug_info_present() {
    let (_, r) = overlapping_union();
    let result = r.unwrap();
    assert!(!result.debug.is_empty(), "should have debug info");
    let debug_str = result.debug.join("\n");
    assert!(debug_str.contains("Solid A") || debug_str.contains("Solid B"), "should log solid info");
    assert_eq!(result.debug[0], "Solid A: 6 faces, 12 tris | Solid B: 6 faces, 12 tris");
    assert_eq!(result.debug[1], "Intersections found: 0 (including 0 coplanar)");
    assert_eq!(result.debug[2], "Face splits: A +0 (6→6), B +0 (6→6)");
    assert_eq!(result.debug[3], "Keep: A=5 faces, B=5 faces");
    assert_eq!(result.debug[4], "Face merging: 10 → 10 (merged 0 coplanar faces)");
    assert_eq!(result.debug[5], "Removed: 1 A-faces, 1 B-faces | New verts: ~0");
}

#[test]
fn boolean_refuses_an_absent_face_and_leaves_the_mesh() {
    let mut mesh = Mesh::new();
    let mat = MaterialId::new(0);
    let a = make_box(&mut mesh, mat);
    let gone = FaceId::new(40);
    let outside = vec![Some(false); 6];
    let r = mesh.boolean(&a, &[gone], 0, &a, &outside, &[], &[], &[], BoolOp::Union);
    assert_eq!(r.err(), Some(MeshError::FaceNotFound(gone)));
    assert!(a.iter().all(|f| active(&mesh, *f)));
}

#[test]
fn boolean_subtract_reverses_the_kept_b_faces() {
    let mut mesh = Mesh::new();
    let mat = MaterialId::new(0);
    let a = make_box(&mut mesh, mat);
    let b = make_box(&mut mesh, mat);
    let before = mesh.collect_loop_verts(mesh.faces[b[0].raw() as usize].outer.start).unwrap();
    let mut in_b = vec![Some(false); 6];
    in_b[0] = Some(true);
    let r = mesh.boolean(&a, &b, 0, &a, &vec![Some(false); 6], &b, &in_b, &[], BoolOp::Subtract).unwrap();
    assert_eq!(r.faces.len(), 7);
    let after = mesh.collect_loop_verts(mesh.faces[b[0].raw() as usize].outer.start).unwrap();
    let mut rev = before.clone();
    rev.reverse();
    rev.rotate_right(2);
    assert_eq!(after, rev);
    assert!(mesh.faces[b[0].raw() as usize].normal_flipped);
}

#[test]
fn coplanar_result_faces_sharing_an_edge_are_merged() {
    let mut mesh = Mesh::new();
    let mat = MaterialId::new(0);
    let v: Vec<VertId> = (0..6).map(|_| mesh.add_vertex().unwrap()).collect();
    let q1 = mesh.add_face(&[v[0], v[1], v[4], v[3]], mat).unwrap();
    let q2 = mesh.add_face(&[v[1], v[2], v[5], v[4]], mat).unwrap();
    let r = mesh.merge_coplanar_result_faces(&[q1, q2], &[(q2, q1)]);
    // The pair is merged into a new face; both inputs leave the list.
    assert!(r.is_empty());
    assert!(!active(&mesh, q1) && !active(&mesh, q2));
    let merged: Vec<usize> = (0..mesh.faces.len()).filter(|&i| mesh.faces[i].present && mesh.faces[i].active).collect();
    assert_eq!(merged.len(), 1);
    let lv = mesh.collect_loop_verts(mesh.faces[merged[0]].outer.start).unwrap();
    assert_eq!(lv.len(), 6);
}

#[test]
fn faces_not_listed_as_coplanar_stay_apart() {
    let mut mesh = Mesh::new();
    let mat = MaterialId::new(0);
    let v: Vec<VertId> = (0..6).map(|_| mesh.add_vertex().unwrap()).collect();
    let q1 = mesh.add_face(&[v[0], v[1], v[4], v[3]], mat).unwrap();
    let q2 = mesh.add_face(&[v[1], v[2], v[5], v[4]], mat).unwrap();
    let r = mesh.merge_coplanar_result_faces(&[q1, q2], &[]);
    assert_eq!(r, vec![q1, q2]);
    assert!(active(&mesh, q1) && active(&mesh, q2));
}
