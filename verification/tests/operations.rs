use axia_geo_ops::annulus::{
    detect_circle_containment, promote_circles_to_annulus, split_face_by_inner_circle, AnnulusError,
    CircleRelation, FaceRole,
};
use axia_geo_ops::create_solid::{classify_boundary, BoundaryKind};
use axia_geo_ops::fillet::{dispatch_fillet_or_chamfer, FilletDispatch};
use axia_geo_ops::ids::{FaceId, MaterialId, VertId};
use axia_geo_ops::mesh::{CurveKind, Mesh};
use axia_geo_ops::p7::{enforce_p7_canonical, P7EnforceError};
use axia_geo_ops::tolerance::{eps_plane_offset, plane_snap_normal, plane_snap_offset};

fn mat() -> MaterialId {
    MaterialId::new(0)
}

fn circle_face(mesh: &mut Mesh) -> FaceId {
    let anchor = mesh.add_vertex().unwrap();
    mesh.add_face_closed_curve(anchor, CurveKind::Circle, mat()).unwrap()
}

fn verts(mesh: &mut Mesh, n: usize) -> Vec<VertId> {
    (0..n).map(|_| mesh.add_vertex().unwrap()).collect()
}

fn quad(mesh: &mut Mesh) -> FaceId {
    let v = verts(mesh, 4);
    mesh.add_face(&v, mat()).unwrap()
}

fn face(mesh: &Mesh, f: FaceId) -> &axia_geo_ops::mesh::Face {
    &mesh.faces[f.raw() as usize]
}

#[test]
fn fillet_dispatch_chooses_brep_when_curve_present() {
    assert_eq!(dispatch_fillet_or_chamfer(true, true), FilletDispatch::BRep);
    assert_eq!(dispatch_fillet_or_chamfer(true, false), FilletDispatch::Mesh);
    assert_eq!(dispatch_fillet_or_chamfer(false, true), FilletDispatch::Mesh);
    assert_eq!(dispatch_fillet_or_chamfer(false, false), FilletDispatch::Mesh);
}

#[test]
fn adr151_enforce_error_display() {
    let e1 = P7EnforceError::InvalidInput {
        container_active: false,
        inner_count_active: 0,
        inner_count_total: 2,
    };
    let s1 = e1.to_display_string();
    assert!(s1.contains("InvalidInput"));
    assert!(s1.contains("0/2"));

    let e2 = P7EnforceError::NoComponents;
    assert!(e2.to_display_string().contains("NoComponents"));

    let e3 = P7EnforceError::PerimeterFailed {
        component_index: 1,
        reason: "no boundary HE".into(),
    };
    let s3 = e3.to_display_string();
    assert!(s3.contains("PerimeterFailed"));
    assert!(s3.contains("component 1"));

    let e4 = P7EnforceError::RebuildDeferred {
        component_count: 2,
        hole_loop_lengths: vec![6, 4],
    };
    let s4 = e4.to_display_string();
    assert!(s4.contains("RebuildDeferred"));
    assert!(s4.contains("β-2 scope"));
}

#[test]
fn adr168_plane_snap_normal_default_value() {
    let t = plane_snap_normal();
    assert_eq!(t.num as f64 / t.den as f64, 1e-3);
}

#[test]
fn adr168_plane_snap_offset_default_value() {
    let t = plane_snap_offset();
    assert_eq!(t.num as f64 / t.den as f64, 1e-4);
    let d = eps_plane_offset();
    assert!(
        t.lt(&d),
        "PLANE_SNAP_OFFSET ({}) must be stricter than EPS_PLANE_OFFSET ({})",
        t.num as f64 / t.den as f64,
        d.num as f64 / d.den as f64
    );
}

// ── annulus ─────────────────────────────────────────────────────────────

#[test]
fn adr145_beta1plus_promote_concentric_circles_succeeds() {
    let mut mesh = Mesh::new();
    let outer = circle_face(&mut mesh);
    let inner = circle_face(&mut mesh);
    assert_eq!(face(&mesh, outer).inners.len(), 0);
    assert!(face(&mesh, inner).active);
    let result = promote_circles_to_annulus(&mut mesh, outer, inner, CircleRelation::FirstContainsSecond);
    assert!(result.is_ok(), "expected Ok; got {:?}", result);
    assert_eq!(face(&mesh, outer).inners.len(), 1);
    assert!(!face(&mesh, inner).active);
}

#[test]
fn adr185_split_keeps_inner_disk_ring_plus_disk() {
    let mut mesh = Mesh::new();
    let outer = circle_face(&mut mesh);
    let inner = circle_face(&mut mesh);
    let result = split_face_by_inner_circle(&mut mesh, outer, inner, CircleRelation::FirstContainsSecond);
    assert!(result.is_ok(), "expected Ok; got {:?}", result);
    assert_eq!(face(&mesh, outer).inners.len(), 1);
    assert!(face(&mesh, outer).active);
    assert!(face(&mesh, inner).active);
    // The edge of the inner circle now carries two face-bearing half-edges:
    // the disk's boundary and the ring's hole.
    let hole = face(&mesh, outer).inners[0].start;
    let disk = face(&mesh, inner).outer.start;
    let h_hole = mesh.hes[hole.raw() as usize];
    let h_disk = mesh.hes[disk.raw() as usize];
    assert_eq!(h_hole.edge, h_disk.edge);
    assert_eq!(h_hole.face, outer);
    assert_eq!(h_disk.face, inner);
    assert!(mesh.is_well_formed());
}

#[test]
fn adr185_split_rejects_not_contained() {
    let mut mesh = Mesh::new();
    let outer = circle_face(&mut mesh);
    let inner = circle_face(&mut mesh);
    let result = split_face_by_inner_circle(&mut mesh, outer, inner, CircleRelation::Neither);
    assert!(matches!(result, Err(AnnulusError::InnerNotContained)), "got {:?}", result);
}

#[test]
fn adr145_beta1_rejects_inactive_outer() {
    let mut mesh = Mesh::new();
    let outer = circle_face(&mut mesh);
    let inner = circle_face(&mut mesh);
    mesh.faces[outer.raw() as usize].active = false;
    let result = promote_circles_to_annulus(&mut mesh, outer, inner, CircleRelation::FirstContainsSecond);
    assert!(
        matches!(result, Err(AnnulusError::InactiveFace { role: FaceRole::Outer, .. })),
        "got {:?}",
        result
    );
}

#[test]
fn adr145_beta1_rejects_not_coplanar() {
    let mut mesh = Mesh::new();
    let outer = circle_face(&mut mesh);
    let inner = circle_face(&mut mesh);
    let result = promote_circles_to_annulus(&mut mesh, outer, inner, CircleRelation::NotCoplanar);
    assert!(matches!(result, Err(AnnulusError::NotCoplanar)), "got {:?}", result);
}

#[test]
fn adr145_beta1_rejects_inner_not_contained_off_center() {
    let mut mesh = Mesh::new();
    let outer = circle_face(&mut mesh);
    let inner = circle_face(&mut mesh);
    let result = promote_circles_to_annulus(&mut mesh, outer, inner, CircleRelation::Neither);
    assert!(matches!(result, Err(AnnulusError::InnerNotContained)), "got {:?}", result);
}

#[test]
fn adr145_beta1_rejects_inner_larger_than_outer() {
    let mut mesh = Mesh::new();
    let outer = circle_face(&mut mesh);
    let inner = circle_face(&mut mesh);
    let result = promote_circles_to_annulus(&mut mesh, outer, inner, CircleRelation::SecondContainsFirst);
    assert!(matches!(result, Err(AnnulusError::InnerNotContained)), "got {:?}", result);
}

#[test]
fn adr145_beta1plus_annulus_preserves_manifold_invariants() {
    let mut mesh = Mesh::new();
    let outer = circle_face(&mut mesh);
    let inner = circle_face(&mut mesh);
    promote_circles_to_annulus(&mut mesh, outer, inner, CircleRelation::FirstContainsSecond).expect("promote OK");
    assert!(mesh.is_well_formed());
    let hole = face(&mesh, outer).inners[0].start;
    let h = mesh.hes[hole.raw() as usize];
    assert_eq!(h.face, outer);
    assert!(!h.is_outer);
    assert_eq!(h.next, hole);
}

#[test]
fn annulus_rejects_polygon_face_as_not_circle() {
    let mut mesh = Mesh::new();
    let outer = quad(&mut mesh);
    let inner = circle_face(&mut mesh);
    let result = promote_circles_to_annulus(&mut mesh, outer, inner, CircleRelation::FirstContainsSecond);
    assert_eq!(result, Err(AnnulusError::NotCircleFace { face_id: outer.raw(), role: FaceRole::Outer }));
}

#[test]
fn detect_circle_containment_orders_outer_first() {
    let mut mesh = Mesh::new();
    let a = circle_face(&mut mesh);
    let b = circle_face(&mut mesh);
    let q = quad(&mut mesh);
    assert_eq!(detect_circle_containment(&mesh, a, b, CircleRelation::FirstContainsSecond), Some((a, b)));
    assert_eq!(detect_circle_containment(&mesh, a, b, CircleRelation::SecondContainsFirst), Some((b, a)));
    assert_eq!(detect_circle_containment(&mesh, a, b, CircleRelation::Neither), None);
    assert_eq!(detect_circle_containment(&mesh, a, b, CircleRelation::NotCoplanar), None);
    assert_eq!(detect_circle_containment(&mesh, a, q, CircleRelation::FirstContainsSecond), None);
}

// ── classify_boundary ───────────────────────────────────────────────────

#[test]
fn classify_boundary_all_linear_for_unit_square() {
    let mut mesh = Mesh::new();
    let f = quad(&mut mesh);
    let kind = classify_boundary(&mesh, f).expect("classify OK");
    assert_eq!(kind, BoundaryKind::AllLinear);
}

#[test]
fn classify_boundary_all_circular_for_circle_face() {
    let mut mesh = Mesh::new();
    let v = verts(&mut mesh, 12);
    let f = mesh.add_face(&v, mat()).expect("add_face");
    for e in mesh.face_outer_edges(f).expect("face_outer_edges") {
        mesh.set_edge_curve(e, Some(CurveKind::Arc)).unwrap();
    }
    let kind = classify_boundary(&mesh, f).expect("classify OK");
    assert_eq!(kind, BoundaryKind::AllCircular);
}

#[test]
fn classify_boundary_mixed_for_line_and_arc() {
    let mut mesh = Mesh::new();
    let f = quad(&mut mesh);
    let e = mesh.face_outer_edges(f).unwrap()[1];
    mesh.set_edge_curve(e, Some(CurveKind::Arc)).unwrap();
    assert_eq!(classify_boundary(&mesh, f).unwrap(), BoundaryKind::Mixed);
    let mut mesh2 = Mesh::new();
    let g = quad(&mut mesh2);
    let e2 = mesh2.face_outer_edges(g).unwrap()[3];
    mesh2.set_edge_curve(e2, Some(CurveKind::Bezier)).unwrap();
    assert_eq!(classify_boundary(&mesh2, g).unwrap(), BoundaryKind::Mixed);
}

// ── P7 resolver ─────────────────────────────────────────────────────────

#[test]
fn adr151_enforce_invalid_container() {
    let mut mesh = Mesh::new();
    let inner = quad(&mut mesh);
    let bogus_container = FaceId::new(99_999);
    let result = enforce_p7_canonical(&mut mesh, bogus_container, &[inner]);
    match result {
        Err(P7EnforceError::InvalidInput { container_active, inner_count_active, inner_count_total }) => {
            assert!(!container_active, "bogus container should be inactive");
            assert_eq!(inner_count_active, 1);
            assert_eq!(inner_count_total, 1);
        }
        other => panic!("expected InvalidInput, got {:?}", other),
    }
}

#[test]
fn adr151_enforce_empty_inners() {
    let mut mesh = Mesh::new();
    let container = quad(&mut mesh);
    let result = enforce_p7_canonical(&mut mesh, container, &[]);
    match result {
        Err(P7EnforceError::InvalidInput { inner_count_active, .. }) => {
            assert_eq!(inner_count_active, 0);
        }
        other => panic!("expected InvalidInput, got {:?}", other),
    }
}

#[test]
fn adr151_enforce_canonical_two_connected_inners_deferred() {
    let mut mesh = Mesh::new();
    let container = quad(&mut mesh);
    // Two inner quads sharing the edge b1-c1.
    let v = verts(&mut mesh, 6);
    let (a, b, c, d, e, f) = (v[0], v[1], v[2], v[3], v[4], v[5]);
    let i1 = mesh.add_face(&[a, b, c, d], mat()).unwrap();
    let i2 = mesh.add_face(&[d, c, e, f], mat()).unwrap();
    let result = enforce_p7_canonical(&mut mesh, container, &[i1, i2]);
    match result {
        Err(P7EnforceError::RebuildDeferred { component_count, hole_loop_lengths }) => {
            assert!(component_count >= 1, "expected ≥1 component, got {}", component_count);
            assert_eq!(hole_loop_lengths.len(), component_count);
            for (i, &len) in hole_loop_lengths.iter().enumerate() {
                assert!(len >= 3, "hole loop {} should have ≥3 verts, got {}", i, len);
            }
            assert_eq!(component_count, 1);
            assert_eq!(hole_loop_lengths, vec![6]);
        }
        other => panic!("expected RebuildDeferred, got {:?}", other),
    }
}

#[test]
fn adr151_enforce_multi_component_disjoint_inners() {
    let mut mesh = Mesh::new();
    let container = quad(&mut mesh);
    let i1 = quad(&mut mesh);
    let i2 = quad(&mut mesh);
    let result = enforce_p7_canonical(&mut mesh, container, &[i1, i2]);
    match result {
        Err(P7EnforceError::RebuildDeferred { component_count, hole_loop_lengths }) => {
            assert_eq!(component_count, 2, "2 disjoint inners → 2 components");
            assert_eq!(hole_loop_lengths.len(), 2);
        }
        other => panic!("expected RebuildDeferred(2), got {:?}", other),
    }
}

#[test]
fn adr151_enforce_no_mutation_in_beta1() {
    let mut mesh = Mesh::new();
    let container = quad(&mut mesh);
    let inner = quad(&mut mesh);
    let faces_before = mesh.faces.iter().filter(|f| f.present).count();
    let active_before = mesh.faces.iter().filter(|f| f.present && f.active).count();
    let hes_before = mesh.hes.clone();
    let _result = enforce_p7_canonical(&mut mesh, container, &[inner]);
    let faces_after = mesh.faces.iter().filter(|f| f.present).count();
    let active_after = mesh.faces.iter().filter(|f| f.present && f.active).count();
    assert_eq!(faces_before, faces_after, "must not add/remove faces");
    assert_eq!(active_before, active_after, "must not change active count");
    assert_eq!(hes_before, mesh.hes);
}
