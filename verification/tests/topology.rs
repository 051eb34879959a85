use axia_geo_ops::boolean::{boolean_keeps, dedup_consecutive_verts, pair_intersection_points, BoolOp};
use axia_geo_ops::create_solid::{
    create_solid_route, ExtrudeError, ExtrudeRoute, SolidKind, SolidRouteError,
};
use axia_geo_ops::ids::{EdgeId, FaceId, MaterialId, VertId};
use axia_geo_ops::mesh::{CurveKind, Mesh, MeshError, SurfaceKind};
use axia_geo_ops::offset::{surfaces_equivalent, OffsetHostError};

fn mat() -> MaterialId {
    MaterialId::new(0)
}

fn verts(mesh: &mut Mesh, n: usize) -> Vec<VertId> {
    (0..n).map(|_| mesh.add_vertex().unwrap()).collect()
}

fn loop_of(mesh: &Mesh, f: FaceId) -> Vec<VertId> {
    mesh.collect_loop_verts(mesh.faces[f.raw() as usize].outer.start).unwrap()
}

fn present(mesh: &Mesh, f: FaceId) -> bool {
    mesh.faces[f.raw() as usize].present
}

fn vid(i: u32) -> VertId {
    VertId::new(i)
}

#[test]
fn flip_face_twice_restores_the_loop_and_the_normal_flag() {
    let mut mesh = Mesh::new();
    let v = verts(&mut mesh, 4);
    let f = mesh.add_face(&v, mat()).unwrap();
    let before = loop_of(&mesh, f);
    mesh.flip_face(f).unwrap();
    let flipped = loop_of(&mesh, f);
    assert_ne!(flipped, before);
    let mut rev = before.clone();
    rev.reverse();
    let mut sorted_flipped = flipped.clone();
    sorted_flipped.sort_by_key(|x| x.raw());
    let mut sorted_rev = rev.clone();
    sorted_rev.sort_by_key(|x| x.raw());
    assert_eq!(sorted_flipped, sorted_rev);
    assert!(mesh.faces[f.raw() as usize].normal_flipped);
    mesh.flip_face(f).unwrap();
    assert_eq!(loop_of(&mesh, f), before);
    assert!(!mesh.faces[f.raw() as usize].normal_flipped);
}

#[test]
fn orient_faces_visits_every_active_face() {
    let mut mesh = Mesh::new();
    let v = verts(&mut mesh, 6);
    mesh.add_face(&[v[0], v[1], v[4], v[3]], mat()).unwrap();
    mesh.add_face(&[v[1], v[4], v[5], v[2]], mat()).unwrap();
    let r = mesh.orient_faces().unwrap();
    assert_eq!(r.visited, 2);
    assert!(r.flipped <= r.visited);
    assert!(mesh.is_well_formed());
}

#[test]
fn dedup_consecutive_verts_collapses_runs_and_the_closing_repeat() {
    let r = dedup_consecutive_verts(&[vid(1), vid(1), vid(2), vid(3), vid(3), vid(1)]);
    assert_eq!(r, vec![vid(1), vid(2), vid(3)]);
    assert_eq!(dedup_consecutive_verts(&[]), Vec::<VertId>::new());
    assert_eq!(dedup_consecutive_verts(&[vid(7), vid(7)]), vec![vid(7)]);
}

#[test]
fn pair_intersection_points_pairs_in_order_and_drops_the_odd_one() {
    assert_eq!(pair_intersection_points(&[4, 2, 9, 1, 5]), vec![(4, 2), (9, 1)]);
    assert_eq!(pair_intersection_points(&[3]), Vec::<(usize, usize)>::new());
}

#[test]
fn soft_remove_keeps_links_and_remove_face_kills_half_edges() {
    let mut mesh = Mesh::new();
    let v = verts(&mut mesh, 3);
    let f = mesh.add_face(&v, mat()).unwrap();
    let start = mesh.faces[f.raw() as usize].outer.start;
    let next = mesh.hes[start.raw() as usize].next;
    mesh.soft_remove_face(f).unwrap();
    assert!(!present(&mesh, f));
    let he = mesh.hes[start.raw() as usize];
    assert!(he.alive);
    assert!(he.face.is_null());
    assert_eq!(he.next, next);
    assert!(matches!(mesh.soft_remove_face(f), Err(MeshError::FaceNotFound(_))));

    let g = mesh.add_face(&v, mat()).unwrap();
    let gs = mesh.faces[g.raw() as usize].outer.start;
    mesh.remove_face(g).unwrap();
    assert!(!present(&mesh, g));
    assert!(!mesh.hes[gs.raw() as usize].alive);
    assert!(mesh.find_edge(v[0], v[1]).is_some());
}

#[test]
fn surfaces_equivalent_compares_kinds_and_planes() {
    assert!(surfaces_equivalent(None, None, false));
    assert!(!surfaces_equivalent(Some(SurfaceKind::Plane), None, true));
    assert!(surfaces_equivalent(Some(SurfaceKind::Plane), Some(SurfaceKind::Plane), true));
    assert!(!surfaces_equivalent(Some(SurfaceKind::Plane), Some(SurfaceKind::Plane), false));
    assert!(surfaces_equivalent(Some(SurfaceKind::Sphere), Some(SurfaceKind::Sphere), false));
    assert!(!surfaces_equivalent(Some(SurfaceKind::Sphere), Some(SurfaceKind::Cone), true));
}

fn plane_quad(mesh: &mut Mesh, v: &[VertId]) -> FaceId {
    let f = mesh.add_face(v, mat()).unwrap();
    mesh.set_face_surface(f, Some(SurfaceKind::Plane)).unwrap();
    f
}

#[test]
fn offset_edge_host_resolves_plane_hosts_and_reports_each_refusal() {
    let mut mesh = Mesh::new();
    let v = verts(&mut mesh, 6);
    let f1 = plane_quad(&mut mesh, &[v[0], v[1], v[4], v[3]]);
    let f2 = plane_quad(&mut mesh, &[v[4], v[1], v[2], v[5]]);
    let shared = mesh.find_edge(v[1], v[4]).unwrap();
    let outer = mesh.find_edge(v[0], v[1]).unwrap();
    assert_eq!(mesh.offset_edge_host(outer, &[]), Ok(f1));
    assert_eq!(mesh.offset_edge_host(shared, &[true]), Ok(f1));
    assert_eq!(
        mesh.offset_edge_host(shared, &[false]),
        Err(OffsetHostError::AmbiguousHostFace { n_faces: 2 })
    );
    mesh.set_face_surface(f2, Some(SurfaceKind::Sphere)).unwrap();
    assert_eq!(
        mesh.offset_edge_host(shared, &[true]),
        Err(OffsetHostError::AmbiguousHostFace { n_faces: 2 })
    );
    mesh.set_face_surface(f1, Some(SurfaceKind::Cylinder)).unwrap();
    assert_eq!(
        mesh.offset_edge_host(outer, &[]),
        Err(OffsetHostError::UnsupportedHostSurface(SurfaceKind::Cylinder))
    );
    mesh.set_face_surface(f1, None).unwrap();
    assert_eq!(mesh.offset_edge_host(outer, &[]), Err(OffsetHostError::NoHostSurface(f1)));

    let (wire, _) = mesh.add_edge(v[3], v[5]).unwrap();
    assert_eq!(mesh.offset_edge_host(wire, &[]), Err(OffsetHostError::NoIncidentFace));
    mesh.set_edge_curve(wire, Some(CurveKind::Arc)).unwrap();
    assert_eq!(
        mesh.offset_edge_host(wire, &[]),
        Err(OffsetHostError::UnsupportedCurveKind(CurveKind::Arc))
    );
    mesh.remove_edge_and_halfedges(wire).unwrap();
    assert_eq!(mesh.offset_edge_host(wire, &[]), Err(OffsetHostError::EdgeInactive(wire)));
    let far = EdgeId::new(1000);
    assert_eq!(mesh.offset_edge_host(far, &[]), Err(OffsetHostError::EdgeNotFound(far)));
}

#[test]
fn offset_edge_host_refuses_a_host_with_holes() {
    let mut mesh = Mesh::new();
    let o = verts(&mut mesh, 4);
    let h = verts(&mut mesh, 3);
    let ring = mesh.add_face_with_holes(&o, &[h.clone()], mat()).unwrap();
    mesh.set_face_surface(ring, Some(SurfaceKind::Plane)).unwrap();
    let e = mesh.find_edge(o[0], o[1]).unwrap();
    assert_eq!(mesh.offset_edge_host(e, &[]), Err(OffsetHostError::MultiLoopHostFace(ring)));
}

#[test]
fn add_parallel_edge_adds_two_vertices_and_their_edge() {
    let mut mesh = Mesh::new();
    verts(&mut mesh, 2);
    let r = mesh.add_parallel_edge().unwrap();
    assert_eq!((r.new_v0.raw(), r.new_v1.raw()), (2, 3));
    assert_eq!(mesh.find_edge(r.new_v0, r.new_v1), Some(r.new_edge));
    assert_eq!(mesh.verts.len(), 4);
}

#[test]
fn offset_face_inset_builds_inner_face_and_frame() {
    let mut mesh = Mesh::new();
    let v = verts(&mut mesh, 4);
    let f = mesh.add_face(&v, mat()).unwrap();
    let r = mesh.offset_face(f, true).unwrap();
    assert_eq!(r.original_face, f);
    assert!(!present(&mesh, f));
    assert_eq!(r.strip_faces.len(), 1);
    let inner = loop_of(&mesh, r.inner_face);
    assert_eq!(inner, vec![vid(4), vid(5), vid(6), vid(7)]);
    let frame = r.strip_faces[0];
    assert_eq!(loop_of(&mesh, frame), v);
    let hole = mesh.faces[frame.raw() as usize].inners[0].start;
    assert_eq!(mesh.collect_loop_verts(hole).unwrap(), inner);
}

#[test]
fn offset_face_outset_swaps_the_frame_loops_and_checks_its_face() {
    let mut mesh = Mesh::new();
    let v = verts(&mut mesh, 3);
    let f = mesh.add_face(&v, mat()).unwrap();
    let r = mesh.offset_face(f, false).unwrap();
    let frame = r.strip_faces[0];
    assert_eq!(loop_of(&mesh, frame), vec![vid(3), vid(4), vid(5)]);
    let hole = mesh.faces[frame.raw() as usize].inners[0].start;
    assert_eq!(mesh.collect_loop_verts(hole).unwrap(), v);
    assert!(matches!(mesh.offset_face(f, true), Err(MeshError::FaceNotFound(_))));
    let g = mesh.add_face(&v, mat()).unwrap();
    mesh.faces[g.raw() as usize].active = false;
    assert!(matches!(mesh.offset_face(g, true), Err(MeshError::FaceInactive(_))));
}

#[test]
fn boolean_keeps_follows_the_operation() {
    assert!(boolean_keeps(BoolOp::Union, true, false));
    assert!(!boolean_keeps(BoolOp::Union, false, true));
    assert!(boolean_keeps(BoolOp::Subtract, true, false));
    assert!(boolean_keeps(BoolOp::Subtract, false, true));
    assert!(!boolean_keeps(BoolOp::Subtract, false, false));
    assert!(boolean_keeps(BoolOp::Intersect, true, true));
    assert!(!boolean_keeps(BoolOp::Intersect, true, false));
}

#[test]
fn boolean_subtract_keeps_flips_and_removes() {
    let mut mesh = Mesh::new();
    let v = verts(&mut mesh, 12);
    let a0 = mesh.add_face(&v[0..3], mat()).unwrap();
    let a1 = mesh.add_face(&v[3..6], mat()).unwrap();
    let b0 = mesh.add_face(&v[6..9], mat()).unwrap();
    let b1 = mesh.add_face(&v[9..12], mat()).unwrap();
    let r = mesh
        .boolean(
            &[a0, a1],
            &[b0],
            0,
            &[a0, a1],
            &[Some(false), Some(true)],
            &[b0, b1],
            &[Some(true), None],
            &[],
            BoolOp::Subtract,
        )
        .unwrap();
    assert_eq!(r.faces, vec![a0, b0]);
    assert_eq!(r.new_verts, 1);
    assert!(present(&mesh, a0));
    assert!(!present(&mesh, a1));
    assert!(present(&mesh, b0));
    assert!(!present(&mesh, b1));
    assert!(mesh.faces[b0.raw() as usize].normal_flipped);
    assert!(!mesh.faces[a0.raw() as usize].normal_flipped);
}

#[test]
fn classify_split_faces_skips_inactive_and_centroidless_faces() {
    let mut mesh = Mesh::new();
    let v = verts(&mut mesh, 9);
    let a0 = mesh.add_face(&v[0..3], mat()).unwrap();
    let a1 = mesh.add_face(&v[3..6], mat()).unwrap();
    let a2 = mesh.add_face(&v[6..9], mat()).unwrap();
    mesh.faces[a1.raw() as usize].active = false;
    let (ka, kb) = mesh.classify_split_faces(
        &[a0, a1, a2],
        &[Some(true), Some(true), None],
        &[a2],
        &[Some(false)],
        BoolOp::Intersect,
    );
    assert_eq!(ka, vec![a0]);
    assert!(kb.is_empty());
}

#[test]
fn create_box_builds_six_outward_quads() {
    let mut mesh = Mesh::new();
    verts(&mut mesh, 1);
    let fs = mesh.create_box(mat()).unwrap();
    assert_eq!(fs.len(), 6);
    assert_eq!(mesh.verts.len(), 9);
    assert_eq!(loop_of(&mesh, fs[0]), vec![vid(1), vid(2), vid(6), vid(5)]);
    assert_eq!(loop_of(&mesh, fs[5]), vec![vid(1), vid(5), vid(8), vid(4)]);
    for f in &fs {
        assert_eq!(mesh.faces[f.raw() as usize].surface, Some(SurfaceKind::Plane));
    }
    // Twelve edges, each shared by two faces.
    assert_eq!(mesh.edges.len(), 12);
    for e in 0..12u32 {
        assert_eq!(mesh.get_faces_sharing_edge(EdgeId::new(e)).len(), 2);
    }
}

#[test]
fn create_cylinder_and_cone_build_caps_and_sides() {
    let mut mesh = Mesh::new();
    let fs = mesh.create_cylinder(8, mat()).unwrap();
    assert_eq!(fs.len(), 10);
    assert_eq!(mesh.verts.len(), 16);
    assert_eq!(
        loop_of(&mesh, fs[0]),
        (0..8u32).rev().map(vid).collect::<Vec<_>>()
    );
    assert_eq!(loop_of(&mesh, fs[1]), (8..16u32).map(vid).collect::<Vec<_>>());
    assert_eq!(loop_of(&mesh, fs[9]), vec![vid(7), vid(0), vid(8), vid(15)]);
    assert_eq!(mesh.faces[fs[0].raw() as usize].surface, Some(SurfaceKind::Plane));
    assert_eq!(mesh.faces[fs[2].raw() as usize].surface, Some(SurfaceKind::Cylinder));

    let cs = mesh.create_cone(5, mat(), None).unwrap();
    assert_eq!(cs.len(), 7);
    assert_eq!(mesh.faces[cs[3].raw() as usize].surface, None);
    assert_eq!(mesh.faces[cs[1].raw() as usize].surface, Some(SurfaceKind::Plane));
}

#[test]
fn create_prism_with_too_few_segments_adds_only_the_rings() {
    let mut mesh = Mesh::new();
    assert_eq!(mesh.create_cylinder(2, mat()), Err(MeshError::DegenerateLoop));
    assert_eq!(mesh.verts.len(), 4);
    assert!(mesh.faces.is_empty());
}

#[test]
fn create_sphere_builds_fans_and_quads() {
    let mut mesh = Mesh::new();
    let fs = mesh.create_sphere(4, 3, mat()).unwrap();
    assert_eq!(fs.len(), 12);
    assert_eq!(mesh.verts.len(), 2 + 2 * 4);
    assert_eq!(loop_of(&mesh, fs[0]), vec![vid(0), vid(3), vid(2)]);
    assert_eq!(loop_of(&mesh, fs[4]), vec![vid(2), vid(3), vid(7), vid(6)]);
    assert_eq!(loop_of(&mesh, fs[11]), vec![vid(9), vid(6), vid(1)]);
    for f in &fs {
        assert_eq!(mesh.faces[f.raw() as usize].surface, Some(SurfaceKind::Sphere));
    }
    assert_eq!(mesh.create_sphere(2, 5, mat()), Err(MeshError::TooFewSegments));
    assert_eq!(mesh.create_sphere(5, 1, mat()), Err(MeshError::TooFewSegments));
    assert_eq!(mesh.faces.len(), 12);
}

#[test]
fn create_solid_route_follows_surface_and_boundary() {
    let mut mesh = Mesh::new();
    let v = verts(&mut mesh, 4);
    let f = mesh.add_face(&v, mat()).unwrap();
    assert_eq!(create_solid_route(&mesh, f, false), Err(SolidRouteError::NoProfileSurface));
    mesh.set_face_surface(f, Some(SurfaceKind::Plane)).unwrap();
    assert_eq!(create_solid_route(&mesh, f, false), Ok(ExtrudeRoute::PlanarBox));
    assert_eq!(create_solid_route(&mesh, f, true), Err(SolidRouteError::DegenerateDistance));
    let e = mesh.find_edge(v[0], v[1]).unwrap();
    mesh.set_edge_curve(e, Some(CurveKind::Arc)).unwrap();
    assert_eq!(create_solid_route(&mesh, f, false), Err(SolidRouteError::PlaneMixedBoundary));
    mesh.set_face_surface(f, Some(SurfaceKind::Torus)).unwrap();
    assert_eq!(create_solid_route(&mesh, f, false), Ok(ExtrudeRoute::SmoothGroupTorus));
    mesh.set_face_surface(f, Some(SurfaceKind::Nurbs)).unwrap();
    assert_eq!(create_solid_route(&mesh, f, false), Ok(ExtrudeRoute::NurbsClassProfile));
    let far = FaceId::new(50);
    assert_eq!(create_solid_route(&mesh, far, true), Err(SolidRouteError::FaceNotFound));

    let anchor = mesh.add_vertex().unwrap();
    let c = mesh.add_face_closed_curve(anchor, CurveKind::Circle, mat()).unwrap();
    mesh.set_face_surface(c, Some(SurfaceKind::Plane)).unwrap();
    assert_eq!(create_solid_route(&mesh, c, false), Ok(ExtrudeRoute::PlanarCylinder));
}

#[test]
fn extrude_planar_builds_top_and_walls() {
    let mut mesh = Mesh::new();
    let v = verts(&mut mesh, 4);
    let f = mesh.add_face(&v, mat()).unwrap();
    let r = mesh.extrude_planar(f, true, mat(), SolidKind::Box).unwrap();
    assert_eq!(r.profile_face, f);
    assert_eq!(r.solid_kind, SolidKind::Box);
    assert_eq!(r.side_faces.len(), 4);
    assert_eq!(r.all_solid_faces.len(), 6);
    assert_eq!(r.all_solid_faces[0], f);
    assert_eq!(r.all_solid_faces[1], r.top_face);
    assert_eq!(r.adjacent_splits, 0);
    assert!(r.split_debug.is_empty());
    assert_eq!(loop_of(&mesh, r.top_face), vec![vid(4), vid(5), vid(6), vid(7)]);
    assert_eq!(loop_of(&mesh, r.side_faces[0]), vec![vid(0), vid(1), vid(5), vid(4)]);
    assert!(present(&mesh, f));

    let down = mesh.extrude_planar(r.top_face, false, mat(), SolidKind::Cylinder).unwrap();
    assert_eq!(loop_of(&mesh, down.side_faces[0]), vec![vid(5), vid(4), vid(8), vid(9)]);
    assert_eq!(
        mesh.faces[down.side_faces[0].raw() as usize].surface,
        Some(SurfaceKind::Cylinder)
    );

    let anchor = mesh.add_vertex().unwrap();
    let c = mesh.add_face_closed_curve(anchor, CurveKind::Circle, mat()).unwrap();
    assert!(matches!(
        mesh.extrude_planar(c, true, mat(), SolidKind::Cylinder),
        Err(ExtrudeError::TooFewBoundaryVerts(1))
    ));
}

#[test]
fn orient_faces_leaves_a_consistent_mesh_alone() {
    let mut mesh = Mesh::new();
    let v = verts(&mut mesh, 6);
    // Two quads running their shared edge 1-2 in opposite directions.
    let f0 = mesh.add_face(&[v[0], v[1], v[2], v[3]], mat()).unwrap();
    let f1 = mesh.add_face(&[v[1], v[4], v[5], v[2]], mat()).unwrap();
    let before0 = loop_of(&mesh, f0);
    let before1 = loop_of(&mesh, f1);
    let r = mesh.orient_faces().unwrap();
    assert_eq!(r.flipped, 0);
    assert_eq!(r.visited, 2);
    assert_eq!(loop_of(&mesh, f0), before0);
    assert_eq!(loop_of(&mesh, f1), before1);
}

#[test]
fn orient_faces_flips_a_neighbour_running_the_same_way() {
    let mut mesh = Mesh::new();
    let v = verts(&mut mesh, 6);
    let f0 = mesh.add_face(&[v[0], v[1], v[2], v[3]], mat()).unwrap();
    // Runs the shared edge 1-2 the same way as the first face.
    let f1 = mesh.add_face(&[v[2], v[5], v[4], v[1]], mat()).unwrap();
    let r = mesh.orient_faces().unwrap();
    assert_eq!(r.flipped, 1);
    assert_eq!(r.visited, 2);
    let l1 = loop_of(&mesh, f1);
    let i = l1.iter().position(|x| *x == v[2]).unwrap();
    assert_eq!(l1[(i + 1) % 4], v[1]);
    let _ = f0;
}

#[test]
fn orphan_edges_are_live_edges_no_active_face_uses() {
    let mut mesh = Mesh::new();
    let v = verts(&mut mesh, 5);
    let f = mesh.add_face(&v[0..3], mat()).unwrap();
    let (wire, _) = mesh.add_edge(v[3], v[4]).unwrap();
    assert_eq!(mesh.orphan_edges(), vec![wire]);
    mesh.faces[f.raw() as usize].active = false;
    let all = mesh.orphan_edges();
    assert_eq!(all.len(), 4);
    assert!(all.contains(&wire));
}
