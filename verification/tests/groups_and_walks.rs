use axia_geo_ops::create_solid::{smooth_group_solid, SolidKind};
use axia_geo_ops::difference_walk::{difference_walk, WalkError, WalkVertex};
use axia_geo_ops::ids::{EdgeId, FaceId, MaterialId, VertId};
use axia_geo_ops::mesh::{Mesh, SurfaceKind};
use axia_geo_ops::smooth_group::SmoothGroupError;

use WalkVertex::{Base, Crossing, Lens};

#[test]
fn difference_of_two_overlapping_squares_is_an_l_shape() {
    // Base square (0,0)-(2,2); lens (1,1)-(2,2); crossings at (2,1) on
    // edge 1 and at (1,2) on edge 2, which are lens vertices 1 and 3.
    let r = difference_walk(4, 4, &[1, 2], false, &[true, true, true, true], &[Some(1), Some(3)]).unwrap();
    assert_eq!(r, vec![Base(0), Base(1), Crossing(0), Lens(0), Crossing(1), Base(3)]);
}

#[test]
fn difference_walk_starts_at_the_first_outside_vertex() {
    let r = difference_walk(4, 4, &[1, 2], false, &[false, true, true, true], &[Some(1), Some(3)]).unwrap();
    assert_eq!(r, vec![Base(1), Crossing(0), Lens(0), Crossing(1), Base(3), Base(0)]);
}

#[test]
fn difference_walk_orders_crossings_on_one_edge() {
    // Both crossings on edge 0; the second lies first along the edge.
    let r = difference_walk(3, 3, &[0, 0], true, &[true, true, true], &[Some(0), Some(2)]).unwrap();
    // Walk: B0, X1 (entry, lens 2), arc back from 2 to 0: lens 1, X0 (exit), B1, B2.
    assert_eq!(r, vec![Base(0), Crossing(1), Lens(1), Crossing(0), Base(1), Base(2)]);
    let r = difference_walk(3, 3, &[0, 0], false, &[true, true, true], &[Some(0), Some(2)]).unwrap();
    // Walk: B0, X0 (entry, lens 0), arc back from 0 to 2: none, X1 (exit), B1, B2.
    assert_eq!(r, vec![Base(0), Crossing(0), Crossing(1), Base(1), Base(2)]);
}

#[test]
fn difference_walk_wraps_the_lens_arc() {
    // Entry at lens vertex 0 and exit at lens vertex 0 walks the whole rest
    // of the lens backwards.
    let r = difference_walk(3, 4, &[0, 1], false, &[true, true, true], &[Some(0), Some(0)]).unwrap();
    assert_eq!(
        r,
        vec![Base(0), Crossing(0), Lens(3), Lens(2), Lens(1), Crossing(1), Base(2)]
    );
}

#[test]
fn difference_walk_errors() {
    assert_eq!(difference_walk(4, 4, &[1], false, &[true; 4], &[Some(0)]), Err(WalkError::CrossingCount(1)));
    assert_eq!(difference_walk(2, 4, &[0, 1], false, &[true; 2], &[Some(0), Some(1)]), Err(WalkError::BaseTooSmall));
    assert_eq!(difference_walk(4, 2, &[0, 1], false, &[true; 4], &[Some(0), Some(1)]), Err(WalkError::LensTooSmall));
    assert_eq!(difference_walk(4, 4, &[0, 7], false, &[true; 4], &[Some(0), Some(1)]), Err(WalkError::EdgeOutOfRange(7)));
    assert_eq!(difference_walk(4, 4, &[0, 1], false, &[false; 4], &[Some(0), Some(1)]), Err(WalkError::NoOutsideVertex));
    assert_eq!(
        difference_walk(4, 4, &[1, 2], false, &[true; 4], &[Some(1), None]),
        Err(WalkError::CrossingNotOnLens(1))
    );
    // The entry crossing is looked up first.
    assert_eq!(
        difference_walk(4, 4, &[1, 2], false, &[true; 4], &[None, None]),
        Err(WalkError::CrossingNotOnLens(0))
    );
    // A lens index past the lens is no lens vertex.
    assert_eq!(
        difference_walk(4, 4, &[1, 2], false, &[true; 4], &[Some(9), Some(1)]),
        Err(WalkError::CrossingNotOnLens(0))
    );
}

fn verts(mesh: &mut Mesh, n: usize) -> Vec<VertId> {
    (0..n).map(|_| mesh.add_vertex().unwrap()).collect()
}

#[test]
fn smooth_group_gathers_faces_vertices_and_edges() {
    let mut mesh = Mesh::new();
    let v = verts(&mut mesh, 6);
    let mat = MaterialId::new(0);
    let f0 = mesh.add_face(&[v[0], v[1], v[2], v[3]], mat).unwrap();
    let f1 = mesh.add_face(&[v[3], v[2], v[4], v[5]], mat).unwrap();
    let f2 = mesh.add_face(&[v[5], v[4], v[1], v[0]], mat).unwrap();
    for f in [f0, f1, f2] {
        mesh.set_face_surface(f, Some(SurfaceKind::Cylinder)).unwrap();
    }
    mesh.faces[f2.raw() as usize].active = false;
    let g = mesh.smooth_group(f1, &[true, true, true]).unwrap();
    assert_eq!(g.faces, vec![f0, f1]);
    assert_eq!(g.verts, vec![v[0], v[1], v[2], v[3], v[4], v[5]]);
    // Two quads sharing one edge: seven distinct edges.
    assert_eq!(g.edges.len(), 7);
    let mut e = g.edges.clone();
    e.sort_by_key(|x: &EdgeId| x.raw());
    e.dedup();
    assert_eq!(e.len(), 7);
    // Only the faces flagged as on the same surface.
    let g = mesh.smooth_group(f1, &[false, true]).unwrap();
    assert_eq!(g.faces, vec![f1]);
    assert_eq!(g.verts, vec![v[2], v[3], v[4], v[5]]);
    assert_eq!(g.edges.len(), 4);
}

#[test]
fn smooth_group_refuses_a_profile_outside_the_group() {
    let mut mesh = Mesh::new();
    let v = verts(&mut mesh, 3);
    let f0 = mesh.add_face(&v, MaterialId::new(0)).unwrap();
    assert_eq!(mesh.smooth_group(f0, &[false]).unwrap_err(), SmoothGroupError::NotInGroup(f0));
    assert_eq!(mesh.smooth_group(f0, &[]).unwrap_err(), SmoothGroupError::NotInGroup(f0));
    let far = FaceId::new(5);
    assert_eq!(mesh.smooth_group(far, &[true; 8]).unwrap_err(), SmoothGroupError::NotInGroup(far));
}

use axia_geo_ops::shared_merge::{multi_shared_boundary, MergeFacesError, SharedMergeError};

fn vids(ids: &[u32]) -> Vec<VertId> {
    ids.iter().map(|&i| VertId::new(i)).collect()
}

#[test]
fn union_boundary_of_an_l_shape_and_the_square_in_its_corner() {
    // On a 3 x 3 grid numbered row by row, the L-shape and the square
    // share the edges 5-4 and 4-7.
    let l = vids(&[0, 2, 5, 4, 7, 6]);
    let sq = vids(&[4, 5, 8, 7]);
    let w = multi_shared_boundary(&l, &sq).unwrap();
    assert_eq!(w, vids(&[0, 2, 5, 8, 7, 6]));
}

#[test]
fn union_boundary_errors() {
    assert_eq!(multi_shared_boundary(&vids(&[0, 1]), &vids(&[0, 1, 2])), Err(SharedMergeError::LoopTooShort));
    assert_eq!(multi_shared_boundary(&vids(&[0, 1, 2]), &vids(&[3, 4, 5])), Err(SharedMergeError::NoSharedEdges));
    // The same triangle twice, wound both ways: every edge is shared.
    assert_eq!(multi_shared_boundary(&vids(&[0, 1, 2]), &vids(&[2, 1, 0])), Err(SharedMergeError::EmptyGraph));
    // Two squares meeting along one edge and at a further corner leave a
    // vertex with four unshared edges.
    let r = multi_shared_boundary(&vids(&[0, 1, 2, 3, 4, 5]), &vids(&[1, 0, 6, 3, 7]));
    match r {
        Err(SharedMergeError::NonSimpleBoundary(v, c)) => {
            assert_eq!(v, VertId::new(3));
            assert_eq!(c, 4);
        },
        other => panic!("expected a non-simple boundary, got {:?}", other),
    }
}

#[test]
fn merge_via_multi_shared_edges_replaces_both_faces() {
    let mut mesh = Mesh::new();
    let v = verts(&mut mesh, 9);
    let mat1 = MaterialId::new(3);
    let f1 = mesh.add_face(&[v[0], v[2], v[5], v[4], v[7], v[6]], mat1).unwrap();
    let f2 = mesh.add_face(&[v[4], v[5], v[8], v[7]], MaterialId::new(5)).unwrap();
    let shared_a = mesh.find_edge(v[4], v[5]).unwrap();
    let shared_b = mesh.find_edge(v[4], v[7]).unwrap();
    let nf = mesh.merge_via_multi_shared_edges(f1, f2, true, &[], false).unwrap();
    assert!(!mesh.faces[f1.raw() as usize].present);
    assert!(!mesh.faces[f2.raw() as usize].present);
    let face = &mesh.faces[nf.raw() as usize];
    assert!(face.present && face.active);
    assert_eq!(face.material, mat1);
    let lp = mesh.collect_loop_verts(face.outer.start).unwrap();
    assert_eq!(lp, vec![v[0], v[2], v[5], v[8], v[7], v[6]]);
    assert!(!mesh.edges[shared_a.raw() as usize].alive);
    assert!(!mesh.edges[shared_b.raw() as usize].alive);
}

#[test]
fn merge_via_multi_shared_edges_simplifies_and_reverses() {
    let mut mesh = Mesh::new();
    let v = verts(&mut mesh, 9);
    let f1 = mesh.add_face(&[v[0], v[2], v[5], v[4], v[7], v[6]], MaterialId::new(0)).unwrap();
    let f2 = mesh.add_face(&[v[4], v[5], v[8], v[7]], MaterialId::new(0)).unwrap();
    // Drop the middle vertices 5 and 7 of the walk [0, 2, 5, 8, 7, 6].
    let keep = [true, true, false, true, false, true];
    let nf = mesh.merge_via_multi_shared_edges(f1, f2, true, &keep, true).unwrap();
    let lp = mesh.collect_loop_verts(mesh.faces[nf.raw() as usize].outer.start).unwrap();
    assert_eq!(lp, vec![v[6], v[8], v[2], v[0]]);
}

#[test]
fn merge_via_multi_shared_edges_errors() {
    let mut mesh = Mesh::new();
    let v = verts(&mut mesh, 9);
    let f1 = mesh.add_face(&[v[0], v[2], v[5], v[4], v[7], v[6]], MaterialId::new(0)).unwrap();
    let f2 = mesh.add_face(&[v[4], v[5], v[8], v[7]], MaterialId::new(0)).unwrap();
    assert_eq!(mesh.merge_via_multi_shared_edges(f1, f1, true, &[], false), Err(MergeFacesError::SameFace));
    assert_eq!(mesh.merge_via_multi_shared_edges(f1, f2, false, &[], false), Err(MergeFacesError::NotCoplanar));
    let far = FaceId::new(40);
    assert_eq!(mesh.merge_via_multi_shared_edges(f1, far, true, &[], false), Err(MergeFacesError::FaceNotFound(far)));
    assert_eq!(
        mesh.merge_via_multi_shared_edges(f1, f2, true, &[false, false, false, false], false),
        Err(MergeFacesError::DegenerateAfterSimplify)
    );
    mesh.faces[f2.raw() as usize].active = false;
    assert_eq!(mesh.merge_via_multi_shared_edges(f1, f2, true, &[], false), Err(MergeFacesError::FaceInactive(f2)));
    // Nothing changed on refusal.
    assert!(mesh.faces[f1.raw() as usize].present);
}

use axia_geo_ops::split_trace::trace_split_pieces;

#[test]
fn a_square_cut_across_splits_into_two_pieces() {
    // Square slots 0, 1, crossing on edge 1, 2, 3, crossing on edge 3.
    let partner = [None, None, Some(5), None, None, Some(2)];
    let pieces = trace_split_pieces(&partner, &[2, 5]);
    assert_eq!(pieces, vec![vec![2, 3, 4, 5], vec![5, 0, 1, 2]]);
}

#[test]
fn split_tracing_skips_repeated_starts_and_short_pieces() {
    let partner = [None, None, Some(5), None, None, Some(2)];
    let pieces = trace_split_pieces(&partner, &[2, 2, 5]);
    assert_eq!(pieces.len(), 2);
    // Crossings on neighbouring slots give a piece of two slots only.
    let partner = [Some(1), Some(0), None];
    let pieces = trace_split_pieces(&partner, &[0, 1]);
    assert_eq!(pieces, vec![vec![1, 2, 0]]);
}

#[test]
fn walk_errors_read_as_messages() {
    assert_eq!(
        WalkError::CrossingCount(4).message(5),
        "polygon_difference_walking: requires exactly 2 crossings, got 4"
    );
    assert!(WalkError::CrossingCount(0).message(4).contains("exactly 2 crossings"));
    assert!(WalkError::BaseTooSmall.message(2).contains("base polygon"));
    assert!(WalkError::LensTooSmall.message(4).contains("lens"));
    assert_eq!(
        WalkError::EdgeOutOfRange(7).message(4),
        "polygon_difference_walking: crossing edge_index 7 out of range (n_base=4)"
    );
}

#[test]
fn smooth_group_solid_lists_the_group_with_the_profile_on_top() {
    let g: Vec<FaceId> = (0..6).map(FaceId::new).collect();
    let r = smooth_group_solid(g[2], g.clone());
    assert_eq!(r.solid_kind, SolidKind::SmoothGroupOffset);
    assert_eq!(r.top_face, g[2]);
    assert_eq!(r.profile_face, g[2]);
    assert_eq!(r.side_faces.len(), 5);
    assert!(!r.side_faces.contains(&g[2]));
    assert_eq!(r.all_solid_faces, g);
    assert_eq!(r.adjacent_splits, 0);
    assert!(r.split_debug.is_empty());
}

#[test]
fn shared_edges_in_separate_regions_are_refused() {
    let v: Vec<VertId> = (0..6).map(VertId::new).collect();
    let (a, b, c, d, x, y) = (v[0], v[1], v[2], v[3], v[4], v[5]);
    // The second loop shares a-b and c-d with the first, on opposite sides.
    let r = multi_shared_boundary(&[a, b, c, d], &[b, a, x, d, c, y]);
    assert_eq!(r, Err(SharedMergeError::SeparateRegions));
}
