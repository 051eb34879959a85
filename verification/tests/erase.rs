use axia_geo_ops::erase_resynth::{EraseResynthResult, EraseStep};
use axia_geo_ops::ids::{EdgeId, FaceId, MaterialId, VertId};
use axia_geo_ops::mesh::{Mesh, MeshError};

fn mat() -> MaterialId {
    MaterialId::new(0)
}

fn verts(mesh: &mut Mesh, n: usize) -> Vec<VertId> {
    (0..n).map(|_| mesh.add_vertex().unwrap()).collect()
}

fn present(mesh: &Mesh, f: FaceId) -> bool {
    mesh.faces[f.raw() as usize].present
}

fn edge_alive(mesh: &Mesh, e: EdgeId) -> bool {
    mesh.edges[e.raw() as usize].alive
}

fn finish_with_no_faces(mesh: &mut Mesh, step: EraseStep, cleanup: bool) -> EraseResynthResult {
    match step {
        EraseStep::Done(r) => r,
        EraseStep::Resynthesize { removed_faces, .. } => {
            mesh.finish_erase_resynthesize(removed_faces, Vec::new(), cleanup)
        }
    }
}

/// A quad ring with one triangular hole, and the triangle filling it.
fn ring_with_filled_hole(mesh: &mut Mesh) -> (FaceId, FaceId, Vec<VertId>) {
    let o = verts(mesh, 4);
    let h = verts(mesh, 3);
    let ring = mesh.add_face_with_holes(&o, &[h.clone()], mat()).unwrap();
    let fill = mesh.add_face(&[h[2], h[1], h[0]], mat()).unwrap();
    (ring, fill, h)
}

#[test]
fn erase_isolated_edge_is_safe() {
    let mut mesh = Mesh::new();
    let mat = MaterialId::new(0);
    let v0 = mesh.add_vertex().unwrap();
    let v1 = mesh.add_vertex().unwrap();
    let (eid, _) = mesh.add_edge(v0, v1).unwrap();

    let step = mesh.erase_edge_resynthesize(eid, mat, false).unwrap();
    let result = match step {
        EraseStep::Done(r) => r,
        EraseStep::Resynthesize { removed_faces, seed_verts } => {
            assert_eq!(seed_verts, vec![v0, v1]);
            // No free-edge cycle passes through an isolated edge.
            mesh.finish_erase_resynthesize(removed_faces, Vec::new(), false)
        }
    };
    assert!(result.removed_faces.is_empty());
    assert!(result.new_faces.is_empty());
}

#[test]
fn erase_missing_edge_is_refused() {
    let mut mesh = Mesh::new();
    let v = verts(&mut mesh, 2);
    let (eid, _) = mesh.add_edge(v[0], v[1]).unwrap();
    mesh.remove_edge_and_halfedges(eid).unwrap();
    let r = mesh.erase_edge_resynthesize(eid, mat(), false);
    assert!(matches!(r, Err(MeshError::EdgeNotFound(e)) if e == eid));
    let far = EdgeId::new(99);
    assert!(matches!(mesh.erase_edge_resynthesize(far, mat(), true), Err(MeshError::EdgeNotFound(_))));
}

#[test]
fn erase_hole_edge_rebuilds_ring_and_drops_fill() {
    let mut mesh = Mesh::new();
    let (ring, fill, h) = ring_with_filled_hole(&mut mesh);
    let e = mesh.find_edge(h[0], h[1]).unwrap();
    let step = mesh.erase_edge_resynthesize(e, mat(), false).unwrap();
    let result = match step {
        EraseStep::Done(r) => r,
        EraseStep::Resynthesize { .. } => panic!("a hole edge is erased in one step"),
    };
    assert_eq!(result.removed_faces, vec![ring, fill]);
    assert_eq!(result.new_faces.len(), 1);
    assert_eq!(result.cleaned_edges, 0);
    assert_eq!(result.cleaned_verts, 0);
    let nf = result.new_faces[0];
    assert!(!present(&mesh, ring));
    assert!(!present(&mesh, fill));
    assert!(present(&mesh, nf));
    assert!(mesh.faces[nf.raw() as usize].inners.is_empty());
    assert!(!edge_alive(&mesh, e));
    // The other two edges of the hole stay as wires.
    let e12 = mesh.find_edge(h[1], h[2]).unwrap();
    assert!(edge_alive(&mesh, e12));
    assert!(mesh.is_well_formed());
}

#[test]
fn erase_hole_edge_with_cleanup_prunes_the_hole_wires() {
    let mut mesh = Mesh::new();
    let (_ring, _fill, h) = ring_with_filled_hole(&mut mesh);
    let e = mesh.find_edge(h[1], h[2]).unwrap();
    let step = mesh.erase_edge_resynthesize(e, mat(), true).unwrap();
    let result = finish_with_no_faces(&mut mesh, step, true);
    assert_eq!(result.new_faces.len(), 1);
    assert_eq!(result.cleaned_edges, 2);
    assert_eq!(result.cleaned_verts, 3);
    assert!(mesh.find_edge(h[0], h[1]).is_none());
    assert!(mesh.find_edge(h[2], h[0]).is_none());
    for v in &h {
        assert!(!mesh.verts[v.raw() as usize].alive);
    }
}

#[test]
fn erase_hole_edge_keeps_other_holes() {
    let mut mesh = Mesh::new();
    let o = verts(&mut mesh, 4);
    let a = verts(&mut mesh, 3);
    let b = verts(&mut mesh, 3);
    let ring = mesh.add_face_with_holes(&o, &[a.clone(), b.clone()], mat()).unwrap();
    let e = mesh.find_edge(b[0], b[1]).unwrap();
    let step = mesh.erase_edge_resynthesize(e, mat(), false).unwrap();
    let result = finish_with_no_faces(&mut mesh, step, false);
    assert_eq!(result.removed_faces, vec![ring]);
    let nf = result.new_faces[0];
    assert_eq!(mesh.faces[nf.raw() as usize].inners.len(), 1);
    let hole = mesh.collect_loop_verts(mesh.faces[nf.raw() as usize].inners[0].start).unwrap();
    assert_eq!(hole, a);
}

#[test]
fn erase_shared_edge_removes_both_faces_and_seeds_their_vertices() {
    let mut mesh = Mesh::new();
    let v = verts(&mut mesh, 6);
    let f1 = mesh.add_face(&[v[0], v[1], v[4], v[3]], mat()).unwrap();
    let f2 = mesh.add_face(&[v[1], v[2], v[5], v[4]], mat()).unwrap();
    let e = mesh.find_edge(v[1], v[4]).unwrap();
    let step = mesh.erase_edge_resynthesize(e, mat(), false).unwrap();
    match step {
        EraseStep::Resynthesize { removed_faces, seed_verts } => {
            assert_eq!(removed_faces, vec![f1, f2]);
            assert_eq!(seed_verts, v);
            assert!(!present(&mesh, f1));
            assert!(!present(&mesh, f2));
            assert!(!edge_alive(&mesh, e));
            let outer = mesh.add_face(&[v[0], v[1], v[2], v[5], v[4], v[3]], mat()).unwrap();
            let result = mesh.finish_erase_resynthesize(removed_faces, vec![outer], false);
            assert_eq!(result.new_faces, vec![outer]);
            assert_eq!(result.removed_faces, vec![f1, f2]);
        }
        EraseStep::Done(_) => panic!("no hole loop holds the shared edge"),
    }
}

#[test]
fn cleanup_prunes_a_dangling_chain_but_keeps_a_wire_cycle() {
    let mut mesh = Mesh::new();
    let c = verts(&mut mesh, 3);
    mesh.add_edge(c[0], c[1]).unwrap();
    mesh.add_edge(c[1], c[2]).unwrap();
    let t = verts(&mut mesh, 3);
    mesh.add_edge(t[0], t[1]).unwrap();
    mesh.add_edge(t[1], t[2]).unwrap();
    mesh.add_edge(t[2], t[0]).unwrap();
    let (ne, nv) = mesh.cleanup_dangling();
    assert_eq!((ne, nv), (2, 3));
    assert!(mesh.find_edge(c[0], c[1]).is_none());
    assert!(mesh.find_edge(t[2], t[0]).is_some());
    assert!(mesh.verts[t[0].raw() as usize].alive);
    // A second pass finds nothing left to prune.
    assert_eq!(mesh.cleanup_dangling(), (0, 0));
}

#[test]
fn cleanup_keeps_face_edges_and_prunes_a_spur() {
    let mut mesh = Mesh::new();
    let v = verts(&mut mesh, 4);
    let f = mesh.add_face(&[v[0], v[1], v[2]], mat()).unwrap();
    mesh.add_edge(v[2], v[3]).unwrap();
    let (ne, nv) = mesh.cleanup_dangling();
    assert_eq!((ne, nv), (1, 1));
    assert!(present(&mesh, f));
    assert!(mesh.find_edge(v[0], v[1]).is_some());
    assert!(mesh.find_edge(v[2], v[3]).is_none());
    assert!(mesh.verts[v[2].raw() as usize].alive);
    assert!(!mesh.verts[v[3].raw() as usize].alive);
}
