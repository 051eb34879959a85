use axia_geo_ops::ids::{FaceId, MaterialId, VertId};
use axia_geo_ops::mesh::Mesh;

fn square(mesh: &mut Mesh, material: u32) -> (Vec<VertId>, FaceId) {
    let v: Vec<VertId> = (0..4).map(|_| mesh.add_vertex().unwrap()).collect();
    let f = mesh.add_face(&v, MaterialId::new(material)).unwrap();
    (v, f)
}

fn loop_of(mesh: &Mesh, f: FaceId) -> Vec<VertId> {
    mesh.collect_loop_verts(mesh.faces[f.raw() as usize].outer.start).unwrap()
}

#[test]
fn a_face_cut_in_two_is_replaced_by_both_pieces() {
    let mut mesh = Mesh::new();
    let (v, f) = square(&mut mesh, 9);
    let pieces = vec![vec![v[0], v[1], v[2]], vec![v[2], v[3], v[0]]];
    let r = mesh.replace_face_by_pieces(f, &pieces);
    assert_eq!(r.len(), 2);
    assert!(!mesh.faces[f.raw() as usize].present);
    assert_eq!(loop_of(&mesh, r[0]), pieces[0]);
    assert_eq!(loop_of(&mesh, r[1]), pieces[1]);
    for g in r {
        assert_eq!(mesh.faces[g.raw() as usize].material.raw(), 9);
    }
}

#[test]
fn repeated_vertices_collapse_and_short_pieces_are_skipped() {
    let mut mesh = Mesh::new();
    let (v, f) = square(&mut mesh, 0);
    let pieces = vec![vec![v[0], v[0], v[1]], vec![v[0], v[1], v[1], v[2], v[0]], vec![v[2], v[3]]];
    let r = mesh.replace_face_by_pieces(f, &pieces);
    assert_eq!(r.len(), 1);
    assert_eq!(loop_of(&mesh, r[0]), vec![v[0], v[1], v[2]]);
    assert!(!mesh.faces[f.raw() as usize].present);
}

#[test]
fn a_face_that_cannot_be_cut_stays() {
    let mut mesh = Mesh::new();
    let (v, f) = square(&mut mesh, 0);
    // One piece only.
    assert_eq!(mesh.replace_face_by_pieces(f, &[vec![v[0], v[1], v[2]]]), vec![f]);
    // No piece gives a loop.
    assert_eq!(mesh.replace_face_by_pieces(f, &[vec![v[0], v[1]], vec![v[2], v[2], v[2]]]), vec![f]);
    assert!(mesh.faces[f.raw() as usize].present);
    assert_eq!(mesh.faces.len(), 1);
    // A face that is not there.
    let gone = FaceId::new(5);
    assert_eq!(mesh.replace_face_by_pieces(gone, &[vec![v[0], v[1], v[2]], vec![v[2], v[3], v[0]]]), vec![gone]);
    assert_eq!(mesh.faces.len(), 1);
}
