//! Offset results, and soft removal of a face.

use vstd::prelude::*;
use crate::ids::{VertId, HeId, EdgeId, FaceId, MaterialId, NULL_RAW};
use crate::mesh::{
    Mesh, MeshError, HalfEdge, Face, Edge, CurveKind, SurfaceKind, loop_seq, is_loop, loop_len, lemma_loop_len,
    lemma_loop_distinct, lemma_walk_valid, on_loop, loop_closes, lemma_loops_same_links, lemma_loop_len_bounded,
    face_wf, faces_on_edge_upto, edge_joins, face_added, hole_views, Vertex,
};

verus! {

/// Result of offsetting a face.
#[derive(Debug)]
pub struct OffsetResult {
    /// The new inner (offset) face.
    pub inner_face: FaceId,
    /// The faces between the original boundary and the offset one.
    pub strip_faces: Vec<FaceId>,
    /// The original face.
    pub original_face: FaceId,
}

/// Result of offsetting an edge.
#[derive(Clone, Copy, Debug, PartialEq, Eq, Structural)]
pub struct OffsetEdgeResult {
    /// The two vertices of the new parallel edge.
    pub new_v0: VertId,
    pub new_v1: VertId,
    /// The new edge.
    pub new_edge: EdgeId,
}

/// Why an edge cannot be offset on its host face.
#[derive(Clone, Copy, Debug, PartialEq, Eq, Structural)]
pub enum OffsetHostError {
    EdgeNotFound(EdgeId),
    EdgeInactive(EdgeId),
    /// Only lines (or edges with no curve) are offset.
    UnsupportedCurveKind(CurveKind),
    /// No face owns a live half-edge on the edge.
    NoIncidentFace,
    /// The faces round the edge lie on different surfaces.
    AmbiguousHostFace { n_faces: usize },
    /// The host face has hole loops.
    MultiLoopHostFace(FaceId),
    /// Only plane hosts are supported.
    UnsupportedHostSurface(SurfaceKind),
    NoHostSurface(FaceId),
}

/// Whether two face surfaces count as the same host: both absent, or of
/// the same kind, two planes only when they coincide.
pub open spec fn surfaces_equiv(a: Option<SurfaceKind>, b: Option<SurfaceKind>, planes_coincide: bool) -> bool {
    match (a, b) {
        (None, None) => true,
        (Some(x), Some(y)) => if x == SurfaceKind::Plane && y == SurfaceKind::Plane {
            planes_coincide
        } else {
            x == y
        },
        _ => false,
    }
}

/// Whether two face surfaces count as the same host for an edge offset.
/// `planes_coincide` tells whether two planes coincide (normals parallel,
/// origins on one plane); it is read only when both surfaces are planes.
pub fn surfaces_equivalent(a: Option<SurfaceKind>, b: Option<SurfaceKind>, planes_coincide: bool) -> (r: bool)
    ensures
        r == surfaces_equiv(a, b, planes_coincide),
{
    match (a, b) {
        (None, None) => true,
        (Some(x), Some(y)) => {
            if x == SurfaceKind::Plane && y == SurfaceKind::Plane {
                planes_coincide
            } else {
                x == y
            }
        },
        _ => false,
    }
}

/// The host face for offsetting edge `e`, or why there is none. The faces
/// round the edge are those owning a live half-edge on it; when there are
/// several, each must share the first one's surface, `coincide[i - 1]`
/// telling whether the planes of faces `0` and `i` coincide.
pub open spec fn offset_host(m: Mesh, e: EdgeId, coincide: Seq<bool>) -> Result<FaceId, OffsetHostError> {
    if !m.valid_edge(e) {
        Err(OffsetHostError::EdgeNotFound(e))
    } else if !m.edges@[e.ix()].alive {
        Err(OffsetHostError::EdgeInactive(e))
    } else if m.edges@[e.ix()].curve matches Some(c) && c != CurveKind::Line {
        Err(OffsetHostError::UnsupportedCurveKind(m.edges@[e.ix()].curve.unwrap()))
    } else {
        let inc = faces_on_edge_upto(m, e, m.hes@.len() as nat);
        if inc.len() == 0 {
            Err(OffsetHostError::NoIncidentFace)
        } else if exists|i: int|
            1 <= i < inc.len() && !surfaces_equiv(
                m.faces@[inc[0].ix()].surface,
                m.faces@[(#[trigger] inc[i]).ix()].surface,
                coincide[i - 1],
            ) {
            Err(OffsetHostError::AmbiguousHostFace { n_faces: inc.len() as usize })
        } else {
            let host = inc[0];
            let hf = m.faces@[host.ix()];
            if hf.inners@.len() > 0 {
                Err(OffsetHostError::MultiLoopHostFace(host))
            } else {
                match hf.surface {
                    None => Err(OffsetHostError::NoHostSurface(host)),
                    Some(SurfaceKind::Plane) => Ok(host),
                    Some(k) => Err(OffsetHostError::UnsupportedHostSurface(k)),
                }
            }
        }
    }
}

/// `new` is `old` with `n` live vertices appended and nothing else changed.
pub open spec fn verts_pushed(old: Mesh, new: Mesh, n: nat) -> bool {
    &&& new.verts@.len() == old.verts@.len() + n
    &&& new.verts@.take(old.verts@.len() as int) == old.verts@
    &&& forall|k: int| old.verts@.len() <= k < new.verts@.len() ==> (#[trigger] new.verts@[k]).alive
    &&& new.hes@ == old.hes@
    &&& new.edges@ == old.edges@
    &&& new.faces@ == old.faces@
}

/// The handles of `n` vertices appended to an arena of `start` vertices.
pub open spec fn fresh_verts(start: nat, n: nat) -> Seq<VertId> {
    Seq::new(n, |k: int| VertId { id: (start + k) as u32 })
}

/// The vertices of the closed loop at `st`.
pub open spec fn loop_vertices(m: Mesh, st: HeId) -> Seq<VertId> {
    crate::mesh::loop_verts(m.hes@, st, loop_len(m.hes@, st))
}

/// From `m2`, the mesh after the new vertices `ov`, adding the inner face
/// along them and then the frame face (outer loop `fo`, hole `fh`) took
/// the mesh to `new` with result `r`.
pub open spec fn offset_faces_added(
    m2: Mesh,
    new: Mesh,
    ov: Seq<VertId>,
    fo: Seq<VertId>,
    fh: Seq<VertId>,
    mat: MaterialId,
    f: FaceId,
    r: Result<OffsetResult, MeshError>,
) -> bool {
    match r {
        Ok(res) => {
            &&& res.original_face == f
            &&& res.strip_faces@.len() == 1
            &&& exists|m3: Mesh|
                #[trigger] face_added(m2, m3, ov, Seq::empty(), mat, Ok(res.inner_face)) && m3.wf()
                    && face_added(m3, new, fo, seq![fh], mat, Ok(res.strip_faces@[0]))
        },
        Err(e) => {
            ||| face_added(m2, new, ov, Seq::empty(), mat, Err(e))
            ||| exists|m3: Mesh, g: FaceId|
                #[trigger] face_added(m2, m3, ov, Seq::empty(), mat, Ok(g)) && m3.wf()
                    && face_added(m3, new, fo, seq![fh], mat, Err(e))
        },
    }
}

/// Offsetting face `f` (inward when `inset`) took `old` to `new` with
/// result `r`. The face must be present and active, with a closed outer
/// loop of at least three vertices. It is then soft-removed; one new
/// vertex per loop vertex is added (the caller places them on the offset
/// polygon); an inner face is added along the new vertices; and a frame
/// face fills the band between the two loops, the outer loop the original
/// one when insetting and the new one otherwise, the other its hole.
pub open spec fn offset_face_done(old: Mesh, new: Mesh, f: FaceId, inset: bool, r: Result<OffsetResult, MeshError>) -> bool {
    let face = old.faces@[f.ix()];
    let st = face.outer.start;
    let same = new.verts@ == old.verts@ && new.hes@ == old.hes@ && new.edges@ == old.edges@ && new.faces@ == old.faces@;
    if !old.face_present(f) {
        r == Err::<OffsetResult, MeshError>(MeshError::FaceNotFound(f)) && same
    } else if !face.active {
        r == Err::<OffsetResult, MeshError>(MeshError::FaceInactive(f)) && same
    } else if !loop_closes(old.hes@, st) {
        r == Err::<OffsetResult, MeshError>(crate::mesh::loop_error(old, st)) && same
    } else {
        let lv = loop_vertices(old, st);
        let n = lv.len();
        if n < 3 {
            r == Err::<OffsetResult, MeshError>(MeshError::DegenerateLoop) && same
        } else if old.verts@.len() + n >= NULL_RAW {
            r == Err::<OffsetResult, MeshError>(MeshError::CapacityExceeded) && same
        } else {
            let ov = fresh_verts(old.verts@.len() as nat, n);
            let fo = if inset { lv } else { ov };
            let fh = if inset { ov } else { lv };
            let mat = face.material;
            exists|m1: Mesh, m2: Mesh|
                #![trigger crate::erase_resynth::faces_soft_removed(old, m1, seq![f]), verts_pushed(m1, m2, n)]
                crate::erase_resynth::faces_soft_removed(old, m1, seq![f]) && verts_pushed(m1, m2, n) && m2.wf()
                    && offset_faces_added(m2, new, ov, fo, fh, mat, f, r)
        }
    }
}

/// The half-edge with its face reference cleared.
pub open spec fn detached(h: HalfEdge) -> HalfEdge {
    HalfEdge { face: FaceId { id: NULL_RAW }, ..h }
}

/// The half-edge with its face reference cleared, and dead when `kill`.
pub open spec fn released(h: HalfEdge, kill: bool) -> HalfEdge {
    if kill {
        HalfEdge { alive: false, face: FaceId { id: NULL_RAW }, ..h }
    } else {
        detached(h)
    }
}

/// `h` lies on one of the closed loops (outer or inner) of face `f`.
pub open spec fn on_face_loop(m: Mesh, f: FaceId, h: HeId) -> bool {
    let face = m.faces@[f.ix()];
    on_loop(m.hes@, face.outer.start, h) || exists|k: int|
        0 <= k < face.inners@.len() && on_loop(m.hes@, (#[trigger] face.inners@[k]).start, h)
}

impl Mesh {
    /// Finds the host face for offsetting edge `edge_id` (see
    /// `offset_host`). `coincide[i - 1]` tells whether the plane of the
    /// `i`-th face round the edge coincides with that of the first.
    pub fn offset_edge_host(&self, edge_id: EdgeId, coincide: &[bool]) -> (r: Result<FaceId, OffsetHostError>)
        requires
            self.wf(),
            faces_on_edge_upto(*self, edge_id, self.hes@.len() as nat).len() <= coincide@.len() + 1,
        ensures
            r == offset_host(*self, edge_id, coincide@),
    {
        if edge_id.id as usize >= self.edges.len() {
            return Err(OffsetHostError::EdgeNotFound(edge_id));
        }
        let edge = self.edges[edge_id.id as usize];
        if !edge.alive {
            return Err(OffsetHostError::EdgeInactive(edge_id));
        }
        match edge.curve {
            Some(c) => {
                if c != CurveKind::Line {
                    return Err(OffsetHostError::UnsupportedCurveKind(c));
                }
            },
            None => {},
        }
        let inc = self.get_faces_sharing_edge(edge_id);
        let n = inc.len();
        if n == 0 {
            return Err(OffsetHostError::NoIncidentFace);
        }
        let first = inc[0];
        proof {
            assert(inc@.contains(first));
        }
        let first_surface = self.faces[first.id as usize].surface;
        let mut i: usize = 1;
        while i < n
            invariant
                self.wf(),
                self.edge_alive(edge_id),
                !(self.edges@[edge_id.ix()].curve matches Some(c) && c != CurveKind::Line),
                n == inc@.len(),
                inc@ == faces_on_edge_upto(*self, edge_id, self.hes@.len() as nat),
                n <= coincide@.len() + 1,
                1 <= i <= n,
                first == inc@[0],
                0 <= first.ix() < self.faces@.len(),
                first_surface == self.faces@[first.ix()].surface,
                forall|x: FaceId| #[trigger] inc@.contains(x) ==> self.face_present(x),
                forall|j: int|
                    1 <= j < i ==> surfaces_equiv(
                        first_surface,
                        self.faces@[(#[trigger] inc@[j]).ix()].surface,
                        coincide@[j - 1],
                    ),
            decreases n - i,
        {
            let fid = inc[i];
            proof {
                assert(inc@.contains(fid));
            }
            if !surfaces_equivalent(first_surface, self.faces[fid.id as usize].surface, coincide[i - 1]) {
                assert(!surfaces_equiv(
                    self.faces@[inc@[0].ix()].surface,
                    self.faces@[inc@[i as int].ix()].surface,
                    coincide@[i - 1],
                ));
                return Err(OffsetHostError::AmbiguousHostFace { n_faces: n });
            }
            i += 1;
        }
        if self.faces[first.id as usize].inners.len() > 0 {
            return Err(OffsetHostError::MultiLoopHostFace(first));
        }
        match self.faces[first.id as usize].surface {
            None => Err(OffsetHostError::NoHostSurface(first)),
            Some(SurfaceKind::Plane) => Ok(first),
            Some(k) => Err(OffsetHostError::UnsupportedHostSurface(k)),
        }
    }

    /// Appends `n` live vertices; their handles, in order.
    pub(crate) fn add_vertices(&mut self, n: usize) -> (r: Vec<VertId>)
        requires
            old(self).wf(),
            old(self).verts@.len() + n < NULL_RAW,
        ensures
            final(self).wf(),
            verts_pushed(*old(self), *final(self), n as nat),
            r@ == fresh_verts(old(self).verts@.len() as nat, n as nat),
    {
        let ghost m0 = *self;
        let mut out: Vec<VertId> = Vec::new();
        let mut k: usize = 0;
        assert(self.verts@.take(m0.verts@.len() as int) =~= m0.verts@);
        assert(out@ =~= fresh_verts(m0.verts@.len() as nat, 0));
        while k < n
            invariant
                self.wf(),
                m0.verts@.len() + n < NULL_RAW,
                k <= n,
                verts_pushed(m0, *self, k as nat),
                out@ == fresh_verts(m0.verts@.len() as nat, k as nat),
            decreases n - k,
        {
            let ghost vb = self.verts@;
            let v = match self.add_vertex() {
                Ok(v) => v,
                Err(_) => {
                    assert(false);
                    return out;
                },
            };
            out.push(v);
            proof {
                assert(self.verts@.take(m0.verts@.len() as int) =~= m0.verts@) by {
                    assert(vb.take(m0.verts@.len() as int) == m0.verts@);
                }
                assert(out@ =~= fresh_verts(m0.verts@.len() as nat, (k + 1) as nat));
            }
            k += 1;
        }
        out
    }

    /// Offsets the outer boundary of face `face_id`: see `offset_face_done`.
    /// The new vertices come in the order of the loop's vertices, and the
    /// caller gives them their positions on the offset polygon.
    pub fn offset_face(&mut self, face_id: FaceId, inset: bool) -> (r: Result<OffsetResult, MeshError>)
        requires
            old(self).wf(),
        ensures
            final(self).wf(),
            offset_face_done(*old(self), *final(self), face_id, inset, r),
    {
        let ghost m0 = *self;
        if face_id.id as usize >= self.faces.len() || !self.faces[face_id.id as usize].present {
            return Err(MeshError::FaceNotFound(face_id));
        }
        let fi = face_id.id as usize;
        if !self.faces[fi].active {
            return Err(MeshError::FaceInactive(face_id));
        }
        let material = self.faces[fi].material;
        let loop_vids = match self.collect_loop_verts(self.faces[fi].outer.start) {
            Ok(v) => v,
            Err(x) => {
                return Err(x);
            },
        };
        let n = loop_vids.len();
        if n < 3 {
            return Err(MeshError::DegenerateLoop);
        }
        if self.verts.len() >= 0xffff_ffff - n {
            return Err(MeshError::CapacityExceeded);
        }
        let ghost lv = loop_vids@;
        let _ = self.soft_remove_face(face_id);
        let ghost m1 = *self;
        proof {
            let fs = seq![face_id];
            assert forall|g: int| 0 <= g < m0.faces@.len() implies #[trigger] m1.faces@[g] == (if fs.contains(FaceId { id: g as u32 }) {
                Face { present: false, ..m0.faces@[g] }
            } else {
                m0.faces@[g]
            }) by {
                if g == fi {
                    assert(fs[0] == FaceId { id: g as u32 });
                } else {
                    if fs.contains(FaceId { id: g as u32 }) {
                        assert(fs[0] == FaceId { id: g as u32 });
                    }
                }
            }
            assert forall|i: int| 0 <= i < m0.hes@.len() implies #[trigger] m1.hes@[i] == (if crate::erase_resynth::on_loops_of(
                m0,
                fs,
                HeId { id: i as u32 },
            ) {
                detached(m0.hes@[i])
            } else {
                m0.hes@[i]
            }) by {
                let x = HeId { id: i as u32 };
                if on_face_loop(m0, face_id, x) {
                    assert(on_face_loop(m0, fs[0], x));
                }
            }
            assert(crate::erase_resynth::faces_soft_removed(m0, m1, fs));
        }
        let offset_vids = self.add_vertices(n);
        let ghost m2 = *self;
        let no_holes: Vec<Vec<VertId>> = Vec::new();
        proof {
            assert(hole_views(no_holes@) =~= Seq::<Seq<VertId>>::empty());
        }
        let ghost ovs = offset_vids@;
        let inner_face = match self.add_face_with_holes(offset_vids.as_slice(), no_holes.as_slice(), material) {
            Ok(g) => g,
            Err(x) => {
                proof {
                    assert(crate::erase_resynth::faces_soft_removed(m0, m1, seq![face_id]) && verts_pushed(m1, m2, n as nat));
                }
                return Err(x);
            },
        };
        let ghost m3 = *self;
        let (frame_outer, frame_hole) = if inset {
            (loop_vids, offset_vids)
        } else {
            (offset_vids, loop_vids)
        };
        let mut holes: Vec<Vec<VertId>> = Vec::new();
        let ghost fh = frame_hole@;
        holes.push(frame_hole);
        proof {
            assert(hole_views(holes@) =~= seq![fh]);
        }
        let frame_face = match self.add_face_with_holes(frame_outer.as_slice(), holes.as_slice(), material) {
            Ok(g) => g,
            Err(x) => {
                proof {
                    assert(crate::erase_resynth::faces_soft_removed(m0, m1, seq![face_id]) && verts_pushed(m1, m2, n as nat));
                    assert(face_added(m2, m3, fresh_verts(m0.verts@.len() as nat, n as nat), Seq::empty(), material, Ok(inner_face)));
                }
                return Err(x);
            },
        };
        let mut strip_faces: Vec<FaceId> = Vec::new();
        strip_faces.push(frame_face);
        let res = OffsetResult { inner_face, strip_faces, original_face: face_id };
        assert(res.strip_faces@[0] == frame_face);
        assert(res.inner_face == inner_face);
        proof {
            let ov = fresh_verts(m0.verts@.len() as nat, n as nat);
            let fo = if inset { lv } else { ov };
            let fhs = if inset { ov } else { lv };
            assert(lv == loop_vertices(m0, m0.faces@[fi as int].outer.start));
            assert(fh == fhs);
            assert(face_added(m3, *self, fo, seq![fhs], material, Ok(frame_face)));
            assert(face_added(m2, m3, ov, Seq::<Seq<VertId>>::empty(), material, Ok(inner_face)));
            assert(m3.wf());
            assert(exists|m3x: Mesh|
                #[trigger] face_added(m2, m3x, ov, Seq::empty(), material, Ok(inner_face)) && m3x.wf()
                    && face_added(m3x, *self, fo, seq![fhs], material, Ok(frame_face)));
            assert(crate::erase_resynth::faces_soft_removed(m0, m1, seq![face_id]) && verts_pushed(m1, m2, n as nat)
                && m2.wf());
            let rs = Ok::<OffsetResult, MeshError>(res);
            assert(rs.unwrap().inner_face == inner_face);
            assert(rs.unwrap().strip_faces@[0] == frame_face);
            assert(face_added(m2, m3, ov, Seq::empty(), material, Ok(rs.unwrap().inner_face)));
            assert(offset_faces_added(m2, *self, ov, fo, fhs, material, face_id, rs));
        }
        Ok(res)
    }

    /// Adds two vertices and a live edge joining them: the parallel copy
    /// made by an edge offset, whose positions the caller keeps.
    pub fn add_parallel_edge(&mut self) -> (r: Result<OffsetEdgeResult, MeshError>)
        requires
            old(self).wf(),
        ensures
            final(self).wf(),
            final(self).hes@ == old(self).hes@,
            final(self).faces@ == old(self).faces@,
            match r {
                Ok(res) => {
                    &&& res.new_v0.ix() == old(self).verts@.len()
                    &&& res.new_v1.ix() == old(self).verts@.len() + 1
                    &&& final(self).verts@ == old(self).verts@.push(crate::mesh::Vertex { alive: true }).push(
                        crate::mesh::Vertex { alive: true },
                    )
                    &&& res.new_edge.ix() == old(self).edges@.len()
                    &&& final(self).edges@ == old(self).edges@.push(
                        Edge { alive: true, v0: res.new_v0, v1: res.new_v1, curve: None },
                    )
                },
                Err(e) => {
                    &&& e == MeshError::CapacityExceeded
                    &&& final(self).edges@ == old(self).edges@
                },
            },
            r is Ok <==> old(self).verts@.len() + 2 < NULL_RAW && old(self).edges@.len() + 1 < NULL_RAW,
    {
        let v0 = self.add_vertex()?;
        let v1 = self.add_vertex()?;
        match self.add_edge(v0, v1) {
            Ok((e, created)) => {
                if !created {
                    proof {
                        assert(false);
                    }
                }
                Ok(OffsetEdgeResult { new_v0: v0, new_v1: v1, new_edge: e })
            },
            Err(x) => Err(x),
        }
    }

    /// Clears the face reference of every half-edge on the closed loop at
    /// `st`; does nothing when the loop does not close.
    fn release_loop(&mut self, st: HeId, kill: bool)
        requires
            old(self).wf(),
        ensures
            final(self).wf(),
            final(self).verts@ == old(self).verts@,
            final(self).edges@ == old(self).edges@,
            final(self).faces@ == old(self).faces@,
            final(self).hes@.len() == old(self).hes@.len(),
            forall|i: int| 0 <= i < old(self).hes@.len() ==> #[trigger] final(self).hes@[i] == if on_loop(
                old(self).hes@,
                st,
                HeId { id: i as u32 },
            ) {
                released(old(self).hes@[i], kill)
            } else {
                old(self).hes@[i]
            },
    {
        let ghost h0 = self.hes@;
        let ghost nv = self.verts@.len() as int;
        let ghost ne = self.edges@.len() as int;
        let ghost nf = self.faces@.len() as int;
        if st.id as usize >= self.hes.len() {
            assert forall|i: int| 0 <= i < h0.len() implies !#[trigger] on_loop(h0, st, HeId { id: i as u32 }) by {}
            return;
        }
        match self.collect_loop_hes(st) {
            Err(_) => {
                proof {
                    if loop_closes(h0, st) {
                        lemma_loop_len_bounded(h0, nv, ne, nf, st, loop_len(h0, st));
                        assert(crate::mesh::walk(h0, st, loop_len(h0, st)) == st);
                    }
                }
                return;
            },
            Ok(l) => {
                let n = l.len();
                proof {
                    lemma_loop_len(h0, st, n as nat);
                    lemma_loop_distinct(h0, st, n as nat);
                    assert forall|k: int| 0 <= k < n implies 0 <= (#[trigger] l@[k]).ix() < h0.len() by {
                        lemma_walk_valid(h0, nv, ne, nf, st, k as nat);
                    }
                }
                let mut k: usize = 0;
                while k < n
                    invariant
                        self.wf(),
                        self.verts@ == old(self).verts@,
                        self.edges@ == old(self).edges@,
                        self.faces@ == old(self).faces@,
                        self.hes@.len() == h0.len(),
                        h0 == old(self).hes@,
                        n == l@.len(),
                        l@ == loop_seq(h0, st, n as nat),
                        l@.no_duplicates(),
                        loop_len(h0, st) == n,
                        forall|q: int| 0 <= q < n ==> 0 <= (#[trigger] l@[q]).ix() < h0.len(),
                        k <= n,
                        forall|i: int| 0 <= i < h0.len() ==> #[trigger] self.hes@[i] == if l@.take(k as int).contains(
                            HeId { id: i as u32 },
                        ) {
                            released(h0[i], kill)
                        } else {
                            h0[i]
                        },
                    decreases n - k,
                {
                    let h = l[k];
                    let mut he = self.hes[h.id as usize];
                    he.face = FaceId { id: NULL_RAW };
                    if kill {
                        he.alive = false;
                    }
                    let ghost before = self.hes@;
                    self.hes.set(h.id as usize, he);
                    proof {
                        assert forall|i: int| 0 <= i < h0.len() implies #[trigger] self.hes@[i] == if l@.take(k + 1).contains(
                            HeId { id: i as u32 },
                        ) {
                            released(h0[i], kill)
                        } else {
                            h0[i]
                        } by {
                            let x = HeId { id: i as u32 };
                            assert(l@.take(k + 1) =~= l@.take(k as int).push(h));
                            if i == h.ix() {
                                assert(x == h);
                                assert(!l@.take(k as int).contains(h)) by {
                                    if l@.take(k as int).contains(h) {
                                        let q = choose|q: int| 0 <= q < k && #[trigger] l@.take(k as int)[q] == h;
                                        assert(l@[q] == l@[k as int]);
                                    }
                                }
                                assert(l@.take(k + 1).contains(x)) by {
                                    assert(l@.take(k + 1)[k as int] == x);
                                }
                            } else {
                                assert(self.hes@[i] == before[i]);
                                assert(l@.take(k + 1).contains(x) == l@.take(k as int).contains(x)) by {
                                    if l@.take(k + 1).contains(x) {
                                        let q = choose|q: int| 0 <= q < k + 1 && #[trigger] l@.take(k + 1)[q] == x;
                                        assert(q != k);
                                        assert(l@.take(k as int)[q] == x);
                                    }
                                    if l@.take(k as int).contains(x) {
                                        let q = choose|q: int| 0 <= q < k && #[trigger] l@.take(k as int)[q] == x;
                                        assert(l@.take(k + 1)[q] == x);
                                    }
                                }
                            }
                        }
                        assert forall|q: int| 0 <= q < self.hes@.len() implies {
                            let h = #[trigger] self.hes@[q];
                            &&& 0 <= h.next.ix() < self.hes@.len()
                            &&& 0 <= h.prev.ix() < self.hes@.len()
                            &&& 0 <= h.dst.ix() < self.verts@.len()
                            &&& 0 <= h.edge.ix() < self.edges@.len()
                            &&& (h.face.id == NULL_RAW || 0 <= h.face.ix() < self.faces@.len())
                        } by {
                            assert(q == h.ix() || self.hes@[q] == before[q]);
                        }
                    }
                    k += 1;
                }
                proof {
                    assert(l@.take(n as int) =~= l@);
                }
            },
        }
    }

    /// Removes a face from storage and releases every half-edge on its
    /// closed loops (see `released`); their links are kept.
    fn release_face(&mut self, f: FaceId, kill: bool) -> (r: Result<(), MeshError>)
        requires
            old(self).wf(),
        ensures
            final(self).wf(),
            final(self).verts@ == old(self).verts@,
            final(self).edges@ == old(self).edges@,
            r is Ok <==> old(self).face_present(f),
            r is Err ==> r == Err::<(), MeshError>(MeshError::FaceNotFound(f)) && final(self).hes@ == old(self).hes@
                && final(self).faces@ == old(self).faces@,
            r is Ok ==> {
                &&& final(self).faces@.len() == old(self).faces@.len()
                &&& forall|g: int| 0 <= g < old(self).faces@.len() && g != f.ix() ==> #[trigger] final(self).faces@[g] == old(self).faces@[g]
                &&& final(self).faces@[f.ix()] == (Face { present: false, ..old(self).faces@[f.ix()] })
                &&& !final(self).faces@[f.ix()].present
                &&& final(self).faces@[f.ix()].active == old(self).faces@[f.ix()].active
                &&& final(self).faces@[f.ix()].outer == old(self).faces@[f.ix()].outer
                &&& final(self).faces@[f.ix()].inners@ == old(self).faces@[f.ix()].inners@
                &&& final(self).hes@.len() == old(self).hes@.len()
                &&& forall|i: int| 0 <= i < old(self).hes@.len() ==> #[trigger] final(self).hes@[i] == if on_face_loop(
                    *old(self),
                    f,
                    HeId { id: i as u32 },
                ) {
                    released(old(self).hes@[i], kill)
                } else {
                    old(self).hes@[i]
                }
            },
    {
        if f.id as usize >= self.faces.len() || !self.faces[f.id as usize].present {
            return Err(MeshError::FaceNotFound(f));
        }
        let ghost m0 = *self;
        let fi = f.id as usize;
        let outer_start = self.faces[fi].outer.start;
        self.release_loop(outer_start, kill);
        let inners = self.faces[fi].inners.clone();
        let ni = inners.len();
        let mut k: usize = 0;
        while k < ni
            invariant
                self.wf(),
                self.verts@ == m0.verts@,
                self.edges@ == m0.edges@,
                self.faces@ == m0.faces@,
                self.hes@.len() == m0.hes@.len(),
                m0.wf(),
                fi == f.ix(),
                0 <= fi < m0.faces@.len(),
                inners@ == m0.faces@[fi as int].inners@,
                ni == inners@.len(),
                k <= ni,
                forall|i: int| 0 <= i < m0.hes@.len() ==> (#[trigger] self.hes@[i]).next == m0.hes@[i].next,
                forall|i: int| 0 <= i < m0.hes@.len() ==> #[trigger] self.hes@[i] == if on_loop(m0.hes@, m0.faces@[fi as int].outer.start, HeId { id: i as u32 })
                    || exists|q: int| 0 <= q < k && on_loop(m0.hes@, (#[trigger] inners@[q]).start, HeId { id: i as u32 }) {
                    released(m0.hes@[i], kill)
                } else {
                    m0.hes@[i]
                },
            decreases ni - k,
        {
            let ghost hb = self.hes@;
            proof {
                assert forall|i: int| 0 <= i < m0.hes@.len() implies 0 <= (#[trigger] m0.hes@[i]).next.ix() < m0.hes@.len() by {}
                lemma_loops_same_links(m0.hes@, hb, inners@[k as int].start);
            }
            self.release_loop(inners[k].start, kill);
            proof {
                assert forall|i: int| 0 <= i < m0.hes@.len() implies #[trigger] self.hes@[i] == if on_loop(m0.hes@, m0.faces@[fi as int].outer.start, HeId { id: i as u32 })
                    || exists|q: int| 0 <= q < k + 1 && on_loop(m0.hes@, (#[trigger] inners@[q]).start, HeId { id: i as u32 }) {
                    released(m0.hes@[i], kill)
                } else {
                    m0.hes@[i]
                } by {
                    let x = HeId { id: i as u32 };
                    if exists|q: int| 0 <= q < k + 1 && on_loop(m0.hes@, (#[trigger] inners@[q]).start, x) {
                        let q = choose|q: int| 0 <= q < k + 1 && on_loop(m0.hes@, (#[trigger] inners@[q]).start, x);
                        if q < k {
                            assert(exists|q: int| 0 <= q < k && on_loop(m0.hes@, (#[trigger] inners@[q]).start, x));
                        }
                    }
                    if exists|q: int| 0 <= q < k && on_loop(m0.hes@, (#[trigger] inners@[q]).start, x) {
                        let q = choose|q: int| 0 <= q < k && on_loop(m0.hes@, (#[trigger] inners@[q]).start, x);
                        assert(0 <= q < k + 1 && on_loop(m0.hes@, inners@[q].start, x));
                    }
                    if on_loop(m0.hes@, inners@[k as int].start, x) {
                        assert(0 <= k < k + 1 && on_loop(m0.hes@, inners@[k as int].start, x));
                    }
                }
            }
            k += 1;
        }
        let ghost fb = self.faces@;
        self.faces[fi].present = false;
        proof {
            assert forall|i: int| 0 <= i < self.faces@.len() implies face_wf(#[trigger] self.faces@[i], self.hes@.len() as int) by {
                assert(i == fi || self.faces@[i] == fb[i]);
            }
            assert forall|i: int| 0 <= i < m0.hes@.len() implies #[trigger] self.hes@[i] == if on_face_loop(m0, f, HeId { id: i as u32 }) {
                released(m0.hes@[i], kill)
            } else {
                m0.hes@[i]
            } by {
            }
        }
        Ok(())
    }

    /// Removes a face from storage, clearing the face reference of every
    /// half-edge on its closed loops; their links are kept, so neighbours
    /// stay connected and the half-edges can be claimed again.
    pub fn soft_remove_face(&mut self, f: FaceId) -> (r: Result<(), MeshError>)
        requires
            old(self).wf(),
        ensures
            final(self).wf(),
            final(self).verts@ == old(self).verts@,
            final(self).edges@ == old(self).edges@,
            r is Ok <==> old(self).face_present(f),
            r is Err ==> r == Err::<(), MeshError>(MeshError::FaceNotFound(f)) && final(self).hes@ == old(self).hes@
                && final(self).faces@ == old(self).faces@,
            r is Ok ==> {
                &&& final(self).faces@.len() == old(self).faces@.len()
                &&& forall|g: int| 0 <= g < old(self).faces@.len() && g != f.ix() ==> #[trigger] final(self).faces@[g] == old(self).faces@[g]
                &&& final(self).faces@[f.ix()] == (Face { present: false, ..old(self).faces@[f.ix()] })
                &&& !final(self).faces@[f.ix()].present
                &&& final(self).faces@[f.ix()].active == old(self).faces@[f.ix()].active
                &&& final(self).faces@[f.ix()].outer == old(self).faces@[f.ix()].outer
                &&& final(self).faces@[f.ix()].inners@ == old(self).faces@[f.ix()].inners@
                &&& final(self).hes@.len() == old(self).hes@.len()
                &&& forall|i: int| 0 <= i < old(self).hes@.len() ==> #[trigger] final(self).hes@[i] == if on_face_loop(
                    *old(self),
                    f,
                    HeId { id: i as u32 },
                ) {
                    detached(old(self).hes@[i])
                } else {
                    old(self).hes@[i]
                }
            },
    {
        self.release_face(f, false)
    }

    /// Removes a face from storage together with the half-edges on its
    /// closed loops: each dies, with its face reference cleared. The edges
    /// stay.
    pub fn remove_face(&mut self, f: FaceId) -> (r: Result<(), MeshError>)
        requires
            old(self).wf(),
        ensures
            final(self).wf(),
            final(self).verts@ == old(self).verts@,
            final(self).edges@ == old(self).edges@,
            r is Ok <==> old(self).face_present(f),
            r is Err ==> r == Err::<(), MeshError>(MeshError::FaceNotFound(f)) && final(self).hes@ == old(self).hes@
                && final(self).faces@ == old(self).faces@,
            r is Ok ==> {
                &&& final(self).faces@.len() == old(self).faces@.len()
                &&& forall|g: int| 0 <= g < old(self).faces@.len() && g != f.ix() ==> #[trigger] final(self).faces@[g] == old(self).faces@[g]
                &&& final(self).faces@[f.ix()] == (Face { present: false, ..old(self).faces@[f.ix()] })
                &&& final(self).hes@.len() == old(self).hes@.len()
                &&& forall|i: int| 0 <= i < old(self).hes@.len() ==> #[trigger] final(self).hes@[i] == if on_face_loop(
                    *old(self),
                    f,
                    HeId { id: i as u32 },
                ) {
                    released(old(self).hes@[i], true)
                } else {
                    old(self).hes@[i]
                }
            },
    {
        self.release_face(f, true)
    }
}

} // verus!
