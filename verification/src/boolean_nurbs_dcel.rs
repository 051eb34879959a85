//! NURBS boolean between two faces, written into the mesh.
//!
//! The surface intersection and trimming work on the faces' surface
//! parameters, which the caller holds; they hand back trim loops grouped by
//! containment, already turned into vertices of the mesh. This module
//! checks the two faces and turns each group into a face carrying the
//! surface kind and material of its side. The input faces are kept.

use vstd::prelude::*;
use crate::ids::{VertId, FaceId, MaterialId, NULL_RAW};
use crate::mesh::{
    Mesh, MeshError, SurfaceKind, Face, new_loop_fields, is_loop, loop_verts, loop_input_ok, holes_sum,
    hole_views, new_face_ok, lemma_new_loop_extend, lemma_new_loop_is_loop,
};

verus! {

/// Result of a NURBS boolean written into the mesh.
#[derive(Debug)]
pub struct NurbsBooleanDcelResult {
    /// Faces made on the side of the first face.
    pub new_faces_a: Vec<FaceId>,
    /// Faces made on the side of the second face.
    pub new_faces_b: Vec<FaceId>,
    /// The input faces, which are kept.
    pub preserved_faces: Vec<FaceId>,
    /// The surfaces do not intersect; no face is made.
    pub disjoint: bool,
}

/// Why a NURBS boolean fails.
#[derive(Clone, Copy, Debug, PartialEq, Eq, Structural)]
pub enum NurbsBooleanError {
    FaceNotFound(FaceId),
    FaceInactive(FaceId),
    NoSurface(FaceId),
    /// The trim loops of a side nest deeper than one level of holes; the
    /// depth is given.
    NestedContainment(usize),
    /// Adding a trimmed face failed.
    Mesh(MeshError),
}

/// One outer trim loop and the holes directly inside it, as vertices of
/// the mesh.
#[derive(Debug)]
pub struct TrimGroup {
    pub outer: Vec<VertId>,
    pub holes: Vec<Vec<VertId>>,
}

/// The trim loops of one side, grouped by containment.
#[derive(Debug)]
pub struct TrimSide {
    /// Depth of the containment tree the groups come from (0 for outer
    /// loops only, 1 with holes).
    pub max_depth: usize,
    pub groups: Vec<TrimGroup>,
}

/// What the surface intersection hands back for the two faces.
#[derive(Debug)]
pub struct NurbsTrims {
    /// The surfaces do not meet.
    pub disjoint: bool,
    pub side_a: TrimSide,
    pub side_b: TrimSide,
}

/// What a NURBS boolean reads of face `f`: its surface kind and material,
/// or why the face cannot take part.
pub open spec fn boolean_face_input(m: Mesh, f: FaceId) -> Result<(SurfaceKind, MaterialId), NurbsBooleanError> {
    if !m.face_present(f) {
        Err(NurbsBooleanError::FaceNotFound(f))
    } else if !m.faces@[f.ix()].active {
        Err(NurbsBooleanError::FaceInactive(f))
    } else {
        match m.faces@[f.ix()].surface {
            None => Err(NurbsBooleanError::NoSurface(f)),
            Some(k) => Ok((k, m.faces@[f.ix()].material)),
        }
    }
}

/// Every loop of the group has at least three vertices; a group without
/// is skipped.
pub open spec fn group_usable(g: TrimGroup) -> bool {
    &&& g.outer@.len() >= 3
    &&& forall|q: int| 0 <= q < g.holes@.len() ==> (#[trigger] g.holes@[q])@.len() >= 3
}

/// Every loop of the group can bound a face of a mesh with `nv` vertices.
pub open spec fn group_loops_ok(g: TrimGroup, nv: int) -> bool {
    &&& loop_input_ok(g.outer@, nv)
    &&& forall|q: int| 0 <= q < g.holes@.len() ==> loop_input_ok((#[trigger] g.holes@[q])@, nv)
}

/// The number of vertices over all loops of the group.
pub open spec fn group_len(g: TrimGroup) -> nat {
    g.outer@.len() + holes_sum(g.holes@, g.holes@.len())
}

/// The usable groups, in order.
pub open spec fn usable_groups(gs: Seq<TrimGroup>) -> Seq<TrimGroup>
    decreases gs.len(),
{
    if gs.len() == 0 {
        Seq::empty()
    } else {
        let p = usable_groups(gs.drop_last());
        if group_usable(gs.last()) {
            p.push(gs.last())
        } else {
            p
        }
    }
}

/// The number of vertices over all loops of the groups.
pub open spec fn groups_len(gs: Seq<TrimGroup>) -> nat
    decreases gs.len(),
{
    if gs.len() == 0 {
        0
    } else {
        groups_len(gs.drop_last()) + group_len(gs.last())
    }
}

/// Face `f` of `m` is present and active with material `mat` and surface
/// `surf`, and its outer and hole loops run along those of `g` on
/// half-edges of its own.
pub open spec fn face_with_loops(m: Mesh, f: FaceId, g: TrimGroup, mat: MaterialId, surf: SurfaceKind) -> bool {
    let face = m.faces@[f.ix()];
    let holes = hole_views(g.holes@);
    &&& group_usable(g)
    &&& 0 <= f.ix() < m.faces@.len()
    &&& face.present
    &&& face.active
    &&& face.material == mat
    &&& face.surface == Some(surf)
    &&& !face.normal_flipped
    &&& face.outer.is_outer
    &&& 0 <= face.outer.start.ix()
    &&& face.outer.start.ix() + g.outer@.len() <= m.hes@.len()
    &&& new_loop_fields(m.hes@, m.edges@, face.outer.start.ix(), g.outer@, f, true)
    &&& is_loop(m.hes@, face.outer.start, g.outer@.len())
    &&& loop_verts(m.hes@, face.outer.start, g.outer@.len()) == g.outer@
    &&& face.inners@.len() == holes.len()
    &&& forall|k: int| 0 <= k < holes.len() ==> {
        &&& !(#[trigger] face.inners@[k]).is_outer
        &&& 0 <= face.inners@[k].start.ix()
        &&& face.inners@[k].start.ix() + holes[k].len() <= m.hes@.len()
        &&& new_loop_fields(m.hes@, m.edges@, face.inners@[k].start.ix(), holes[k], f, false)
        &&& is_loop(m.hes@, face.inners@[k].start, holes[k].len())
        &&& loop_verts(m.hes@, face.inners@[k].start, holes[k].len()) == holes[k]
    }
}

/// The faces `fs` have handles from `base` on and are bounded by the
/// groups `gs` in order.
pub open spec fn faces_with_loops_at(m: Mesh, fs: Seq<FaceId>, gs: Seq<TrimGroup>, base: int, mat: MaterialId, surf: SurfaceKind) -> bool {
    &&& fs.len() == gs.len()
    &&& forall|k: int| 0 <= k < gs.len() ==> (#[trigger] fs[k]).ix() == base + k && face_with_loops(m, fs[k], gs[k], mat, surf)
}

/// `new` is `old` grown by `n` faces and by half-edges and edges; nothing
/// of `old` changed.
pub open spec fn grown_by(old: Mesh, new: Mesh, n: nat) -> bool {
    &&& new.verts@ == old.verts@
    &&& new.faces@.len() == old.faces@.len() + n
    &&& new.faces@.take(old.faces@.len() as int) == old.faces@
    &&& new.hes@.len() >= old.hes@.len()
    &&& new.hes@.take(old.hes@.len() as int) == old.hes@
    &&& new.edges@.len() >= old.edges@.len()
    &&& new.edges@.take(old.edges@.len() as int) == old.edges@
}

/// The usable groups of `gs` fit a mesh like `m`: their loops are fit to
/// bound faces, and the arenas have room for them.
pub open spec fn groups_fit(m: Mesh, gs: Seq<TrimGroup>) -> bool {
    let us = usable_groups(gs);
    &&& forall|k: int| 0 <= k < us.len() ==> group_loops_ok(#[trigger] us[k], m.verts@.len() as int)
    &&& m.faces@.len() + us.len() + 2 < NULL_RAW
    &&& m.hes@.len() + groups_len(us) < NULL_RAW
    &&& m.edges@.len() + groups_len(us) < NULL_RAW
}

/// `new` and `r` are what turning the groups of one side into faces with
/// material `mat` and surface `surf` gives from `old`: nothing for no
/// group, a refusal for nested holes, else a face for each usable group
/// in order, owed where the groups fit.
pub open spec fn side_done(old: Mesh, new: Mesh, side: TrimSide, mat: MaterialId, surf: SurfaceKind, r: Result<Vec<FaceId>, NurbsBooleanError>) -> bool {
    let us = usable_groups(side.groups@);
    if side.groups@.len() == 0 {
        &&& new == old
        &&& r matches Ok(fs) && fs@.len() == 0
    } else if side.max_depth >= 2 {
        new == old && r == Err::<Vec<FaceId>, NurbsBooleanError>(NurbsBooleanError::NestedContainment(side.max_depth))
    } else {
        &&& groups_fit(old, side.groups@) ==> r is Ok
        &&& r is Err ==> r->Err_0 is Mesh
        &&& r matches Ok(fs) ==> {
            &&& grown_by(old, new, us.len())
            &&& new.hes@.len() == old.hes@.len() + groups_len(us)
            &&& new.edges@.len() <= old.edges@.len() + groups_len(us)
            &&& faces_with_loops_at(new, fs@, us, old.faces@.len() as int, mat, surf)
        }
    }
}

/// A side that can add faces: it has groups nesting no deeper than one
/// level of holes, or none at all.
pub open spec fn side_admissible(side: TrimSide) -> bool {
    side.groups@.len() == 0 || side.max_depth < 2
}

/// The usable groups of both sides fit the mesh `m` together.
pub open spec fn both_sides_fit(m: Mesh, a: TrimSide, b: TrimSide) -> bool {
    let ua = usable_groups(a.groups@);
    let ub = usable_groups(b.groups@);
    &&& forall|k: int| 0 <= k < ua.len() ==> group_loops_ok(#[trigger] ua[k], m.verts@.len() as int)
    &&& forall|k: int| 0 <= k < ub.len() ==> group_loops_ok(#[trigger] ub[k], m.verts@.len() as int)
    &&& m.faces@.len() + ua.len() + ub.len() + 2 < NULL_RAW
    &&& m.hes@.len() + groups_len(ua) + groups_len(ub) < NULL_RAW
    &&& m.edges@.len() + groups_len(ua) + groups_len(ub) < NULL_RAW
}

/// `new` and `r` are what a NURBS boolean between faces `a` and `b` with
/// intersection outcome `trims` gives from `old`: the faces are checked,
/// the first one first; disjoint surfaces add nothing; else the groups of
/// the first side become faces with its material and surface kind, then
/// those of the second side.
pub open spec fn nurbs_boolean_done(
    old: Mesh,
    new: Mesh,
    a: FaceId,
    b: FaceId,
    trims: NurbsTrims,
    r: Result<NurbsBooleanDcelResult, NurbsBooleanError>,
) -> bool {
    match boolean_face_input(old, a) {
        Err(e) => new == old && r == Err::<NurbsBooleanDcelResult, NurbsBooleanError>(e),
        Ok(ia) => match boolean_face_input(old, b) {
            Err(e) => new == old && r == Err::<NurbsBooleanDcelResult, NurbsBooleanError>(e),
            Ok(ib) => if trims.disjoint {
                &&& new == old
                &&& r matches Ok(res) && {
                    &&& res.new_faces_a@.len() == 0
                    &&& res.new_faces_b@.len() == 0
                    &&& res.preserved_faces@ == seq![a, b]
                    &&& res.disjoint
                }
            } else {
                let sa = trims.side_a;
                let sb = trims.side_b;
                let ua = usable_groups(sa.groups@);
                let ub = usable_groups(sb.groups@);
                &&& !side_admissible(sa) ==> new == old
                    && r == Err::<NurbsBooleanDcelResult, NurbsBooleanError>(NurbsBooleanError::NestedContainment(sa.max_depth))
                &&& side_admissible(sa) && groups_fit(old, sa.groups@) && !side_admissible(sb)
                    ==> r == Err::<NurbsBooleanDcelResult, NurbsBooleanError>(NurbsBooleanError::NestedContainment(sb.max_depth))
                &&& side_admissible(sa) && side_admissible(sb) && both_sides_fit(old, sa, sb) ==> r is Ok
                &&& r is Err ==> r->Err_0 is NestedContainment || r->Err_0 is Mesh
                &&& r matches Ok(res) ==> {
                    &&& !res.disjoint
                    &&& res.preserved_faces@ == seq![a, b]
                    &&& grown_by(old, new, ua.len() + ub.len())
                    &&& faces_with_loops_at(new, res.new_faces_a@, ua, old.faces@.len() as int, ia.1, ia.0)
                    &&& faces_with_loops_at(new, res.new_faces_b@, ub, (old.faces@.len() + ua.len()) as int, ib.1, ib.0)
                }
            },
        },
    }
}

/// A NURBS boolean keeps both input faces as they were: it only adds
/// faces.
pub proof fn law_nurbs_boolean_keeps_inputs(
    old: Mesh,
    new: Mesh,
    a: FaceId,
    b: FaceId,
    trims: NurbsTrims,
    r: Result<NurbsBooleanDcelResult, NurbsBooleanError>,
)
    requires
        nurbs_boolean_done(old, new, a, b, trims, r),
        r is Ok,
    ensures
        new.faces@[a.ix()] == old.faces@[a.ix()],
        new.faces@[b.ix()] == old.faces@[b.ix()],
        new.faces@[a.ix()].present && new.faces@[a.ix()].active,
        new.faces@[b.ix()].present && new.faces@[b.ix()].active,
{
    if !trims.disjoint {
        let n = old.faces@.len() as int;
        assert(new.faces@[a.ix()] == new.faces@.take(n)[a.ix()]);
        assert(new.faces@[b.ix()] == new.faces@.take(n)[b.ix()]);
    }
}

/// What a side that added its faces leaves, whether it had groups or not.
proof fn lemma_side_ok(old: Mesh, new: Mesh, side: TrimSide, mat: MaterialId, surf: SurfaceKind, r: Result<Vec<FaceId>, NurbsBooleanError>)
    requires
        side_done(old, new, side, mat, surf, r),
        r is Ok,
    ensures
        side_admissible(side),
        grown_by(old, new, usable_groups(side.groups@).len()),
        new.hes@.len() == old.hes@.len() + groups_len(usable_groups(side.groups@)),
        new.edges@.len() <= old.edges@.len() + groups_len(usable_groups(side.groups@)),
        faces_with_loops_at(new, r->Ok_0@, usable_groups(side.groups@), old.faces@.len() as int, mat, surf),
{
    if side.groups@.len() == 0 {
        assert(usable_groups(side.groups@) =~= Seq::<TrimGroup>::empty());
        assert(new.faces@.take(old.faces@.len() as int) =~= old.faces@);
        assert(new.hes@.take(old.hes@.len() as int) =~= old.hes@);
        assert(new.edges@.take(old.edges@.len() as int) =~= old.edges@);
    }
}

/// Growth composes.
proof fn lemma_grown_trans(m1: Mesh, m2: Mesh, m3: Mesh, n1: nat, n2: nat)
    requires
        grown_by(m1, m2, n1),
        grown_by(m2, m3, n2),
    ensures
        grown_by(m1, m3, n1 + n2),
{
    assert(m3.faces@.take(m1.faces@.len() as int) =~= m1.faces@) by {
        assert forall|i: int| 0 <= i < m1.faces@.len() implies m3.faces@[i] == m1.faces@[i] by {
            assert(m3.faces@[i] == m3.faces@.take(m2.faces@.len() as int)[i]);
            assert(m2.faces@[i] == m2.faces@.take(m1.faces@.len() as int)[i]);
        }
    }
    assert(m3.hes@.take(m1.hes@.len() as int) =~= m1.hes@) by {
        assert forall|i: int| 0 <= i < m1.hes@.len() implies m3.hes@[i] == m1.hes@[i] by {
            assert(m3.hes@[i] == m3.hes@.take(m2.hes@.len() as int)[i]);
            assert(m2.hes@[i] == m2.hes@.take(m1.hes@.len() as int)[i]);
        }
    }
    assert(m3.edges@.take(m1.edges@.len() as int) =~= m1.edges@) by {
        assert forall|i: int| 0 <= i < m1.edges@.len() implies m3.edges@[i] == m1.edges@[i] by {
            assert(m3.edges@[i] == m3.edges@.take(m2.edges@.len() as int)[i]);
            assert(m2.edges@[i] == m2.edges@.take(m1.edges@.len() as int)[i]);
        }
    }
}

/// A face keeps its loops while the arenas only grow and the face is left
/// alone.
pub proof fn lemma_face_with_loops_stable(m1: Mesh, m2: Mesh, f: FaceId, g: TrimGroup, mat: MaterialId, surf: SurfaceKind)
    requires
        face_with_loops(m1, f, g, mat, surf),
        m2.hes@.len() >= m1.hes@.len(),
        m2.hes@.take(m1.hes@.len() as int) == m1.hes@,
        m2.edges@.len() >= m1.edges@.len(),
        m2.edges@.take(m1.edges@.len() as int) == m1.edges@,
        f.ix() < m2.faces@.len(),
        m2.faces@[f.ix()] == m1.faces@[f.ix()],
    ensures
        face_with_loops(m2, f, g, mat, surf),
{
    let face = m1.faces@[f.ix()];
    let holes = hole_views(g.holes@);
    lemma_new_loop_extend(m1.hes@, m1.edges@, m2.hes@, m2.edges@, face.outer.start.ix(), g.outer@, f, true);
    lemma_new_loop_is_loop(m2.hes@, m2.edges@, face.outer.start, g.outer@, f, true);
    assert forall|k: int| 0 <= k < holes.len() implies {
        &&& !(#[trigger] face.inners@[k]).is_outer
        &&& 0 <= face.inners@[k].start.ix()
        &&& face.inners@[k].start.ix() + holes[k].len() <= m2.hes@.len()
        &&& new_loop_fields(m2.hes@, m2.edges@, face.inners@[k].start.ix(), holes[k], f, false)
        &&& is_loop(m2.hes@, face.inners@[k].start, holes[k].len())
        &&& loop_verts(m2.hes@, face.inners@[k].start, holes[k].len()) == holes[k]
    } by {
        assert(holes[k] == g.holes@[k]@);
        lemma_new_loop_extend(m1.hes@, m1.edges@, m2.hes@, m2.edges@, face.inners@[k].start.ix(), holes[k], f, false);
        lemma_new_loop_is_loop(m2.hes@, m2.edges@, face.inners@[k].start, holes[k], f, false);
    }
}

/// Faces bounded by groups keep their loops while the arenas only grow
/// and those faces are left alone.
pub proof fn lemma_faces_with_loops_stable(
    m1: Mesh,
    m2: Mesh,
    fs: Seq<FaceId>,
    gs: Seq<TrimGroup>,
    base: int,
    mat: MaterialId,
    surf: SurfaceKind,
)
    requires
        faces_with_loops_at(m1, fs, gs, base, mat, surf),
        0 <= base,
        base + gs.len() <= m1.faces@.len(),
        m2.faces@.len() >= m1.faces@.len(),
        m2.faces@.take(m1.faces@.len() as int) == m1.faces@,
        m2.hes@.len() >= m1.hes@.len(),
        m2.hes@.take(m1.hes@.len() as int) == m1.hes@,
        m2.edges@.len() >= m1.edges@.len(),
        m2.edges@.take(m1.edges@.len() as int) == m1.edges@,
    ensures
        faces_with_loops_at(m2, fs, gs, base, mat, surf),
{
    assert forall|k: int| 0 <= k < gs.len() implies (#[trigger] fs[k]).ix() == base + k && face_with_loops(m2, fs[k], gs[k], mat, surf) by {
        assert(m2.faces@[fs[k].ix()] == m2.faces@.take(m1.faces@.len() as int)[fs[k].ix()]);
        lemma_face_with_loops_stable(m1, m2, fs[k], gs[k], mat, surf);
    }
}

/// Taking more groups never takes fewer usable ones.
proof fn lemma_usable_mono(gs: Seq<TrimGroup>, i: int, j: int)
    requires
        0 <= i <= j <= gs.len(),
    ensures
        usable_groups(gs.take(i)).len() <= usable_groups(gs.take(j)).len(),
        groups_len(usable_groups(gs.take(i))) <= groups_len(usable_groups(gs.take(j))),
    decreases j - i,
{
    if i < j {
        lemma_usable_mono(gs, i, j - 1);
        let t = gs.take(j);
        assert(t.drop_last() =~= gs.take(j - 1));
        let p = usable_groups(gs.take(j - 1));
        if group_usable(t.last()) {
            assert(p.push(t.last()).drop_last() =~= p);
        }
    }
}

/// Whether every loop of the group has at least three vertices.
fn group_is_usable(g: &TrimGroup) -> (b: bool)
    ensures
        b == group_usable(*g),
{
    if g.outer.len() < 3 {
        return false;
    }
    let n = g.holes.len();
    let mut k: usize = 0;
    while k < n
        invariant
            n == g.holes@.len(),
            k <= n,
            forall|q: int| 0 <= q < k ==> (#[trigger] g.holes@[q])@.len() >= 3,
        decreases n - k,
    {
        if g.holes[k].len() < 3 {
            return false;
        }
        k += 1;
    }
    true
}

impl Mesh {
    /// The surface kind and material of face `f` (see `boolean_face_input`).
    fn boolean_face(&self, f: FaceId) -> (r: Result<(SurfaceKind, MaterialId), NurbsBooleanError>)
        requires
            self.wf(),
        ensures
            r == boolean_face_input(*self, f),
    {
        if f.id as usize >= self.faces.len() || !self.faces[f.id as usize].present {
            return Err(NurbsBooleanError::FaceNotFound(f));
        }
        let face = &self.faces[f.id as usize];
        if !face.active {
            return Err(NurbsBooleanError::FaceInactive(f));
        }
        match face.surface {
            None => Err(NurbsBooleanError::NoSurface(f)),
            Some(k) => Ok((k, face.material)),
        }
    }

    /// NURBS boolean between faces `face_a` and `face_b` (see
    /// `nurbs_boolean_done`), given what the surface intersection gave for
    /// them. The input faces are kept; the new faces carry the surface kind
    /// and material of their side.
    pub fn nurbs_boolean_to_dcel(
        &mut self,
        face_a: FaceId,
        face_b: FaceId,
        trims: &NurbsTrims,
    ) -> (r: Result<NurbsBooleanDcelResult, NurbsBooleanError>)
        requires
            old(self).wf(),
        ensures
            final(self).wf(),
            nurbs_boolean_done(*old(self), *final(self), face_a, face_b, *trims, r),
    {
        let (ka, ma) = match self.boolean_face(face_a) {
            Ok(x) => x,
            Err(e) => {
                return Err(e);
            },
        };
        let (kb, mb) = match self.boolean_face(face_b) {
            Ok(x) => x,
            Err(e) => {
                return Err(e);
            },
        };
        let mut preserved: Vec<FaceId> = Vec::new();
        preserved.push(face_a);
        preserved.push(face_b);
        proof {
            assert(preserved@ =~= seq![face_a, face_b]);
        }
        if trims.disjoint {
            return Ok(NurbsBooleanDcelResult {
                new_faces_a: Vec::new(),
                new_faces_b: Vec::new(),
                preserved_faces: preserved,
                disjoint: true,
            });
        }
        let ghost m0 = *self;
        let ghost sa = trims.side_a;
        let ghost sb = trims.side_b;
        let ra = self.containment_to_faces_with_loops(&trims.side_a, ka, ma);
        let ghost mid = *self;
        let fa = match ra {
            Ok(v) => v,
            Err(e) => {
                return Err(e);
            },
        };
        proof {
            lemma_side_ok(m0, mid, sa, ma, ka, ra);
            let ua = usable_groups(sa.groups@);
            let ub = usable_groups(sb.groups@);
            if both_sides_fit(m0, sa, sb) {
                assert(groups_fit(mid, sb.groups@));
            }
        }
        let rb = self.containment_to_faces_with_loops(&trims.side_b, kb, mb);
        let fb = match rb {
            Ok(v) => v,
            Err(e) => {
                return Err(e);
            },
        };
        proof {
            let ua = usable_groups(sa.groups@);
            let ub = usable_groups(sb.groups@);
            lemma_side_ok(mid, *self, sb, mb, kb, rb);
            lemma_grown_trans(m0, mid, *self, ua.len(), ub.len());
            lemma_faces_with_loops_stable(mid, *self, fa@, ua, m0.faces@.len() as int, ma, ka);
        }
        Ok(NurbsBooleanDcelResult { new_faces_a: fa, new_faces_b: fb, preserved_faces: preserved, disjoint: false })
    }

    /// Turns the trim groups of one side into faces with the side's
    /// material and surface kind (see `side_done`): groups with a loop of
    /// fewer than three vertices are skipped, and holes nested inside
    /// holes are refused.
    pub(crate) fn containment_to_faces_with_loops(
        &mut self,
        side: &TrimSide,
        surface: SurfaceKind,
        material: MaterialId,
    ) -> (r: Result<Vec<FaceId>, NurbsBooleanError>)
        requires
            old(self).wf(),
        ensures
            final(self).wf(),
            side_done(*old(self), *final(self), *side, material, surface, r),
    {
        if side.groups.len() == 0 {
            return Ok(Vec::new());
        }
        if side.max_depth >= 2 {
            return Err(NurbsBooleanError::NestedContainment(side.max_depth));
        }
        let ghost m0 = *self;
        let ghost gs = side.groups@;
        let n = side.groups.len();
        let mut fs: Vec<FaceId> = Vec::new();
        let mut k: usize = 0;
        proof {
            assert(gs.take(0) =~= Seq::<TrimGroup>::empty());
            assert(self.faces@.take(m0.faces@.len() as int) =~= m0.faces@);
            assert(self.hes@.take(m0.hes@.len() as int) =~= m0.hes@);
            assert(self.edges@.take(m0.edges@.len() as int) =~= m0.edges@);
        }
        while k < n
            invariant
                self.wf(),
                m0 == *old(self),
                side.max_depth < 2,
                n == gs.len(),
                gs == side.groups@,
                k <= n,
                grown_by(m0, *self, usable_groups(gs.take(k as int)).len()),
                self.hes@.len() == m0.hes@.len() + groups_len(usable_groups(gs.take(k as int))),
                self.edges@.len() <= m0.edges@.len() + groups_len(usable_groups(gs.take(k as int))),
                faces_with_loops_at(*self, fs@, usable_groups(gs.take(k as int)), m0.faces@.len() as int, material, surface),
            decreases n - k,
        {
            let g = &side.groups[k];
            let ghost pk = usable_groups(gs.take(k as int));
            proof {
                assert(gs.take(k + 1).drop_last() =~= gs.take(k as int));
                assert(gs.take(k + 1).last() == gs[k as int]);
                lemma_usable_mono(gs, k + 1, n as int);
                assert(gs.take(n as int) =~= gs);
            }
            if group_is_usable(g) {
                let ghost cur = *self;
                proof {
                    assert(usable_groups(gs.take(k + 1)) == pk.push(*g));
                    assert(pk.push(*g).drop_last() =~= pk);
                    assert(groups_len(pk.push(*g)) == groups_len(pk) + group_len(*g));
                }
                let fid = match self.add_face_with_holes(g.outer.as_slice(), g.holes.as_slice(), material) {
                    Ok(f) => f,
                    Err(e) => {
                        proof {
                            if groups_fit(m0, gs) {
                                let us = usable_groups(gs);
                                assert(us[pk.len() as int] == usable_groups(gs.take(k + 1))[pk.len() as int]) by {
                                    lemma_usable_prefix(gs, k + 1, n as int);
                                }
                                assert(usable_groups(gs.take(k + 1))[pk.len() as int] == *g);
                                assert(group_loops_ok(*g, m0.verts@.len() as int));
                                assert(false);
                            }
                        }
                        return Err(NurbsBooleanError::Mesh(e));
                    },
                };
                let ghost added = *self;
                let _ = self.set_face_surface(fid, Some(surface));
                let ghost fb = fs@;
                fs.push(fid);
                proof {
                    let holes = hole_views(g.holes@);
                    assert(new_face_ok(added, fid, g.outer@, holes, material));
                    let face = self.faces@[fid.ix()];
                    assert(face == Face { surface: Some(surface), ..added.faces@[fid.ix()] });
                    assert forall|q: int| 0 <= q < g.holes@.len() implies (#[trigger] g.holes@[q])@.len() >= 3 by {
                        assert(holes[q] == g.holes@[q]@);
                    }
                    assert(face_with_loops(*self, fid, *g, material, surface));
                    assert(self.faces@.take(cur.faces@.len() as int) =~= cur.faces@);
                    lemma_faces_with_loops_stable(cur, *self, fb, pk, m0.faces@.len() as int, material, surface);
                    let pk1 = pk.push(*g);
                    assert forall|q: int| 0 <= q < pk1.len() implies (#[trigger] fs@[q]).ix() == m0.faces@.len() + q
                        && face_with_loops(*self, fs@[q], pk1[q], material, surface) by {
                        if q < pk.len() {
                            assert(fs@[q] == fb[q]);
                            assert(pk1[q] == pk[q]);
                        }
                    }
                    assert(self.faces@.take(m0.faces@.len() as int) =~= m0.faces@) by {
                        assert forall|i: int| 0 <= i < m0.faces@.len() implies self.faces@[i] == m0.faces@[i] by {
                            assert(self.faces@[i] == cur.faces@.take(cur.faces@.len() as int)[i]);
                            assert(cur.faces@[i] == cur.faces@.take(m0.faces@.len() as int)[i]);
                        }
                    }
                    assert(self.hes@.take(m0.hes@.len() as int) =~= m0.hes@) by {
                        assert forall|i: int| 0 <= i < m0.hes@.len() implies self.hes@[i] == m0.hes@[i] by {
                            assert(self.hes@[i] == self.hes@.take(cur.hes@.len() as int)[i]);
                            assert(cur.hes@[i] == cur.hes@.take(m0.hes@.len() as int)[i]);
                        }
                    }
                    assert(self.edges@.take(m0.edges@.len() as int) =~= m0.edges@) by {
                        assert forall|i: int| 0 <= i < m0.edges@.len() implies self.edges@[i] == m0.edges@[i] by {
                            assert(self.edges@[i] == self.edges@.take(cur.edges@.len() as int)[i]);
                            assert(cur.edges@[i] == cur.edges@.take(m0.edges@.len() as int)[i]);
                        }
                    }
                }
            } else {
                proof {
                    assert(usable_groups(gs.take(k + 1)) == pk);
                }
            }
            k += 1;
        }
        proof {
            assert(gs.take(n as int) =~= gs);
        }
        Ok(fs)
    }
}

/// The usable groups of a prefix are a prefix of the usable groups.
proof fn lemma_usable_prefix(gs: Seq<TrimGroup>, i: int, j: int)
    requires
        0 <= i <= j <= gs.len(),
    ensures
        usable_groups(gs.take(i)).len() <= usable_groups(gs.take(j)).len(),
        forall|q: int| 0 <= q < usable_groups(gs.take(i)).len()
            ==> #[trigger] usable_groups(gs.take(j))[q] == usable_groups(gs.take(i))[q],
    decreases j - i,
{
    if i < j {
        lemma_usable_prefix(gs, i, j - 1);
        let t = gs.take(j);
        assert(t.drop_last() =~= gs.take(j - 1));
    }
}

} // verus!
