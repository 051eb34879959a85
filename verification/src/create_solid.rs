//! Solid creation results, and classification of a profile face's
//! boundary curves (which decides how an extrusion is routed).

use vstd::prelude::*;
use crate::ids::{EdgeId, FaceId, VertId, MaterialId, HeId, NULL_RAW};
use crate::offset::{verts_pushed, fresh_verts, loop_vertices};
use crate::primitives::{faces_built, ring_next, vert_at, lemma_mod_next};
use crate::mesh::{
    Mesh, MeshError, CurveKind, SurfaceKind, loop_edges, is_loop, walk, loop_closes, loop_len, loop_error,
    lemma_loop_len, loop_input_ok, loop_verts, lemma_walk_valid, hole_views,
};

verus! {

/// Kind of solid a creation produced.
#[derive(Clone, Copy, Debug, PartialEq, Eq, Structural)]
pub enum SolidKind {
    /// Planar profile with straight edges: a box of planes.
    Box,
    /// Planar profile with circular edges: a cylinder and two caps.
    Cylinder,
    /// Curved profile offset as a whole smooth group.
    SmoothGroupOffset,
    /// Mixed or free-form profile swept into general walls.
    GeneralSweep,
    /// Result of a revolve.
    RevolutionSolid,
    /// Result of a sweep.
    SweptSolid,
    /// Result of a loft.
    LoftSolid,
}

/// Kind of the curves bounding a profile face.
#[derive(Clone, Copy, Debug, PartialEq, Eq, Structural)]
pub enum BoundaryKind {
    /// Every edge is a line (an edge without a curve counts as a line).
    AllLinear,
    /// Every edge is a circle or an arc.
    AllCircular,
    /// Anything else: lines and arcs together, or free-form curves.
    Mixed,
}

/// Result of creating a solid from a profile face.
#[derive(Debug)]
pub struct CreateSolidResult {
    pub profile_face: FaceId,
    pub solid_kind: SolidKind,
    pub top_face: FaceId,
    pub side_faces: Vec<FaceId>,
    pub all_solid_faces: Vec<FaceId>,
    pub adjacent_splits: usize,
    pub split_debug: Vec<String>,
}

/// `s` with every occurrence of `x` left out.
pub open spec fn without(s: Seq<FaceId>, x: FaceId) -> Seq<FaceId>
    decreases s.len(),
{
    if s.len() == 0 {
        Seq::empty()
    } else {
        let p = without(s.drop_last(), x);
        if s.last() == x {
            p
        } else {
            p.push(s.last())
        }
    }
}

/// The solid that offsetting the smooth group `group` of `profile_face`
/// makes: no new face, so the profile is also the top; the other group
/// faces are the sides, and the whole group is the solid.
pub fn smooth_group_solid(profile_face: FaceId, group: Vec<FaceId>) -> (r: CreateSolidResult)
    ensures
        r.profile_face == profile_face,
        r.solid_kind == SolidKind::SmoothGroupOffset,
        r.top_face == profile_face,
        r.side_faces@ == without(group@, profile_face),
        r.all_solid_faces@ == group@,
        r.adjacent_splits == 0,
        r.split_debug@.len() == 0,
{
    let n = group.len();
    let mut side_faces: Vec<FaceId> = Vec::new();
    let mut i: usize = 0;
    assert(group@.take(0) =~= Seq::<FaceId>::empty());
    while i < n
        invariant
            n == group@.len(),
            i <= n,
            side_faces@ == without(group@.take(i as int), profile_face),
        decreases n - i,
    {
        let f = group[i];
        assert(group@.take(i + 1).drop_last() =~= group@.take(i as int));
        if f != profile_face {
            side_faces.push(f);
        }
        i += 1;
    }
    assert(group@.take(n as int) =~= group@);
    CreateSolidResult {
        profile_face,
        solid_kind: SolidKind::SmoothGroupOffset,
        top_face: profile_face,
        side_faces,
        all_solid_faces: group,
        adjacent_splits: 0,
        split_debug: Vec::new(),
    }
}

pub open spec fn is_linear(c: Option<CurveKind>) -> bool {
    c is None || c == Some(CurveKind::Line)
}

pub open spec fn is_circular(c: Option<CurveKind>) -> bool {
    c == Some(CurveKind::Circle) || c == Some(CurveKind::Arc)
}

/// The kind of a non-empty list of boundary curves.
pub open spec fn boundary_kind_of(curves: Seq<Option<CurveKind>>) -> BoundaryKind {
    if forall|i: int| 0 <= i < curves.len() ==> is_linear(#[trigger] curves[i]) {
        BoundaryKind::AllLinear
    } else if forall|i: int| 0 <= i < curves.len() ==> is_circular(#[trigger] curves[i]) {
        BoundaryKind::AllCircular
    } else {
        BoundaryKind::Mixed
    }
}

/// Scanning the edges `es` from position `i`, with `lin` / `circ` telling
/// whether all edges so far were lines / circular. The scan fails on a dead
/// edge, and stops (mixed) at the first free-form curve.
pub open spec fn classify_scan(m: Mesh, es: Seq<EdgeId>, i: int, lin: bool, circ: bool) -> Result<BoundaryKind, MeshError>
    decreases es.len() - i,
{
    if i < 0 || i >= es.len() {
        Ok(if lin { BoundaryKind::AllLinear } else if circ { BoundaryKind::AllCircular } else { BoundaryKind::Mixed })
    } else if !m.edge_alive(es[i]) {
        Err(MeshError::EdgeNotFound(es[i]))
    } else {
        let c = m.edges@[es[i].ix()].curve;
        if is_linear(c) {
            classify_scan(m, es, i + 1, lin, false)
        } else if is_circular(c) {
            classify_scan(m, es, i + 1, false, circ)
        } else {
            Ok(BoundaryKind::Mixed)
        }
    }
}

/// With every edge live, the scan gives the kind of the curves.
pub proof fn lemma_classify_scan(m: Mesh, es: Seq<EdgeId>, i: int, lin: bool, circ: bool)
    requires
        0 <= i <= es.len(),
        es.len() >= 1,
        forall|k: int| 0 <= k < es.len() ==> m.edge_alive(#[trigger] es[k]),
        lin == forall|k: int| 0 <= k < i ==> is_linear(m.edges@[(#[trigger] es[k]).ix()].curve),
        circ == forall|k: int| 0 <= k < i ==> is_circular(m.edges@[(#[trigger] es[k]).ix()].curve),
        i == 0 ==> lin && circ,
    ensures
        classify_scan(m, es, i, lin, circ) == Ok::<BoundaryKind, MeshError>(
            boundary_kind_of(es.map_values(|e: EdgeId| m.edges@[e.ix()].curve)),
        ),
    decreases es.len() - i,
{
    let cs = es.map_values(|e: EdgeId| m.edges@[e.ix()].curve);
    if i >= es.len() {
        if lin {
            assert forall|k: int| 0 <= k < cs.len() implies is_linear(#[trigger] cs[k]) by {
                assert(is_linear(m.edges@[es[k].ix()].curve));
            }
        } else {
            let k = choose|k: int| 0 <= k < i && !is_linear(m.edges@[(#[trigger] es[k]).ix()].curve);
            assert(!is_linear(cs[k]));
            if circ {
                assert forall|k: int| 0 <= k < cs.len() implies is_circular(#[trigger] cs[k]) by {
                    assert(is_circular(m.edges@[es[k].ix()].curve));
                }
            } else {
                let k2 = choose|k: int| 0 <= k < i && !is_circular(m.edges@[(#[trigger] es[k]).ix()].curve);
                assert(!is_circular(cs[k2]));
            }
        }
    } else {
        let c = m.edges@[es[i].ix()].curve;
        if is_linear(c) {
            assert(!is_circular(c));
            lemma_classify_scan(m, es, i + 1, lin, false);
        } else if is_circular(c) {
            lemma_classify_scan(m, es, i + 1, false, circ);
        } else {
            assert(!is_linear(cs[i]));
            assert(!is_circular(cs[i]));
        }
    }
}

/// The classification of the curves bounding face `f`: the face must be
/// present and its outer loop close; the scan then goes round the loop.
pub open spec fn boundary_class(m: Mesh, f: FaceId) -> Result<BoundaryKind, MeshError> {
    let s = m.faces@[f.ix()].outer.start;
    if !m.face_present(f) {
        Err(MeshError::FaceNotFound(f))
    } else if !loop_closes(m.hes@, s) {
        Err(loop_error(m, s))
    } else {
        classify_scan(m, loop_edges(m.hes@, s, loop_len(m.hes@, s)), 0, true, true)
    }
}

/// Classifies the curves of a face's outer boundary: all lines (an edge
/// without a curve counts as a line), all circles or arcs, or mixed.
///
/// Fails when the face is missing, its outer loop does not close, or the
/// scan meets a removed edge before any free-form curve.
pub fn classify_boundary(mesh: &Mesh, face: FaceId) -> (r: Result<BoundaryKind, MeshError>)
    requires
        mesh.wf(),
    ensures
        r == boundary_class(*mesh, face),
        r matches Ok(k) ==> {
            let s = mesh.faces@[face.ix()].outer.start;
            &&& mesh.face_present(face)
            &&& exists|n: nat| #[trigger] is_loop(mesh.hes@, s, n)
                && classify_scan(*mesh, loop_edges(mesh.hes@, s, n), 0, true, true) == Ok::<BoundaryKind, MeshError>(k)
                && ((forall|i: int| 0 <= i < n ==> mesh.edge_alive(#[trigger] loop_edges(mesh.hes@, s, n)[i]))
                    ==> k == boundary_kind_of(loop_edges(mesh.hes@, s, n).map_values(|e: EdgeId| mesh.edges@[e.ix()].curve)))
        },
        r matches Err(MeshError::EdgeNotFound(e)) ==> {
            let s = mesh.faces@[face.ix()].outer.start;
            &&& mesh.face_present(face)
            &&& exists|n: nat| #[trigger] is_loop(mesh.hes@, s, n)
                && classify_scan(*mesh, loop_edges(mesh.hes@, s, n), 0, true, true) == Err::<BoundaryKind, MeshError>(MeshError::EdgeNotFound(e))
        },
        r matches Err(e) ==> (e is EdgeNotFound || !mesh.face_present(face) || {
            let s = mesh.faces@[face.ix()].outer.start;
            !mesh.valid_he(s) || forall|k: nat|
                1 <= k <= mesh.hes@.len() ==> #[trigger] walk(mesh.hes@, s, k) != s
        }),
{
    let edges = match mesh.face_outer_edges(face) {
        Ok(es) => es,
        Err(x) => {
            return Err(x);
        },
    };
    let n = edges.len();
    let ghost s = mesh.faces@[face.ix()].outer.start;
    if n == 0 {
        return Err(MeshError::DegenerateLoop);
    }
    let mut all_linear = true;
    let mut all_circular = true;
    let mut i: usize = 0;
    while i < n
        invariant
            mesh.wf(),
            n == edges@.len(),
            n >= 1,
            i <= n,
            edges@ == loop_edges(mesh.hes@, s, n as nat),
            is_loop(mesh.hes@, s, n as nat),
            mesh.face_present(face),
            s == mesh.faces@[face.ix()].outer.start,
            loop_closes(mesh.hes@, s),
            n == loop_len(mesh.hes@, s),
            classify_scan(*mesh, edges@, 0, true, true) == classify_scan(*mesh, edges@, i as int, all_linear, all_circular),
            all_linear == forall|k: int| 0 <= k < i ==> crate::create_solid::is_linear(mesh.edges@[(#[trigger] edges@[k]).ix()].curve),
            all_circular == forall|k: int| 0 <= k < i ==> crate::create_solid::is_circular(mesh.edges@[(#[trigger] edges@[k]).ix()].curve),
            forall|k: int| 0 <= k < i ==> mesh.edge_alive(#[trigger] edges@[k]),
        decreases n - i,
    {
        let eid = edges[i];
        proof { assert(is_loop(mesh.hes@, s, n as nat)); }
        if eid.id as usize >= mesh.edges.len() || !mesh.edges[eid.id as usize].alive {
            assert(classify_scan(*mesh, edges@, i as int, all_linear, all_circular) == Err::<BoundaryKind, MeshError>(MeshError::EdgeNotFound(eid)));
            return Err(MeshError::EdgeNotFound(eid));
        }
        match mesh.edges[eid.id as usize].curve {
            None | Some(CurveKind::Line) => {
                all_circular = false;
            },
            Some(CurveKind::Circle) | Some(CurveKind::Arc) => {
                all_linear = false;
            },
            Some(_) => {
                assert(classify_scan(*mesh, edges@, i as int, all_linear, all_circular) == Ok::<BoundaryKind, MeshError>(BoundaryKind::Mixed));
                proof {
                    let cs = edges@.map_values(|e: EdgeId| mesh.edges@[e.ix()].curve);
                    assert(!crate::create_solid::is_linear(cs[i as int]));
                    assert(!crate::create_solid::is_circular(cs[i as int]));
                    assert(boundary_kind_of(cs) == BoundaryKind::Mixed);
                    assert(is_loop(mesh.hes@, s, n as nat));
                }
                return Ok(BoundaryKind::Mixed);
            },
        }
        i += 1;
    }
    proof {
        lemma_classify_scan(*mesh, edges@, 0, true, true);
        assert(is_loop(mesh.hes@, s, n as nat));
    }
    if all_linear {
        Ok(BoundaryKind::AllLinear)
    } else if all_circular {
        Ok(BoundaryKind::AllCircular)
    } else {
        Ok(BoundaryKind::Mixed)
    }
}

/// Where an extrusion of a profile face is sent.
#[derive(Clone, Copy, Debug, PartialEq, Eq, Structural)]
pub enum ExtrudeRoute {
    /// Plane profile bounded by lines: a box.
    PlanarBox,
    /// Plane profile bounded by circles or arcs: a cylinder.
    PlanarCylinder,
    /// Curved profiles: the smooth group is offset as a whole.
    SmoothGroupCylinder,
    SmoothGroupSphere,
    SmoothGroupCone,
    SmoothGroupTorus,
    /// Free-form profile: general walls.
    NurbsClassProfile,
}

/// Why an extrusion cannot be routed.
#[derive(Clone, Copy, Debug, PartialEq, Eq, Structural)]
pub enum SolidRouteError {
    FaceNotFound,
    /// The extrusion distance is below the length tolerance.
    DegenerateDistance,
    NoProfileSurface,
    BoundaryCollection(MeshError),
    /// A plane profile bounded by lines and curves together is not yet
    /// extruded.
    PlaneMixedBoundary,
}

/// The route of an extrusion of face `f`; `degenerate_distance` tells
/// whether the distance is below the length tolerance.
pub open spec fn extrude_route(m: Mesh, f: FaceId, degenerate_distance: bool) -> Result<ExtrudeRoute, SolidRouteError> {
    if !m.face_present(f) {
        Err(SolidRouteError::FaceNotFound)
    } else if degenerate_distance {
        Err(SolidRouteError::DegenerateDistance)
    } else {
        match m.faces@[f.ix()].surface {
            None => Err(SolidRouteError::NoProfileSurface),
            Some(surf) => match boundary_class(m, f) {
                Err(e) => Err(SolidRouteError::BoundaryCollection(e)),
                Ok(b) => match surf {
                    SurfaceKind::Plane => match b {
                        BoundaryKind::AllLinear => Ok(ExtrudeRoute::PlanarBox),
                        BoundaryKind::AllCircular => Ok(ExtrudeRoute::PlanarCylinder),
                        BoundaryKind::Mixed => Err(SolidRouteError::PlaneMixedBoundary),
                    },
                    SurfaceKind::Cylinder => Ok(ExtrudeRoute::SmoothGroupCylinder),
                    SurfaceKind::Sphere => Ok(ExtrudeRoute::SmoothGroupSphere),
                    SurfaceKind::Cone => Ok(ExtrudeRoute::SmoothGroupCone),
                    SurfaceKind::Torus => Ok(ExtrudeRoute::SmoothGroupTorus),
                    _ => Ok(ExtrudeRoute::NurbsClassProfile),
                },
            },
        }
    }
}

/// Law: a non-degenerate extrusion of a profile whose boundary can be
/// classified routes by the profile's surface: a profile on a cylinder,
/// sphere, cone or torus goes to that surface's own smooth-group offset,
/// and each smooth-group route is taken for that surface alone; a plane
/// goes to a planar route or is refused for a mixed boundary; a profile
/// without a surface is refused.
pub proof fn law_route_follows_surface(m: Mesh, f: FaceId)
    requires
        m.face_present(f),
        boundary_class(m, f) is Ok,
    ensures
        (extrude_route(m, f, false) == Ok::<ExtrudeRoute, SolidRouteError>(ExtrudeRoute::SmoothGroupCylinder))
            <==> m.faces@[f.ix()].surface == Some(SurfaceKind::Cylinder),
        (extrude_route(m, f, false) == Ok::<ExtrudeRoute, SolidRouteError>(ExtrudeRoute::SmoothGroupSphere))
            <==> m.faces@[f.ix()].surface == Some(SurfaceKind::Sphere),
        (extrude_route(m, f, false) == Ok::<ExtrudeRoute, SolidRouteError>(ExtrudeRoute::SmoothGroupCone))
            <==> m.faces@[f.ix()].surface == Some(SurfaceKind::Cone),
        (extrude_route(m, f, false) == Ok::<ExtrudeRoute, SolidRouteError>(ExtrudeRoute::SmoothGroupTorus))
            <==> m.faces@[f.ix()].surface == Some(SurfaceKind::Torus),
        m.faces@[f.ix()].surface == Some(SurfaceKind::Plane) <==> (extrude_route(m, f, false) == Ok::<ExtrudeRoute, SolidRouteError>(
            ExtrudeRoute::PlanarBox,
        ) || extrude_route(m, f, false) == Ok::<ExtrudeRoute, SolidRouteError>(ExtrudeRoute::PlanarCylinder)
            || extrude_route(m, f, false) == Err::<ExtrudeRoute, SolidRouteError>(SolidRouteError::PlaneMixedBoundary)),
        m.faces@[f.ix()].surface is None <==> extrude_route(m, f, false) == Err::<ExtrudeRoute, SolidRouteError>(
            SolidRouteError::NoProfileSurface,
        ),
{
}

/// Routes an extrusion of `profile_face` by its surface and the curves of
/// its boundary (see `extrude_route`).
pub fn create_solid_route(mesh: &Mesh, profile_face: FaceId, degenerate_distance: bool) -> (r: Result<ExtrudeRoute, SolidRouteError>)
    requires
        mesh.wf(),
    ensures
        r == extrude_route(*mesh, profile_face, degenerate_distance),
{
    if profile_face.id as usize >= mesh.faces.len() || !mesh.faces[profile_face.id as usize].present {
        return Err(SolidRouteError::FaceNotFound);
    }
    if degenerate_distance {
        return Err(SolidRouteError::DegenerateDistance);
    }
    let surf = match mesh.faces[profile_face.id as usize].surface {
        None => {
            return Err(SolidRouteError::NoProfileSurface);
        },
        Some(s) => s,
    };
    let b = match classify_boundary(mesh, profile_face) {
        Ok(b) => b,
        Err(e) => {
            return Err(SolidRouteError::BoundaryCollection(e));
        },
    };
    match surf {
        SurfaceKind::Plane => match b {
            BoundaryKind::AllLinear => Ok(ExtrudeRoute::PlanarBox),
            BoundaryKind::AllCircular => Ok(ExtrudeRoute::PlanarCylinder),
            BoundaryKind::Mixed => Err(SolidRouteError::PlaneMixedBoundary),
        },
        SurfaceKind::Cylinder => Ok(ExtrudeRoute::SmoothGroupCylinder),
        SurfaceKind::Sphere => Ok(ExtrudeRoute::SmoothGroupSphere),
        SurfaceKind::Cone => Ok(ExtrudeRoute::SmoothGroupCone),
        SurfaceKind::Torus => Ok(ExtrudeRoute::SmoothGroupTorus),
        _ => Ok(ExtrudeRoute::NurbsClassProfile),
    }
}

/// Why a planar extrusion cannot be built.
#[derive(Clone, Copy, Debug, PartialEq, Eq, Structural)]
pub enum ExtrudeError {
    /// The profile's outer loop cannot be collected, or repeats a vertex
    /// in a row.
    Boundary(MeshError),
    /// The profile has fewer than three boundary vertices.
    TooFewBoundaryVerts(usize),
    CapacityExceeded,
}

/// The loops of a planar extrusion's new faces over the profile's
/// boundary `lv`, the new vertices starting at slot `b`: the top along the
/// new vertices, then one quad per boundary edge, wound so that it faces
/// outward for the direction `up` (along the profile normal or against it).
pub open spec fn extrude_loops(lv: Seq<VertId>, b: nat, up: bool) -> Seq<Seq<VertId>> {
    let n = lv.len();
    Seq::new(
        n + 1,
        |k: int|
            if k == 0 {
                fresh_verts(b, n)
            } else {
                let i = k - 1;
                let j = ring_next(i, n as int);
                if up {
                    seq![lv[i], lv[j], vert_at(b, j), vert_at(b, i)]
                } else {
                    seq![lv[j], lv[i], vert_at(b, i), vert_at(b, j)]
                }
            },
    )
}

/// The surfaces of a planar extrusion's new faces: a plane on top, `side`
/// on the walls.
pub open spec fn extrude_surfaces(n: nat, side: SurfaceKind) -> Seq<Option<SurfaceKind>> {
    Seq::new(n + 1, |k: int| if k == 0 { Some(SurfaceKind::Plane) } else { Some(side) })
}

/// An extrusion over `n` boundary vertices fits in the arenas.
pub open spec fn extrude_fits(m: Mesh, n: nat) -> bool {
    &&& m.verts@.len() + n < NULL_RAW
    &&& m.faces@.len() + n + 3 < NULL_RAW
    &&& m.hes@.len() + 5 * n < NULL_RAW
    &&& m.edges@.len() + 5 * n < NULL_RAW
}

/// The wall surface of a planar extrusion of kind `kind`.
pub open spec fn wall_surface(kind: SolidKind) -> SurfaceKind {
    if kind == SolidKind::Cylinder { SurfaceKind::Cylinder } else { SurfaceKind::Plane }
}

/// Extruding the plane profile `f` (`up` along its normal or against it)
/// into a solid of kind `kind` took `old` to `new` with result `r`. The
/// outer loop must close with at least three vertices, none repeated in a
/// row; one new vertex per boundary vertex is then added (the caller
/// places it on the translated profile), then the top face and one wall
/// quad per boundary edge. The profile face stays.
pub open spec fn extruded(
    old: Mesh,
    new: Mesh,
    f: FaceId,
    up: bool,
    material: MaterialId,
    kind: SolidKind,
    r: Result<CreateSolidResult, ExtrudeError>,
) -> bool {
    let s = old.faces@[f.ix()].outer.start;
    let same = new.verts@ == old.verts@ && new.hes@ == old.hes@ && new.edges@ == old.edges@ && new.faces@ == old.faces@;
    if !loop_closes(old.hes@, s) {
        r == Err::<CreateSolidResult, ExtrudeError>(ExtrudeError::Boundary(loop_error(old, s))) && same
    } else {
        let lv = loop_vertices(old, s);
        let n = lv.len();
        if n < 3 {
            r == Err::<CreateSolidResult, ExtrudeError>(ExtrudeError::TooFewBoundaryVerts(n as usize)) && same
        } else if !loop_input_ok(lv, old.verts@.len() as int) {
            r == Err::<CreateSolidResult, ExtrudeError>(ExtrudeError::Boundary(MeshError::DegenerateLoop)) && same
        } else if !extrude_fits(old, n) {
            r == Err::<CreateSolidResult, ExtrudeError>(ExtrudeError::CapacityExceeded) && same
        } else {
            r matches Ok(res) && {
                &&& res.profile_face == f
                &&& res.solid_kind == kind
                &&& res.adjacent_splits == 0
                &&& res.split_debug@.len() == 0
                &&& res.all_solid_faces@ == seq![f] + seq![res.top_face] + res.side_faces@
                &&& exists|mid: Mesh|
                    #[trigger] verts_pushed(old, mid, n) && faces_built(
                        mid,
                        new,
                        extrude_loops(lv, old.verts@.len() as nat, up),
                        material,
                        extrude_surfaces(n, wall_surface(kind)),
                        seq![res.top_face] + res.side_faces@,
                    )
            }
        }
    }
}

/// The top loop of an extrusion is usable.
proof fn lemma_extrude_top_ok(b: nat, n: nat, nv: int)
    requires
        n >= 3,
        b + n <= nv,
        nv < NULL_RAW,
    ensures
        loop_input_ok(fresh_verts(b, n), nv),
{
    let w = fresh_verts(b, n);
    assert forall|i: int| 0 <= i < w.len() implies #[trigger] w[i] != w[(i + 1) % (w.len() as int)] by {
        lemma_mod_next(i, n as int);
    }
}

/// The wall quad of boundary edge `i` is usable.
proof fn lemma_extrude_quad_ok(lv: Seq<VertId>, b: nat, up: bool, nv: int, i: int)
    requires
        lv.len() >= 3,
        0 <= i < lv.len(),
        loop_input_ok(lv, b as int),
        b + lv.len() <= nv,
        nv < NULL_RAW,
    ensures
        loop_input_ok(extrude_loops(lv, b, up)[i + 1], nv),
        extrude_loops(lv, b, up)[i + 1].len() == 4,
{
    let n = lv.len();
    let w = extrude_loops(lv, b, up)[i + 1];
    let j = ring_next(i, n as int);
    lemma_mod_next(i, n as int);
    assert(lv[i] != lv[(i + 1) % (n as int)]);
    assert(0 <= lv[i].ix() < b);
    assert(0 <= lv[j].ix() < b);
    crate::primitives::lemma_quad_ok(w, nv);
}

/// The extrusion loops are usable.
proof fn lemma_extrude_loops_ok(lv: Seq<VertId>, b: nat, up: bool, nv: int)
    requires
        lv.len() >= 3,
        loop_input_ok(lv, b as int),
        b + lv.len() <= nv,
        nv < NULL_RAW,
    ensures
        forall|k: int| 0 <= k < lv.len() + 1 ==> loop_input_ok(#[trigger] extrude_loops(lv, b, up)[k], nv),
        extrude_loops(lv, b, up)[0].len() == lv.len(),
        forall|k: int| 1 <= k < lv.len() + 1 ==> (#[trigger] extrude_loops(lv, b, up)[k]).len() == 4,
{
    let el = extrude_loops(lv, b, up);
    lemma_extrude_top_ok(b, lv.len(), nv);
    assert forall|k: int| 0 <= k < lv.len() + 1 implies loop_input_ok(#[trigger] el[k], nv) by {
        if k > 0 {
            lemma_extrude_quad_ok(lv, b, up, nv, k - 1);
        }
    }
    assert forall|k: int| 1 <= k < lv.len() + 1 implies (#[trigger] el[k]).len() == 4 by {
        lemma_extrude_quad_ok(lv, b, up, nv, k - 1);
    }
}

impl Mesh {
    /// Extrudes the plane profile `profile_face` into a box or cylinder
    /// (see `extruded`); `up` tells whether it goes along the profile
    /// normal. The new vertices come in the order of the boundary's
    /// vertices.
    #[verifier::rlimit(100)]
    pub fn extrude_planar(&mut self, profile_face: FaceId, up: bool, material: MaterialId, kind: SolidKind) -> (r: Result<CreateSolidResult, ExtrudeError>)
        requires
            old(self).wf(),
            old(self).face_present(profile_face),
        ensures
            final(self).wf(),
            extruded(*old(self), *final(self), profile_face, up, material, kind, r),
    {
        let start = self.faces[profile_face.id as usize].outer.start;
        let lv = match self.collect_loop_verts(start) {
            Ok(v) => v,
            Err(x) => {
                return Err(ExtrudeError::Boundary(x));
            },
        };
        let n = lv.len();
        if n < 3 {
            return Err(ExtrudeError::TooFewBoundaryVerts(n));
        }
        match self.check_loop(lv.as_slice()) {
            Ok(()) => {},
            Err(_) => {
                proof {
                    assert forall|i: int| 0 <= i < lv@.len() implies self.valid_vert(#[trigger] lv@[i]) by {
                        let q = ((i + n - 1) % (n as int)) as nat;
                        lemma_walk_valid(self.hes@, self.verts@.len() as int, self.edges@.len() as int,
                            self.faces@.len() as int, start, q);
                    }
                }
                return Err(ExtrudeError::Boundary(MeshError::DegenerateLoop));
            },
        }
        let n64 = n as u64;
        if self.verts.len() as u64 + n64 >= 0xffff_ffff || self.faces.len() as u64 + n64 + 3 >= 0xffff_ffff
            || self.hes.len() as u64 + 5 * n64 >= 0xffff_ffff || self.edges.len() as u64 + 5 * n64 >= 0xffff_ffff {
            return Err(ExtrudeError::CapacityExceeded);
        }
        let ghost m0 = *self;
        let ghost b = self.verts@.len() as nat;
        let top = self.add_vertices(n);
        let ghost mid = *self;
        let loops = extrude_face_loops(&lv, &top, up, Ghost(b));
        let surfs = extrude_surfs(n, if kind == SolidKind::Cylinder { SurfaceKind::Cylinder } else { SurfaceKind::Plane });
        proof {
            lemma_extrude_loops_ok(lv@, b, up, mid.verts@.len() as int);
            assert forall|k: int| 0 <= k < loops@.len() implies loop_input_ok(#[trigger] loops@[k]@, mid.verts@.len() as int)
                && loops@[k]@.len() == (if k == 0 { n as int } else { 4 }) by {
                assert(hole_views(loops@)[k] == loops@[k]@);
            }
            lemma_extrude_loops_len(loops@, n as nat);
        }
        let fs = self.add_built_faces(&loops, material, &surfs);
        let top_face = fs[0];
        let mut side_faces: Vec<FaceId> = Vec::new();
        let mut all_solid_faces: Vec<FaceId> = Vec::new();
        all_solid_faces.push(profile_face);
        all_solid_faces.push(top_face);
        let mut i: usize = 1;
        while i < fs.len()
            invariant
                1 <= i <= fs@.len(),
                top_face == fs@[0],
                side_faces@ == fs@.subrange(1, i as int),
                all_solid_faces@ == seq![profile_face, top_face] + side_faces@,
            decreases fs@.len() - i,
        {
            side_faces.push(fs[i]);
            all_solid_faces.push(fs[i]);
            proof {
                assert(side_faces@ =~= fs@.subrange(1, i + 1));
            }
            i += 1;
        }
        let res = CreateSolidResult {
            profile_face,
            solid_kind: kind,
            top_face,
            side_faces,
            all_solid_faces,
            adjacent_splits: 0,
            split_debug: Vec::new(),
        };
        proof {
            assert(seq![res.top_face] + res.side_faces@ =~= fs@);
            assert(res.all_solid_faces@ =~= seq![profile_face] + seq![res.top_face] + res.side_faces@);
            assert(verts_pushed(m0, mid, n as nat));
            assert(lv@ == loop_vertices(m0, start));
            assert(faces_built(mid, *self, extrude_loops(lv@, b, up), material, extrude_surfaces(n as nat, wall_surface(kind)), fs@));
        }
        Ok(res)
    }
}

/// The loops of a planar extrusion's new faces (see `extrude_loops`).
fn extrude_face_loops(lv: &Vec<VertId>, top: &Vec<VertId>, up: bool, b: Ghost<nat>) -> (loops: Vec<Vec<VertId>>)
    requires
        lv@.len() >= 3,
        top@ == fresh_verts(b@, lv@.len()),
    ensures
        hole_views(loops@) == extrude_loops(lv@, b@, up),
        loops@.len() == lv@.len() + 1,
{
    let n = lv.len();
    let ghost el = extrude_loops(lv@, b@, up);
    let mut top_loop: Vec<VertId> = Vec::new();
    let mut i: usize = 0;
    while i < n
        invariant
            n == lv@.len(),
            top@ == fresh_verts(b@, n as nat),
            i <= n,
            top_loop@ == top@.take(i as int),
        decreases n - i,
    {
        top_loop.push(top[i]);
        proof {
            assert(top_loop@ =~= top@.take(i + 1));
        }
        i += 1;
    }
    proof {
        assert(top_loop@ =~= el[0]);
    }
    let mut loops: Vec<Vec<VertId>> = Vec::new();
    loops.push(top_loop);
    let mut i: usize = 0;
    while i < n
        invariant
            n >= 3,
            n == lv@.len(),
            el == extrude_loops(lv@, b@, up),
            top@ == fresh_verts(b@, n as nat),
            i <= n,
            loops@.len() == i + 1,
            forall|k: int| 0 <= k < i + 1 ==> (#[trigger] loops@[k])@ == el[k],
        decreases n - i,
    {
        let nx = if i + 1 < n { i + 1 } else { 0 };
        let quad = if up {
            vec![lv[i], lv[nx], top[nx], top[i]]
        } else {
            vec![lv[nx], lv[i], top[i], top[nx]]
        };
        proof {
            assert(quad@ =~= el[i + 1]);
        }
        loops.push(quad);
        i += 1;
    }
    proof {
        assert(hole_views(loops@) =~= el);
    }
    loops
}

/// The surfaces of a planar extrusion's new faces (see
/// `extrude_surfaces`).
fn extrude_surfs(n: usize, side: SurfaceKind) -> (r: Vec<Option<SurfaceKind>>)
    requires
        n < usize::MAX - 1,
    ensures
        r@ == extrude_surfaces(n as nat, side),
{
    let mut r: Vec<Option<SurfaceKind>> = Vec::new();
    r.push(Some(SurfaceKind::Plane));
    let mut i: usize = 0;
    while i < n
        invariant
            i <= n,
            r@.len() == i + 1,
            forall|k: int| 0 <= k < i + 1 ==> #[trigger] r@[k] == extrude_surfaces(n as nat, side)[k],
        decreases n - i,
    {
        r.push(Some(side));
        i += 1;
    }
    proof {
        assert(r@ =~= extrude_surfaces(n as nat, side));
    }
    r
}

/// The loops of an extrusion over `n` boundary vertices have `5 n`
/// vertices in all.
proof fn lemma_extrude_loops_len(loops: Seq<Vec<VertId>>, n: nat)
    requires
        loops.len() == n + 1,
        loops[0]@.len() == n,
        forall|k: int| 1 <= k < n + 1 ==> (#[trigger] loops[k])@.len() == 4,
    ensures
        crate::primitives::loops_len(loops) == 5 * n,
{
    assert forall|k: nat| 1 <= k <= n + 1 implies #[trigger] crate::mesh::holes_sum(loops, k) == n + 4 * (k - 1) by {
        lemma_extrude_sum(loops, n, k);
    }
}

proof fn lemma_extrude_sum(loops: Seq<Vec<VertId>>, n: nat, k: nat)
    requires
        loops.len() == n + 1,
        loops[0]@.len() == n,
        forall|q: int| 1 <= q < n + 1 ==> (#[trigger] loops[q])@.len() == 4,
        1 <= k <= n + 1,
    ensures
        crate::mesh::holes_sum(loops, k) == n + 4 * (k - 1),
    decreases k,
{
    if k == 1 {
        reveal_with_fuel(crate::mesh::holes_sum, 2);
    } else {
        lemma_extrude_sum(loops, n, (k - 1) as nat);
    }
}

} // verus!
