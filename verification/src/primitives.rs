//! Primitive solids: box, cylinder, cone and sphere.
//!
//! The mesh holds topology only. Each builder appends its vertices in a
//! fixed order and the faces between them, each with its surface kind;
//! the caller places the vertices and keeps the surfaces' parameters.

use vstd::prelude::*;
use crate::ids::{VertId, FaceId, MaterialId, NULL_RAW};
use crate::offset::{verts_pushed, fresh_verts};
use crate::mesh::{
    Mesh, MeshError, SurfaceKind, Vertex, new_loop_fields, is_loop, loop_verts, loop_input_ok, holes_sum,
    lemma_new_loop_extend, lemma_new_loop_is_loop, lemma_holes_sum_mono, hole_views,
};

verus! {

/// Face `f` of `m` is present and active, with no hole loops, material
/// `mat` and surface `surf`, and its outer loop runs along `w` on
/// half-edges of its own.
pub open spec fn face_built(m: Mesh, f: FaceId, w: Seq<VertId>, mat: MaterialId, surf: Option<SurfaceKind>) -> bool {
    let face = m.faces@[f.ix()];
    let st = face.outer.start;
    &&& 0 <= f.ix() < m.faces@.len()
    &&& face.present
    &&& face.active
    &&& face.material == mat
    &&& face.surface == surf
    &&& !face.normal_flipped
    &&& face.outer.is_outer
    &&& face.inners@.len() == 0
    &&& w.len() >= 3
    &&& 0 <= st.ix()
    &&& st.ix() + w.len() <= m.hes@.len()
    &&& new_loop_fields(m.hes@, m.edges@, st.ix(), w, f, true)
    &&& is_loop(m.hes@, st, w.len())
    &&& loop_verts(m.hes@, st, w.len()) == w
}

/// A built face stays built while the arenas only grow and the face is
/// left alone.
pub proof fn lemma_face_built_stable(
    m1: Mesh,
    m2: Mesh,
    f: FaceId,
    w: Seq<VertId>,
    mat: MaterialId,
    surf: Option<SurfaceKind>,
)
    requires
        face_built(m1, f, w, mat, surf),
        m2.hes@.len() >= m1.hes@.len(),
        m2.hes@.take(m1.hes@.len() as int) == m1.hes@,
        m2.edges@.len() >= m1.edges@.len(),
        m2.edges@.take(m1.edges@.len() as int) == m1.edges@,
        f.ix() < m2.faces@.len(),
        m2.faces@[f.ix()] == m1.faces@[f.ix()],
    ensures
        face_built(m2, f, w, mat, surf),
{
    let st = m1.faces@[f.ix()].outer.start;
    lemma_new_loop_extend(m1.hes@, m1.edges@, m2.hes@, m2.edges@, st.ix(), w, f, true);
    lemma_new_loop_is_loop(m2.hes@, m2.edges@, st, w, f, true);
}

/// The total length of the loops.
pub open spec fn loops_len(loops: Seq<Vec<VertId>>) -> nat {
    holes_sum(loops, loops.len())
}

/// `new` is `old` grown by faces built along `loops`, in order, the `k`-th
/// with surface `surfs[k]`, handles `fs`; nothing else of `old` changed.
pub open spec fn faces_built(
    old: Mesh,
    new: Mesh,
    loops: Seq<Seq<VertId>>,
    mat: MaterialId,
    surfs: Seq<Option<SurfaceKind>>,
    fs: Seq<FaceId>,
) -> bool {
    &&& new.verts@ == old.verts@
    &&& new.faces@.len() == old.faces@.len() + loops.len()
    &&& new.faces@.take(old.faces@.len() as int) == old.faces@
    &&& new.hes@.len() >= old.hes@.len()
    &&& new.hes@.take(old.hes@.len() as int) == old.hes@
    &&& new.edges@.len() >= old.edges@.len()
    &&& new.edges@.take(old.edges@.len() as int) == old.edges@
    &&& fs.len() == loops.len()
    &&& forall|k: int|
        0 <= k < loops.len() ==> (#[trigger] fs[k]).ix() == old.faces@.len() + k && face_built(
            new,
            fs[k],
            loops[k],
            mat,
            surfs[k],
        )
}

/// The loops of the box faces over its corners `v`.
fn box_face_loops(v: &Vec<VertId>, b: Ghost<nat>) -> (loops: Vec<Vec<VertId>>)
    requires
        v@ == fresh_verts(b@, 8),
    ensures
        loops@.len() == 6,
        hole_views(loops@) == box_loops(b@),
        forall|q: int| 0 <= q < loops@.len() ==> (#[trigger] loops@[q])@.len() == 4,
{
    let loops: Vec<Vec<VertId>> = vec![
        vec![v[0], v[1], v[5], v[4]],
        vec![v[3], v[7], v[6], v[2]],
        vec![v[4], v[5], v[6], v[7]],
        vec![v[0], v[3], v[2], v[1]],
        vec![v[1], v[2], v[6], v[5]],
        vec![v[0], v[4], v[7], v[3]],
    ];
    proof {
        let bl = box_loops(b@);
        assert forall|k: int| 0 <= k < 6 implies (#[trigger] loops@[k])@ == bl[k] by {
            assert(loops@[k]@ =~= bl[k]);
        }
        assert(hole_views(loops@) =~= bl);
    }
    loops
}

/// `n` copies of the surface `surf`.
fn same_surfaces(n: usize, surf: Option<SurfaceKind>) -> (r: Vec<Option<SurfaceKind>>)
    ensures
        r@ == Seq::new(n as nat, |k: int| surf),
{
    let mut r: Vec<Option<SurfaceKind>> = Vec::new();
    let mut i: usize = 0;
    while i < n
        invariant
            i <= n,
            r@ == Seq::new(i as nat, |k: int| surf),
        decreases n - i,
    {
        r.push(surf);
        proof {
            assert(r@ =~= Seq::new((i + 1) as nat, |k: int| surf));
        }
        i += 1;
    }
    r
}

/// The loops of a prism's faces over its bottom and top rings.
fn prism_face_loops(bottom: &Vec<VertId>, top: &Vec<VertId>, b: Ghost<nat>) -> (loops: Vec<Vec<VertId>>)
    requires
        bottom@.len() >= 3,
        bottom@ == fresh_verts(b@, bottom@.len()),
        top@ == fresh_verts(b@ + bottom@.len(), bottom@.len()),
    ensures
        hole_views(loops@) == prism_loops(b@, bottom@.len()),
        loops@.len() == bottom@.len() + 2,
        loops@[0]@.len() == bottom@.len(),
        loops@[1]@.len() == bottom@.len(),
        forall|k: int| 2 <= k < loops@.len() ==> (#[trigger] loops@[k])@.len() == 4,
{
    let n = bottom.len();
    let ghost b = b@;
    let ghost pl = prism_loops(b, n as nat);
    let mut loops: Vec<Vec<VertId>> = Vec::new();
    let mut base: Vec<VertId> = Vec::new();
    let mut i: usize = 0;
    while i < n
        invariant
            n >= 3,
            n == bottom@.len(),
            bottom@ == fresh_verts(b, n as nat),
            i <= n,
            base@.len() == i,
            forall|j: int| 0 <= j < i ==> base@[j] == vert_at(b, n - 1 - j),
        decreases n - i,
    {
        base.push(bottom[n - 1 - i]);
        i += 1;
    }
    let mut top_loop: Vec<VertId> = Vec::new();
    let mut i: usize = 0;
    while i < n
        invariant
            n == bottom@.len(),
            top@ == fresh_verts((b + n) as nat, n as nat),
            i <= n,
            top_loop@ == top@.take(i as int),
        decreases n - i,
    {
        top_loop.push(top[i]);
        proof {
            assert(top_loop@ =~= top@.take(i + 1));
        }
        i += 1;
    }
    proof {
        assert(top_loop@ =~= top@);
        assert(base@ =~= pl[0]);
        assert(top_loop@ =~= pl[1]);
    }
    loops.push(base);
    loops.push(top_loop);
    let mut i: usize = 0;
    while i < n
        invariant
            n >= 3,
            n == bottom@.len(),
            pl == prism_loops(b, n as nat),
            bottom@ == fresh_verts(b, n as nat),
            top@ == fresh_verts((b + n) as nat, n as nat),
            i <= n,
            loops@.len() == i + 2,
            forall|k: int| 0 <= k < i + 2 ==> (#[trigger] loops@[k])@ == pl[k],
        decreases n - i,
    {
        let nx = if i + 1 < n { i + 1 } else { 0 };
        let quad = vec![bottom[i], bottom[nx], top[nx], top[i]];
        proof {
            assert(quad@ =~= pl[i + 2]);
        }
        loops.push(quad);
        i += 1;
    }
    proof {
        assert(hole_views(loops@) =~= pl);
    }
    loops
}

/// The surfaces of a prism's faces (see `prism_surfaces`).
fn prism_surfs(n: usize, side: Option<SurfaceKind>) -> (r: Vec<Option<SurfaceKind>>)
    requires
        n < usize::MAX - 2,
    ensures
        r@ == prism_surfaces(n as nat, side),
{
    let mut r: Vec<Option<SurfaceKind>> = Vec::new();
    r.push(Some(SurfaceKind::Plane));
    r.push(Some(SurfaceKind::Plane));
    let mut i: usize = 0;
    while i < n
        invariant
            i <= n,
            r@.len() == i + 2,
            forall|k: int| 0 <= k < i + 2 ==> #[trigger] r@[k] == prism_surfaces(n as nat, side)[k],
        decreases n - i,
    {
        r.push(side);
        i += 1;
    }
    proof {
        assert(r@ =~= prism_surfaces(n as nat, side));
    }
    r
}

/// The prism loops are usable.
proof fn lemma_prism_loops_ok(b: nat, n: nat, nv: int)
    requires
        n >= 3,
        b + 2 * n <= nv,
        nv < NULL_RAW,
    ensures
        forall|k: int| 0 <= k < n + 2 ==> loop_input_ok(#[trigger] prism_loops(b, n)[k], nv),
{
    let pl = prism_loops(b, n);
    assert forall|k: int| 0 <= k < n + 2 implies loop_input_ok(#[trigger] pl[k], nv) by {
        let w = pl[k];
        if k >= 2 {
            let q = k - 2;
            assert(ring_next(q, n as int) != q);
            lemma_quad_ok(w, nv);
        } else {
            assert forall|i: int| 0 <= i < w.len() implies #[trigger] w[i] != w[(i + 1) % (w.len() as int)] by {
                lemma_mod_next(i, w.len() as int);
            }
        }
    }
}

/// The loops of a sphere's faces over its poles and rings.
fn sphere_face_loops(poles: &Vec<VertId>, rings: &Vec<VertId>, u: usize, v: usize, b: Ghost<nat>) -> (loops: Vec<Vec<VertId>>)
    requires
        u >= 3,
        v >= 2,
        u * v < NULL_RAW,
        poles@ == fresh_verts(b@, 2),
        rings@ == fresh_verts(b@ + 2, ((v - 1) * u) as nat),
    ensures
        hole_views(loops@) == sphere_loops(b@, u as nat, v as nat),
        loops@.len() == u * v,
{
    let ghost b = b@;
    let ghost sl = sphere_loops(b, u as nat, v as nat);
    let mut loops: Vec<Vec<VertId>> = Vec::new();
    assert((v - 1) * u + u == u * v) by (nonlinear_arith);
    let mut row: usize = 0;
    while row < v
        invariant
            u >= 3,
            v >= 2,
            u * v < NULL_RAW,
            (v - 1) * u + u == u * v,
            poles@ == fresh_verts(b, 2),
            rings@ == fresh_verts(b + 2, ((v - 1) * u) as nat),
            sl == sphere_loops(b, u as nat, v as nat),
            row <= v,
            loops@.len() == row * u,
            forall|j: int| 0 <= j < loops@.len() ==> (#[trigger] loops@[j])@ == sl[j],
        decreases v - row,
    {
        assert(row * u + u <= u * v) by (nonlinear_arith)
            requires
                row < v,
        ;
        let mut k: usize = 0;
        while k < u
            invariant
                u >= 3,
                v >= 2,
                u * v < NULL_RAW,
                (v - 1) * u + u == u * v,
                poles@ == fresh_verts(b, 2),
                rings@ == fresh_verts(b + 2, ((v - 1) * u) as nat),
                sl == sphere_loops(b, u as nat, v as nat),
                row < v,
                row * u + u <= u * v,
                k <= u,
                loops@.len() == row * u + k,
                forall|j: int| 0 <= j < loops@.len() ==> (#[trigger] loops@[j])@ == sl[j],
            decreases u - k,
        {
            let nk = if k + 1 < u { k + 1 } else { 0 };
            let ghost idx = row * u + k;
            proof {
                vstd::arithmetic::div_mod::lemma_fundamental_div_mod_converse(idx, u as int, row as int, k as int);
                assert(row * u == (u as int) * row) by (nonlinear_arith);
            }
            let face = if row == 0 {
                assert(u <= (v - 1) * u) by (nonlinear_arith)
                    requires
                        v >= 2,
                ;
                vec![poles[0], rings[nk], rings[k]]
            } else if row < v - 1 {
                assert((row - 1) * u + u == row * u) by (nonlinear_arith)
                    requires
                        row >= 1,
                ;
                assert(row * u + u <= (v - 1) * u) by (nonlinear_arith)
                    requires
                        row < v - 1,
                ;
                vec![rings[(row - 1) * u + k], rings[(row - 1) * u + nk], rings[row * u + nk], rings[row * u + k]]
            } else {
                assert((v - 2) * u + u == (v - 1) * u) by (nonlinear_arith)
                    requires
                        v >= 2,
                ;
                vec![rings[(v - 2) * u + k], rings[(v - 2) * u + nk], poles[1]]
            };
            proof {
                assert(face@ =~= sl[idx]);
            }
            loops.push(face);
            k += 1;
        }
        assert((row + 1) * u == row * u + u) by (nonlinear_arith);
        row += 1;
    }
    proof {
        assert(v * u == u * v) by (nonlinear_arith);
        assert(hole_views(loops@) =~= sl);
    }
    loops
}

impl Mesh {
    /// Adds a face along `w`, with no holes, and records its surface.
    #[verifier::spinoff_prover]
    fn add_built_face(&mut self, w: &Vec<VertId>, material: MaterialId, surf: Option<SurfaceKind>) -> (f: FaceId)
        requires
            old(self).wf(),
            loop_input_ok(w@, old(self).verts@.len() as int),
            old(self).faces@.len() + 2 < NULL_RAW,
            old(self).hes@.len() + w@.len() < NULL_RAW,
            old(self).edges@.len() + w@.len() < NULL_RAW,
        ensures
            final(self).wf(),
            final(self).verts@ == old(self).verts@,
            f.ix() == old(self).faces@.len(),
            final(self).faces@.len() == old(self).faces@.len() + 1,
            final(self).faces@.take(old(self).faces@.len() as int) == old(self).faces@,
            final(self).hes@.len() == old(self).hes@.len() + w@.len(),
            final(self).hes@.take(old(self).hes@.len() as int) == old(self).hes@,
            final(self).edges@.len() >= old(self).edges@.len(),
            final(self).edges@.len() <= old(self).edges@.len() + w@.len(),
            final(self).edges@.take(old(self).edges@.len() as int) == old(self).edges@,
            face_built(*final(self), f, w@, material, surf),
    {
        let ghost m0 = *self;
        let no_holes: Vec<Vec<VertId>> = Vec::new();
        proof {
            assert(hole_views(no_holes@) =~= Seq::<Seq<VertId>>::empty());
            assert(holes_sum(no_holes@, 0) == 0);
        }
        let r = self.add_face_with_holes(w.as_slice(), no_holes.as_slice(), material);
        let f = match r {
            Ok(f) => f,
            Err(_) => {
                assert(false);
                FaceId { id: 0 }
            },
        };
        let ghost m1 = *self;
        proof {
            assert(crate::mesh::new_face_ok(m1, f, w@, Seq::empty(), material));
            assert(m1.faces@[f.ix()].outer.start.ix() == m0.hes@.len());
        }
        let _ = self.set_face_surface(f, surf);
        proof {
            let face = self.faces@[f.ix()];
            assert(face.outer == m1.faces@[f.ix()].outer);
            lemma_new_loop_is_loop(self.hes@, self.edges@, face.outer.start, w@, f, true);
            assert(self.faces@.take(m0.faces@.len() as int) =~= m0.faces@) by {
                assert forall|g: int| 0 <= g < m0.faces@.len() implies self.faces@[g] == m0.faces@[g] by {
                    assert(m1.faces@.take(m0.faces@.len() as int)[g] == m0.faces@[g]);
                }
            }
        }
        f
    }

    /// Adds a face along each of `loops`, in order, the `k`-th with surface
    /// `surfs[k]`.
    pub(crate) fn add_built_faces(
        &mut self,
        loops: &Vec<Vec<VertId>>,
        material: MaterialId,
        surfs: &Vec<Option<SurfaceKind>>,
    ) -> (fs: Vec<FaceId>)
        requires
            old(self).wf(),
            surfs@.len() == loops@.len(),
            forall|k: int| 0 <= k < loops@.len() ==> loop_input_ok(#[trigger] loops@[k]@, old(self).verts@.len() as int),
            old(self).faces@.len() + loops@.len() + 2 < NULL_RAW,
            old(self).hes@.len() + loops_len(loops@) < NULL_RAW,
            old(self).edges@.len() + loops_len(loops@) < NULL_RAW,
        ensures
            final(self).wf(),
            faces_built(*old(self), *final(self), hole_views(loops@), material, surfs@, fs@),
    {
        let ghost m0 = *self;
        let n = loops.len();
        let mut fs: Vec<FaceId> = Vec::new();
        let mut k: usize = 0;
        proof {
            assert(self.faces@.take(m0.faces@.len() as int) =~= m0.faces@);
            assert(self.hes@.take(m0.hes@.len() as int) =~= m0.hes@);
            assert(self.edges@.take(m0.edges@.len() as int) =~= m0.edges@);
        }
        while k < n
            invariant
                self.wf(),
                m0.wf(),
                n == loops@.len(),
                surfs@.len() == n,
                k <= n,
                forall|q: int| 0 <= q < n ==> loop_input_ok(#[trigger] loops@[q]@, m0.verts@.len() as int),
                m0.faces@.len() + n + 2 < NULL_RAW,
                m0.hes@.len() + loops_len(loops@) < NULL_RAW,
                m0.edges@.len() + loops_len(loops@) < NULL_RAW,
                self.hes@.len() == m0.hes@.len() + holes_sum(loops@, k as nat),
                self.edges@.len() <= m0.edges@.len() + holes_sum(loops@, k as nat),
                faces_built(m0, *self, hole_views(loops@).take(k as int), material, surfs@.take(k as int), fs@),
            decreases n - k,
        {
            let ghost cur = *self;
            proof {
                lemma_holes_sum_mono(loops@, (k + 1) as nat, n as nat);
            }
            let f = self.add_built_face(&loops[k], material, surfs[k]);
            let ghost fb = fs@;
            fs.push(f);
            proof {
                assert(fs@[k as int] == f);
                let lv = hole_views(loops@);
                assert(lv[k as int] == loops@[k as int]@);
                let l1 = lv.take(k + 1);
                let s1 = surfs@.take(k + 1);
                assert forall|q: int| 0 <= q < k + 1 implies (#[trigger] fs@[q]).ix() == m0.faces@.len() + q
                    && face_built(*self, fs@[q], l1[q], material, s1[q]) by {
                    if q < k {
                        assert(fs@[q] == fb[q]);
                        assert(lv.take(k as int)[q] == l1[q]);
                        assert(surfs@.take(k as int)[q] == s1[q]);
                        assert(face_built(cur, fb[q], l1[q], material, s1[q]));
                        assert(self.faces@.take(cur.faces@.len() as int)[fb[q].ix()] == self.faces@[fb[q].ix()]);
                        lemma_face_built_stable(cur, *self, fb[q], l1[q], material, s1[q]);
                    }
                }
                assert forall|g: int| 0 <= g < m0.faces@.len() implies #[trigger] self.faces@.take(m0.faces@.len() as int)[g]
                    == m0.faces@[g] by {
                    assert(self.faces@.take(cur.faces@.len() as int)[g] == cur.faces@[g]);
                    assert(cur.faces@.take(m0.faces@.len() as int)[g] == m0.faces@[g]);
                }
                assert(self.faces@.take(m0.faces@.len() as int) =~= m0.faces@);
                assert forall|g: int| 0 <= g < m0.hes@.len() implies #[trigger] self.hes@.take(m0.hes@.len() as int)[g]
                    == m0.hes@[g] by {
                    assert(self.hes@.take(cur.hes@.len() as int)[g] == cur.hes@[g]);
                    assert(cur.hes@.take(m0.hes@.len() as int)[g] == m0.hes@[g]);
                }
                assert(self.hes@.take(m0.hes@.len() as int) =~= m0.hes@);
                assert forall|g: int| 0 <= g < m0.edges@.len() implies #[trigger] self.edges@.take(m0.edges@.len() as int)[g]
                    == m0.edges@[g] by {
                    assert(self.edges@.take(cur.edges@.len() as int)[g] == cur.edges@[g]);
                    assert(cur.edges@.take(m0.edges@.len() as int)[g] == m0.edges@[g]);
                }
                assert(self.edges@.take(m0.edges@.len() as int) =~= m0.edges@);
            }
            k += 1;
        }
        proof {
            assert(hole_views(loops@).take(n as int) =~= hole_views(loops@));
            assert(surfs@.take(n as int) =~= surfs@);
        }
        fs
    }

    /// Appends the eight corners of a box and its six faces, each with a
    /// plane surface, wound to face outward (see `box_loops`). The corners
    /// come in the order (-,-,-), (+,-,-), (+,+,-), (-,+,-), (-,-,+),
    /// (+,-,+), (+,+,+), (-,+,+) in (x, y, z).
    #[verifier::spinoff_prover]
    pub fn create_box(&mut self, material: MaterialId) -> (r: Result<Vec<FaceId>, MeshError>)
        requires
            old(self).wf(),
        ensures
            final(self).wf(),
            match r {
                Ok(fs) => exists|mid: Mesh|
                    #[trigger] verts_pushed(*old(self), mid, 8) && faces_built(
                        mid,
                        *final(self),
                        box_loops(old(self).verts@.len() as nat),
                        material,
                        Seq::new(6, |k: int| Some(SurfaceKind::Plane)),
                        fs@,
                    ),
                Err(e) => {
                    &&& e == MeshError::CapacityExceeded
                    &&& !box_fits(*old(self))
                    &&& final(self).verts@ == old(self).verts@
                    &&& final(self).hes@ == old(self).hes@
                    &&& final(self).edges@ == old(self).edges@
                    &&& final(self).faces@ == old(self).faces@
                },
            },
            r is Err <==> !box_fits(*old(self)),
    {
        if self.verts.len() >= 0xffff_ffff - 8 || self.faces.len() >= 0xffff_ffff - 8
            || self.hes.len() >= 0xffff_ffff - 24 || self.edges.len() >= 0xffff_ffff - 24 {
            return Err(MeshError::CapacityExceeded);
        }
        let ghost m0 = *self;
        let ghost b = self.verts@.len() as nat;
        let v = self.add_vertices(8);
        let ghost mid = *self;
        let loops = box_face_loops(&v, Ghost(b));
        let surfs = same_surfaces(6, Some(SurfaceKind::Plane));
        proof {
            lemma_box_loops_ok(b, mid.verts@.len() as int);
            lemma_quads_len(loops@, 6);
            assert forall|k: int| 0 <= k < loops@.len() implies loop_input_ok(#[trigger] loops@[k]@, mid.verts@.len() as int) by {
                assert(hole_views(loops@)[k] == loops@[k]@);
            }
        }
        let fs = self.add_built_faces(&loops, material, &surfs);
        proof {
            assert(verts_pushed(m0, mid, 8));
            assert(faces_built(mid, *self, box_loops(b), material, Seq::new(6, |k: int| Some(SurfaceKind::Plane)), fs@));
        }
        Ok(fs)
    }

    /// Appends the two rings of a prism of `segments` segments, bottom then
    /// top, and its faces (see `prism_loops`): plane caps and sides with
    /// surface `side`. Fewer than three segments make no face: the rings
    /// are added and the base is refused.
    #[verifier::spinoff_prover]
    #[verifier::rlimit(50)]
    fn create_prism(&mut self, segments: u32, material: MaterialId, side: Option<SurfaceKind>) -> (r: Result<Vec<FaceId>, MeshError>)
        requires
            old(self).wf(),
        ensures
            final(self).wf(),
            prism_built(*old(self), *final(self), segments as nat, material, side, r),
    {
        let n = segments as usize;
        let n64 = segments as u64;
        if self.verts.len() as u64 + 2 * n64 >= 0xffff_ffff || self.faces.len() as u64 + n64 + 4 >= 0xffff_ffff
            || self.hes.len() as u64 + 6 * n64 >= 0xffff_ffff || self.edges.len() as u64 + 6 * n64 >= 0xffff_ffff {
            return Err(MeshError::CapacityExceeded);
        }
        let ghost m0 = *self;
        let ghost b = self.verts@.len() as nat;
        let bottom = self.add_vertices(n);
        let ghost m1 = *self;
        let top = self.add_vertices(n);
        let ghost mid = *self;
        proof {
            assert(verts_pushed(m0, mid, 2 * n as nat)) by {
                assert(mid.verts@.take(m0.verts@.len() as int) =~= m0.verts@) by {
                    assert forall|g: int| 0 <= g < m0.verts@.len() implies mid.verts@[g] == m0.verts@[g] by {
                        assert(mid.verts@.take(m1.verts@.len() as int)[g] == m1.verts@[g]);
                        assert(m1.verts@.take(m0.verts@.len() as int)[g] == m0.verts@[g]);
                    }
                }
                assert forall|k: int| m0.verts@.len() <= k < mid.verts@.len() implies (#[trigger] mid.verts@[k]).alive by {
                    if k < m1.verts@.len() {
                        assert(mid.verts@.take(m1.verts@.len() as int)[k] == m1.verts@[k]);
                    }
                }
            }
        }
        if n < 3 {
            return Err(MeshError::DegenerateLoop);
        }
        let loops = prism_face_loops(&bottom, &top, Ghost(b));
        let surfs = prism_surfs(n, side);
        proof {
            lemma_prism_loops_ok(b, n as nat, mid.verts@.len() as int);
            lemma_prism_loops_len(loops@, n as nat);
            assert forall|k: int| 0 <= k < loops@.len() implies loop_input_ok(#[trigger] loops@[k]@, mid.verts@.len() as int) by {
                assert(hole_views(loops@)[k] == loops@[k]@);
            }
        }
        let fs = self.add_built_faces(&loops, material, &surfs);
        Ok(fs)
    }

    /// Appends a sphere of `u_segments` segments round and `v_segments`
    /// from pole to pole: see `sphere_built` and `sphere_face`.
    pub fn create_sphere(&mut self, u_segments: u32, v_segments: u32, material: MaterialId) -> (r: Result<Vec<FaceId>, MeshError>)
        requires
            old(self).wf(),
        ensures
            final(self).wf(),
            sphere_built(*old(self), *final(self), u_segments as nat, v_segments as nat, material, r),
    {
        if v_segments < 2 || u_segments < 3 {
            return Err(MeshError::TooFewSegments);
        }
        let u64_u = u_segments as u64;
        let u64_v = v_segments as u64;
        assert((u64_v - 1) * u64_u <= u64_u * u64_v && u64_u * u64_v <= 0xffff_ffff * 0xffff_ffffu64) by (nonlinear_arith)
            requires
                u64_u <= 0xffff_ffff,
                u64_v <= 0xffff_ffff,
                u64_v >= 2,
        ;
        let nring = (u64_v - 1) * u64_u;
        let nfaces = u64_u * u64_v;
        if self.verts.len() as u64 + 2 + nring >= 0xffff_ffff || self.faces.len() as u64 + nfaces + 2 >= 0xffff_ffff
            || self.hes.len() as u64 + 4 * nfaces >= 0xffff_ffff || self.edges.len() as u64 + 4 * nfaces >= 0xffff_ffff {
            return Err(MeshError::CapacityExceeded);
        }
        let u = u_segments as usize;
        let v = v_segments as usize;
        let n_ring = nring as usize;
        let ghost m0 = *self;
        let ghost b = self.verts@.len() as nat;
        let poles = self.add_vertices(2);
        let ghost m1 = *self;
        let rings = self.add_vertices(n_ring);
        let ghost mid = *self;
        proof {
            assert(verts_pushed(m0, mid, (2 + n_ring) as nat)) by {
                assert(mid.verts@.take(m0.verts@.len() as int) =~= m0.verts@) by {
                    assert forall|g: int| 0 <= g < m0.verts@.len() implies mid.verts@[g] == m0.verts@[g] by {
                        assert(mid.verts@.take(m1.verts@.len() as int)[g] == m1.verts@[g]);
                        assert(m1.verts@.take(m0.verts@.len() as int)[g] == m0.verts@[g]);
                    }
                }
                assert forall|k: int| m0.verts@.len() <= k < mid.verts@.len() implies (#[trigger] mid.verts@[k]).alive by {
                    if k < m1.verts@.len() {
                        assert(mid.verts@.take(m1.verts@.len() as int)[k] == m1.verts@[k]);
                    }
                }
            }
        }
        let loops = sphere_face_loops(&poles, &rings, u, v, Ghost(b));
        let surfs = same_surfaces(u * v, Some(SurfaceKind::Sphere));
        proof {
            lemma_sphere_loops_ok(b, u as nat, v as nat, mid.verts@.len() as int);
            assert forall|k: int| 0 <= k < loops@.len() implies loop_input_ok(#[trigger] loops@[k]@, mid.verts@.len() as int)
                && loops@[k]@.len() <= 4 by {
                assert(hole_views(loops@)[k] == loops@[k]@);
            }
            lemma_small_loops_len(loops@, loops@.len());
        }
        let fs = self.add_built_faces(&loops, material, &surfs);
        proof {
            assert(verts_pushed(m0, mid, (2 + (v - 1) * u) as nat));
            assert(faces_built(mid, *self, sphere_loops(b, u as nat, v as nat), material,
                Seq::new((u * v) as nat, |k: int| Some(SurfaceKind::Sphere)), fs@));
        }
        Ok(fs)
    }

    /// Appends a cylinder of `segments` segments (see `create_prism`):
    /// plane caps, cylinder sides.
    pub fn create_cylinder(&mut self, segments: u32, material: MaterialId) -> (r: Result<Vec<FaceId>, MeshError>)
        requires
            old(self).wf(),
        ensures
            final(self).wf(),
            prism_built(*old(self), *final(self), segments as nat, material, Some(SurfaceKind::Cylinder), r),
    {
        self.create_prism(segments, material, Some(SurfaceKind::Cylinder))
    }

    /// Appends a truncated cone of `segments` segments (see
    /// `create_prism`): plane caps, and sides with surface `side`, which is
    /// a cone unless its taper is degenerate.
    pub fn create_cone(&mut self, segments: u32, material: MaterialId, side: Option<SurfaceKind>) -> (r: Result<Vec<FaceId>, MeshError>)
        requires
            old(self).wf(),
        ensures
            final(self).wf(),
            prism_built(*old(self), *final(self), segments as nat, material, side, r),
    {
        self.create_prism(segments, material, side)
    }
}

/// Building a prism of `n` segments took `old` to `new` with result `r`:
/// refused for room with nothing changed; with fewer than three segments
/// the rings are added and the base refused; otherwise its faces are built.
pub open spec fn prism_built(
    old: Mesh,
    new: Mesh,
    n: nat,
    material: MaterialId,
    side: Option<SurfaceKind>,
    r: Result<Vec<FaceId>, MeshError>,
) -> bool {
    if !prism_fits(old, n) {
        &&& r == Err::<Vec<FaceId>, MeshError>(MeshError::CapacityExceeded)
        &&& new.verts@ == old.verts@
        &&& new.hes@ == old.hes@
        &&& new.edges@ == old.edges@
        &&& new.faces@ == old.faces@
    } else if n < 3 {
        r == Err::<Vec<FaceId>, MeshError>(MeshError::DegenerateLoop) && verts_pushed(old, new, 2 * n)
    } else {
        r matches Ok(fs) && exists|mid: Mesh|
            #[trigger] verts_pushed(old, mid, 2 * n) && faces_built(
                mid,
                new,
                prism_loops(old.verts@.len() as nat, n),
                material,
                prism_surfaces(n, side),
                fs@,
            )
    }
}

/// Going one step round a ring of `n` with `%` is `ring_next`.
pub proof fn lemma_mod_next(i: int, n: int)
    requires
        0 <= i < n,
    ensures
        (i + 1) % n == ring_next(i, n),
{
    if i + 1 < n {
        vstd::arithmetic::div_mod::lemma_small_mod((i + 1) as nat, n as nat);
    } else {
        vstd::arithmetic::div_mod::lemma_mod_self_0(n);
    }
}

/// The loops of a prism of `n` segments have `6 n` vertices in all.
proof fn lemma_prism_loops_len(loops: Seq<Vec<VertId>>, n: nat)
    requires
        loops.len() == n + 2,
        loops[0]@.len() == n,
        loops[1]@.len() == n,
        forall|k: int| 2 <= k < n + 2 ==> (#[trigger] loops[k])@.len() == 4,
    ensures
        loops_len(loops) == 6 * n,
{
    assert forall|k: nat| 2 <= k <= n + 2 implies #[trigger] holes_sum(loops, k) == 2 * n + 4 * (k - 2) by {
        lemma_prism_sum(loops, n, k);
    }
    assert(holes_sum(loops, n + 2) == 2 * n + 4 * n);
}

proof fn lemma_prism_sum(loops: Seq<Vec<VertId>>, n: nat, k: nat)
    requires
        loops.len() == n + 2,
        loops[0]@.len() == n,
        loops[1]@.len() == n,
        forall|q: int| 2 <= q < n + 2 ==> (#[trigger] loops[q])@.len() == 4,
        2 <= k <= n + 2,
    ensures
        holes_sum(loops, k) == 2 * n + 4 * (k - 2),
    decreases k,
{
    if k == 2 {
        reveal_with_fuel(holes_sum, 3);
    } else {
        lemma_prism_sum(loops, n, (k - 1) as nat);
    }
}

/// The slot after `i` round a ring of `n`.
pub open spec fn ring_next(i: int, n: int) -> int {
    if i + 1 < n {
        i + 1
    } else {
        0
    }
}

/// The vertex at slot `b + i`.
pub open spec fn vert_at(b: nat, i: int) -> VertId {
    VertId { id: (b + i) as u32 }
}

/// The face loops of a prism of `n` segments whose bottom ring starts at
/// vertex slot `b` and top ring at `b + n`: the base along the bottom ring
/// reversed, the top along the top ring, then one quad per segment.
pub open spec fn prism_loops(b: nat, n: nat) -> Seq<Seq<VertId>> {
    Seq::new(
        n + 2,
        |k: int|
            if k == 0 {
                Seq::new(n, |i: int| vert_at(b, n - 1 - i))
            } else if k == 1 {
                Seq::new(n, |i: int| vert_at(b, n + i))
            } else {
                let i = k - 2;
                seq![vert_at(b, i), vert_at(b, ring_next(i, n as int)), vert_at(b, n + ring_next(i, n as int)), vert_at(b, n + i)]
            },
    )
}

/// The surfaces of a prism's faces: planes on the caps, `side` on the
/// segments.
pub open spec fn prism_surfaces(n: nat, side: Option<SurfaceKind>) -> Seq<Option<SurfaceKind>> {
    Seq::new(n + 2, |k: int| if k < 2 { Some(SurfaceKind::Plane) } else { side })
}

/// A prism of `n` segments fits in the arenas.
pub open spec fn prism_fits(m: Mesh, n: nat) -> bool {
    &&& m.verts@.len() + 2 * n < NULL_RAW
    &&& m.faces@.len() + n + 4 < NULL_RAW
    &&& m.hes@.len() + 6 * n < NULL_RAW
    &&& m.edges@.len() + 6 * n < NULL_RAW
}

/// The box fits in the arenas: room for its 8 vertices, 6 faces, and 24
/// half-edges and edges.
pub open spec fn box_fits(m: Mesh) -> bool {
    &&& m.verts@.len() + 8 < NULL_RAW
    &&& m.faces@.len() + 8 < NULL_RAW
    &&& m.hes@.len() + 24 < NULL_RAW
    &&& m.edges@.len() + 24 < NULL_RAW
}

/// Vertex `k` of ring `r` of a sphere whose poles start at slot `b` and
/// whose rings have `u` vertices.
pub open spec fn sphere_ring_vert(b: nat, u: nat, r: int, k: int) -> VertId {
    vert_at(b, 2 + r * u + k)
}

/// The loop of face `idx` of a sphere of `u` segments round and `v` from
/// pole to pole, face rows taken from north to south: a fan of triangles
/// round the north pole, quads between consecutive rings, and a fan round
/// the south pole.
pub open spec fn sphere_face(b: nat, u: nat, v: nat, idx: int) -> Seq<VertId> {
    let row = idx / (u as int);
    let k = idx % (u as int);
    let nk = ring_next(k, u as int);
    if row == 0 {
        seq![vert_at(b, 0), sphere_ring_vert(b, u, 0, nk), sphere_ring_vert(b, u, 0, k)]
    } else if row < v - 1 {
        seq![
            sphere_ring_vert(b, u, row - 1, k),
            sphere_ring_vert(b, u, row - 1, nk),
            sphere_ring_vert(b, u, row, nk),
            sphere_ring_vert(b, u, row, k),
        ]
    } else {
        seq![sphere_ring_vert(b, u, v - 2, k), sphere_ring_vert(b, u, v - 2, nk), vert_at(b, 1)]
    }
}

/// The face loops of a sphere whose poles start at vertex slot `b`.
pub open spec fn sphere_loops(b: nat, u: nat, v: nat) -> Seq<Seq<VertId>> {
    Seq::new(u * v, |idx: int| sphere_face(b, u, v, idx))
}

/// A sphere of `u` by `v` segments fits in the arenas.
pub open spec fn sphere_fits(m: Mesh, u: nat, v: nat) -> bool {
    &&& m.verts@.len() + 2 + (v - 1) * u < NULL_RAW
    &&& m.faces@.len() + u * v + 2 < NULL_RAW
    &&& m.hes@.len() + 4 * (u * v) < NULL_RAW
    &&& m.edges@.len() + 4 * (u * v) < NULL_RAW
}

/// Building a sphere of `u` by `v` segments took `old` to `new` with
/// result `r`: refused with nothing changed for fewer than three segments
/// round or two from pole to pole, or for want of room; otherwise the two
/// poles, then `v - 1` rings of `u` vertices from north to south, are
/// added and the faces built, each with a sphere surface.
pub open spec fn sphere_built(
    old: Mesh,
    new: Mesh,
    u: nat,
    v: nat,
    material: MaterialId,
    r: Result<Vec<FaceId>, MeshError>,
) -> bool {
    let same = new.verts@ == old.verts@ && new.hes@ == old.hes@ && new.edges@ == old.edges@ && new.faces@ == old.faces@;
    if u < 3 || v < 2 {
        r == Err::<Vec<FaceId>, MeshError>(MeshError::TooFewSegments) && same
    } else if !sphere_fits(old, u, v) {
        r == Err::<Vec<FaceId>, MeshError>(MeshError::CapacityExceeded) && same
    } else {
        r matches Ok(fs) && exists|mid: Mesh|
            #[trigger] verts_pushed(old, mid, (2 + (v - 1) * u) as nat) && faces_built(
                mid,
                new,
                sphere_loops(old.verts@.len() as nat, u, v),
                material,
                Seq::new(u * v, |k: int| Some(SurfaceKind::Sphere)),
                fs@,
            )
    }
}

/// Ring vertices of a sphere are distinct and among its new vertices.
proof fn lemma_sphere_ring_vert(b: nat, u: nat, v: nat, r1: int, k1: int, r2: int, k2: int)
    requires
        u >= 3,
        v >= 2,
        0 <= r1 <= v - 2,
        0 <= r2 <= v - 2,
        0 <= k1 < u,
        0 <= k2 < u,
        b + 2 + (v - 1) * u < NULL_RAW,
    ensures
        b + 2 <= b + 2 + r1 * u + k1 < b + 2 + (v - 1) * u,
        sphere_ring_vert(b, u, r1, k1).ix() == b + 2 + r1 * u + k1,
        (r1 != r2 || k1 != k2) ==> sphere_ring_vert(b, u, r1, k1) != sphere_ring_vert(b, u, r2, k2),
{
    assert(0 <= r1 * u <= (v - 2) * u) by (nonlinear_arith)
        requires
            0 <= r1 <= v - 2,
            u >= 3,
    ;
    assert((v - 2) * u + u == (v - 1) * u) by (nonlinear_arith);
    assert(0 <= r2 * u <= (v - 2) * u) by (nonlinear_arith)
        requires
            0 <= r2 <= v - 2,
            u >= 3,
    ;
    assert(sphere_ring_vert(b, u, r2, k2).ix() == b + 2 + r2 * u + k2);
    if r1 != r2 || k1 != k2 {
        if r1 * u + k1 == r2 * u + k2 {
            vstd::arithmetic::div_mod::lemma_fundamental_div_mod_converse(r1 * u + k1, u as int, r1, k1);
            vstd::arithmetic::div_mod::lemma_fundamental_div_mod_converse(r2 * u + k2, u as int, r2, k2);
        }
    }
}

/// The sphere loops are usable.
proof fn lemma_sphere_loops_ok(b: nat, u: nat, v: nat, nv: int)
    requires
        u >= 3,
        v >= 2,
        b + 2 + (v - 1) * u <= nv,
        nv < NULL_RAW,
    ensures
        forall|idx: int| 0 <= idx < u * v ==> loop_input_ok(#[trigger] sphere_loops(b, u, v)[idx], nv),
        forall|idx: int| 0 <= idx < u * v ==> (#[trigger] sphere_loops(b, u, v)[idx]).len() <= 4,
{
    let sl = sphere_loops(b, u, v);
    assert forall|idx: int| 0 <= idx < u * v implies loop_input_ok(#[trigger] sl[idx], nv) && sl[idx].len() <= 4 by {
        let row = idx / (u as int);
        let k = idx % (u as int);
        let nk = ring_next(k, u as int);
        vstd::arithmetic::div_mod::lemma_fundamental_div_mod(idx, u as int);
        assert(0 <= k < u);
        assert(0 <= row < v) by (nonlinear_arith)
            requires
                idx == (u as int) * row + k,
                0 <= k < u,
                0 <= idx < u * v,
                u >= 3,
        ;
        let w = sl[idx];
        assert(w == sphere_face(b, u, v, idx));
        if row == 0 {
            lemma_sphere_ring_vert(b, u, v, 0, nk, 0, k);
            lemma_sphere_ring_vert(b, u, v, 0, k, 0, nk);
            lemma_tri_ok(w, nv);
        } else if row < v - 1 {
            lemma_sphere_ring_vert(b, u, v, row - 1, k, row - 1, nk);
            lemma_sphere_ring_vert(b, u, v, row - 1, nk, row, nk);
            lemma_sphere_ring_vert(b, u, v, row, nk, row, k);
            lemma_sphere_ring_vert(b, u, v, row, k, row - 1, k);
            lemma_quad_ok(w, nv);
        } else {
            lemma_sphere_ring_vert(b, u, v, v - 2, k, v - 2, nk);
            lemma_sphere_ring_vert(b, u, v, v - 2, nk, v - 2, k);
            lemma_tri_ok(w, nv);
        }
    }
}

/// Loops of at most four vertices each: their total length is at most
/// four per loop.
proof fn lemma_small_loops_len(loops: Seq<Vec<VertId>>, k: nat)
    requires
        k <= loops.len(),
        forall|q: int| 0 <= q < loops.len() ==> (#[trigger] loops[q])@.len() <= 4,
    ensures
        holes_sum(loops, k) <= 4 * k,
    decreases k,
{
    if k > 0 {
        lemma_small_loops_len(loops, (k - 1) as nat);
    }
}

/// The face loops of a box whose corners start at vertex slot `b`:
/// bottom (-y), top (+y), front (+z), back (-z), right (+x), left (-x).
pub open spec fn box_loops(b: nat) -> Seq<Seq<VertId>> {
    let c = |i: int| vert_at(b, i);
    seq![
        seq![c(0), c(1), c(5), c(4)],
        seq![c(3), c(7), c(6), c(2)],
        seq![c(4), c(5), c(6), c(7)],
        seq![c(0), c(3), c(2), c(1)],
        seq![c(1), c(2), c(6), c(5)],
        seq![c(0), c(4), c(7), c(3)],
    ]
}

/// The two ends of side `k` of the loop `w`, in the loop's direction.
pub open spec fn loop_side(w: Seq<VertId>, k: int) -> (VertId, VertId) {
    (w[k], w[(k + 1) % (w.len() as int)])
}

/// Side `k` of loop `i` of `loops` is run the other way by a side of
/// another loop.
pub open spec fn side_run_back(loops: Seq<Seq<VertId>>, i: int, k: int) -> bool {
    exists|j: int, l: int|
        #![trigger loop_side(loops[j], l)]
        0 <= j < loops.len() && j != i && 0 <= l < loops[j].len() && loop_side(loops[j], l) == (
            loop_side(loops[i], k).1,
            loop_side(loops[i], k).0,
        )
}

/// Corner `k` of face `i` of a box, as an offset from its first vertex
/// slot.
spec fn box_corner(i: int, k: int) -> int {
    if i == 0 {
        if k == 0 { 0 } else if k == 1 { 1 } else if k == 2 { 5 } else { 4 }
    } else if i == 1 {
        if k == 0 { 3 } else if k == 1 { 7 } else if k == 2 { 6 } else { 2 }
    } else if i == 2 {
        if k == 0 { 4 } else if k == 1 { 5 } else if k == 2 { 6 } else { 7 }
    } else if i == 3 {
        if k == 0 { 0 } else if k == 1 { 3 } else if k == 2 { 2 } else { 1 }
    } else if i == 4 {
        if k == 0 { 1 } else if k == 1 { 2 } else if k == 2 { 6 } else { 5 }
    } else {
        if k == 0 { 0 } else if k == 1 { 4 } else if k == 2 { 7 } else { 3 }
    }
}

proof fn lemma_box_side(b: nat, i: int, k: int)
    requires
        b + 8 <= NULL_RAW,
        0 <= i < 6,
        0 <= k < 4,
    ensures
        box_loops(b)[i].len() == 4,
        loop_side(box_loops(b)[i], k) == (vert_at(b, box_corner(i, k)), vert_at(b, box_corner(i, (k + 1) % 4))),
{
    assert((k + 1) % 4 == if k == 3 { 0 } else { k + 1 });
}

/// Law: the box that `create_box` builds is a closed, consistently
/// oriented surface: no two of its face sides run the same way between the
/// same corners, and every side is run the other way by another face.
pub proof fn law_box_consistently_oriented(b: nat)
    requires
        b + 8 <= NULL_RAW,
    ensures
        forall|i: int, k: int, j: int, l: int|
            0 <= i < 6 && 0 <= k < 4 && 0 <= j < 6 && 0 <= l < 4 && (i != j || k != l) ==> #[trigger] loop_side(
                box_loops(b)[i],
                k,
            ) != #[trigger] loop_side(box_loops(b)[j], l),
        forall|i: int, k: int| 0 <= i < 6 && 0 <= k < 4 ==> #[trigger] side_run_back(box_loops(b), i, k),
{
    assert forall|x: int, y: int| 0 <= x < 8 && 0 <= y < 8 && x != y implies vert_at(b, x) != vert_at(b, y) by {
        assert((b + x) as u32 == b + x);
        assert((b + y) as u32 == b + y);
    }
    assert forall|i: int, k: int, j: int, l: int|
        0 <= i < 6 && 0 <= k < 4 && 0 <= j < 6 && 0 <= l < 4 && (i != j || k != l) implies #[trigger] loop_side(
            box_loops(b)[i],
            k,
        ) != #[trigger] loop_side(box_loops(b)[j], l) by {
        lemma_box_side(b, i, k);
        lemma_box_side(b, j, l);
        let (p, q) = (box_corner(i, k), box_corner(i, (k + 1) % 4));
        let (p2, q2) = (box_corner(j, l), box_corner(j, (l + 1) % 4));
        assert(p != p2 || q != q2) by {
            assert((k + 1) % 4 == if k == 3 { 0 } else { k + 1 });
            assert((l + 1) % 4 == if l == 3 { 0 } else { l + 1 });
        }
        assert(0 <= p < 8 && 0 <= q < 8 && 0 <= p2 < 8 && 0 <= q2 < 8);
    }
    assert forall|i: int, k: int| 0 <= i < 6 && 0 <= k < 4 implies #[trigger] side_run_back(box_loops(b), i, k) by {
        lemma_box_side(b, i, k);
        let (j, l) = box_twin(i, k);
        assert(0 <= j < 6 && j != i && 0 <= l < 4);
        lemma_box_side(b, j, l);
        assert((k + 1) % 4 == if k == 3 { 0 } else { k + 1 });
        assert((l + 1) % 4 == if l == 3 { 0 } else { l + 1 });
        assert(box_corner(j, l) == box_corner(i, (k + 1) % 4) && box_corner(j, (l + 1) % 4) == box_corner(i, k));
        assert(loop_side(box_loops(b)[j], l) == (loop_side(box_loops(b)[i], k).1, loop_side(box_loops(b)[i], k).0));
    }
}

/// The face and side that run side `k` of box face `i` the other way.
spec fn box_twin(i: int, k: int) -> (int, int) {
    if i == 0 && k == 0 {
        (3, 3)
    } else if i == 0 && k == 1 {
        (4, 3)
    } else if i == 0 && k == 2 {
        (2, 0)
    } else if i == 0 && k == 3 {
        (5, 0)
    } else if i == 1 && k == 0 {
        (5, 2)
    } else if i == 1 && k == 1 {
        (2, 2)
    } else if i == 1 && k == 2 {
        (4, 1)
    } else if i == 1 && k == 3 {
        (3, 1)
    } else if i == 2 && k == 0 {
        (0, 2)
    } else if i == 2 && k == 1 {
        (4, 2)
    } else if i == 2 && k == 2 {
        (1, 1)
    } else if i == 2 && k == 3 {
        (5, 1)
    } else if i == 3 && k == 0 {
        (5, 3)
    } else if i == 3 && k == 1 {
        (1, 3)
    } else if i == 3 && k == 2 {
        (4, 0)
    } else if i == 3 && k == 3 {
        (0, 0)
    } else if i == 4 && k == 0 {
        (3, 2)
    } else if i == 4 && k == 1 {
        (1, 2)
    } else if i == 4 && k == 2 {
        (2, 1)
    } else if i == 4 && k == 3 {
        (0, 1)
    } else if i == 5 && k == 0 {
        (0, 3)
    } else if i == 5 && k == 1 {
        (2, 3)
    } else if i == 5 && k == 2 {
        (1, 0)
    } else {
        (3, 0)
    }
}

/// Quads of distinct vertices in range are usable loops.
pub proof fn lemma_quad_ok(w: Seq<VertId>, nv: int)
    requires
        w.len() == 4,
        forall|i: int| 0 <= i < 4 ==> 0 <= (#[trigger] w[i]).ix() < nv,
        w[0] != w[1],
        w[1] != w[2],
        w[2] != w[3],
        w[3] != w[0],
    ensures
        loop_input_ok(w, nv),
{
    assert forall|i: int| 0 <= i < w.len() implies #[trigger] w[i] != w[(i + 1) % (w.len() as int)] by {
        lemma_mod_next(i, 4);
    }
}

/// Triangles of distinct vertices in range are usable loops.
proof fn lemma_tri_ok(w: Seq<VertId>, nv: int)
    requires
        w.len() == 3,
        forall|i: int| 0 <= i < 3 ==> 0 <= (#[trigger] w[i]).ix() < nv,
        w[0] != w[1],
        w[1] != w[2],
        w[2] != w[0],
    ensures
        loop_input_ok(w, nv),
{
    assert forall|i: int| 0 <= i < w.len() implies #[trigger] w[i] != w[(i + 1) % (w.len() as int)] by {
        lemma_mod_next(i, 3);
    }
}

/// Loops of four vertices each: their total length.
proof fn lemma_quads_len(loops: Seq<Vec<VertId>>, k: nat)
    requires
        k <= loops.len(),
        forall|q: int| 0 <= q < loops.len() ==> (#[trigger] loops[q])@.len() == 4,
    ensures
        holes_sum(loops, k) == 4 * k,
    decreases k,
{
    if k > 0 {
        lemma_quads_len(loops, (k - 1) as nat);
    }
}

/// The box loops are usable: quads of distinct vertices among the new
/// ones.
proof fn lemma_box_loops_ok(b: nat, nv: int)
    requires
        b + 8 <= nv,
        nv < NULL_RAW,
    ensures
        forall|k: int| 0 <= k < 6 ==> loop_input_ok(#[trigger] box_loops(b)[k], nv),
        forall|k: int| 0 <= k < 6 ==> (#[trigger] box_loops(b)[k]).len() == 4,
{
    let bl = box_loops(b);
    assert forall|k: int| 0 <= k < 6 implies loop_input_ok(#[trigger] bl[k], nv) by {
        lemma_quad_ok(bl[k], nv);
    }
}

} // verus!
