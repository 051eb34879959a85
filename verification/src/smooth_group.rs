//! The faces of a smooth surface group and what an offset of the group
//! moves.
//!
//! Offsetting a face that lies on an analytic surface (cylinder, sphere,
//! cone, torus) offsets every active face on the same surface instance:
//! their vertices move along the surface normal and the edges of their
//! outer loops get new curves. Whether a face carries the same surface
//! instance is decided on the surface parameters, which the caller holds;
//! this module gathers the group, its vertices and its edges.

use vstd::prelude::*;
use crate::ids::{VertId, EdgeId, FaceId, NULL_RAW};
use crate::mesh::{Mesh, MeshError, loop_closes, loop_len, loop_verts, loop_edges};
use crate::erase_resynth::{ids_increasing, insert_all_sorted};

verus! {

/// The faces of a smooth group, the vertices of their outer loops, each
/// once in increasing order, and the edges of those loops, each once.
#[derive(Debug)]
pub struct SmoothGroup {
    pub faces: Vec<FaceId>,
    pub verts: Vec<VertId>,
    pub edges: Vec<EdgeId>,
}

/// Why a smooth group cannot be gathered.
#[derive(Clone, Copy, Debug, PartialEq, Eq, Structural)]
pub enum SmoothGroupError {
    /// The profile face is not an active face on the group's surface.
    NotInGroup(FaceId),
    /// The outer loop of a group face does not close.
    Mesh(MeshError),
}

/// Face slot `i` is in the group: an active face whose surface is the
/// group's (`same[i]`).
pub open spec fn in_smooth_group(m: Mesh, same: Seq<bool>, i: int) -> bool {
    &&& 0 <= i < m.faces@.len()
    &&& i < same.len()
    &&& same[i]
    &&& m.faces@[i].present
    &&& m.faces@[i].active
}

/// The group faces among the first `n` face slots, in slot order.
pub open spec fn smooth_group_upto(m: Mesh, same: Seq<bool>, n: nat) -> Seq<FaceId>
    decreases n,
{
    if n == 0 {
        Seq::empty()
    } else {
        let p = smooth_group_upto(m, same, (n - 1) as nat);
        if in_smooth_group(m, same, n - 1) {
            p.push(FaceId { id: (n - 1) as u32 })
        } else {
            p
        }
    }
}

/// The faces of the group, in slot order.
pub open spec fn smooth_group_faces(m: Mesh, same: Seq<bool>) -> Seq<FaceId> {
    smooth_group_upto(m, same, m.faces@.len())
}

/// The vertices of the outer loop of face `f`.
pub open spec fn outer_loop_verts(m: Mesh, f: FaceId) -> Seq<VertId> {
    let st = m.faces@[f.ix()].outer.start;
    loop_verts(m.hes@, st, loop_len(m.hes@, st))
}

/// The edges of the outer loop of face `f`.
pub open spec fn outer_loop_edges(m: Mesh, f: FaceId) -> Seq<EdgeId> {
    let st = m.faces@[f.ix()].outer.start;
    loop_edges(m.hes@, st, loop_len(m.hes@, st))
}

/// Every face of `fs` has an outer loop that closes.
pub open spec fn outer_loops_close(m: Mesh, fs: Seq<FaceId>) -> bool {
    forall|k: int| 0 <= k < fs.len() ==> loop_closes(m.hes@, m.faces@[(#[trigger] fs[k]).ix()].outer.start)
}

/// The group faces of the first `n` slots are those below `n` that are in
/// the group, each once.
proof fn lemma_group_upto(m: Mesh, same: Seq<bool>, n: nat)
    requires
        n <= m.faces@.len(),
        m.faces@.len() < 0xffff_ffff,
    ensures
        forall|f: FaceId| #[trigger] smooth_group_upto(m, same, n).contains(f) <==> (f.ix() < n && in_smooth_group(m, same, f.ix())),
        forall|k: int| 0 <= k < smooth_group_upto(m, same, n).len()
            ==> #[trigger] smooth_group_upto(m, same, n)[k].ix() < n,
    decreases n,
{
    if n > 0 {
        lemma_group_upto(m, same, (n - 1) as nat);
        let p = smooth_group_upto(m, same, (n - 1) as nat);
        let x = FaceId { id: (n - 1) as u32 };
        if in_smooth_group(m, same, n - 1) {
            assert(x.ix() == n - 1);
            assert forall|f: FaceId| #[trigger] p.push(x).contains(f) <==> (f.ix() < n && in_smooth_group(m, same, f.ix())) by {
                if f.ix() == n - 1 {
                    assert(f == x);
                    assert(p.push(x)[p.len() as int] == x);
                }
                if p.push(x).contains(f) {
                    let q = choose|q: int| 0 <= q < p.push(x).len() && p.push(x)[q] == f;
                    if q < p.len() {
                        assert(p[q] == f);
                    }
                }
                if p.contains(f) {
                    let q = choose|q: int| 0 <= q < p.len() && p[q] == f;
                    assert(p.push(x)[q] == f);
                }
            }
            assert forall|k: int| 0 <= k < p.push(x).len() implies #[trigger] p.push(x)[k].ix() < n by {
                if k < p.len() {
                    assert(p.push(x)[k] == p[k]);
                }
            }
        }
    }
}

/// Inserts each edge of `xs` into `v` unless it is there.
fn push_new_edges(v: &mut Vec<EdgeId>, xs: &Vec<EdgeId>)
    requires
        old(v)@.no_duplicates(),
    ensures
        final(v)@.no_duplicates(),
        forall|e: EdgeId| #[trigger] final(v)@.contains(e) <==> (old(v)@.contains(e) || xs@.contains(e)),
{
    let n = xs.len();
    let mut i: usize = 0;
    while i < n
        invariant
            n == xs@.len(),
            i <= n,
            v@.no_duplicates(),
            forall|e: EdgeId| #[trigger] v@.contains(e) <==> (old(v)@.contains(e) || xs@.take(i as int).contains(e)),
        decreases n - i,
    {
        let x = xs[i];
        let m = v.len();
        let mut j: usize = 0;
        let mut found = false;
        while j < m
            invariant
                m == v@.len(),
                j <= m,
                found ==> v@.contains(x),
                !found ==> forall|q: int| 0 <= q < j ==> v@[q] != x,
            decreases m - j,
        {
            if v[j] == x {
                found = true;
                assert(v@[j as int] == x);
            }
            j += 1;
        }
        let ghost vb = v@;
        if !found {
            v.push(x);
            proof {
                assert(!vb.contains(x));
                assert forall|a: int, b: int| 0 <= a < v@.len() && 0 <= b < v@.len() && a != b implies v@[a] != v@[b] by {
                    if a < vb.len() && b < vb.len() {
                        assert(v@[a] == vb[a] && v@[b] == vb[b]);
                    } else if a == vb.len() {
                        assert(v@[b] == vb[b]);
                    } else {
                        assert(v@[a] == vb[a]);
                    }
                }
            }
        }
        proof {
            let t = xs@.take(i as int);
            let t1 = xs@.take(i + 1);
            assert(t1 =~= t.push(x));
            assert forall|e: EdgeId| #[trigger] v@.contains(e) <==> (old(v)@.contains(e) || t1.contains(e)) by {
                if !found {
                    if v@.contains(e) && e != x {
                        let q = choose|q: int| 0 <= q < v@.len() && v@[q] == e;
                        assert(vb[q] == e);
                    }
                    if vb.contains(e) {
                        let q = choose|q: int| 0 <= q < vb.len() && vb[q] == e;
                        assert(v@[q] == e);
                    }
                    if e == x {
                        assert(v@[vb.len() as int] == x);
                    }
                }
                if t1.contains(e) && e != x {
                    let q = choose|q: int| 0 <= q < t1.len() && t1[q] == e;
                    assert(t[q] == e);
                }
                if t.contains(e) {
                    let q = choose|q: int| 0 <= q < t.len() && t[q] == e;
                    assert(t1[q] == e);
                }
                if e == x {
                    assert(t1[i as int] == x);
                }
            }
        }
        i += 1;
    }
    assert(xs@.take(n as int) =~= xs@);
}

impl Mesh {
    /// Gathers the smooth group of `profile_face`: the active faces whose
    /// surface is the group's (`same_surface[i]` for face slot `i`; slots
    /// past its end are not), then the vertices and the edges of their
    /// outer loops.
    pub fn smooth_group(&self, profile_face: FaceId, same_surface: &[bool]) -> (r: Result<SmoothGroup, SmoothGroupError>)
        requires
            self.wf(),
        ensures
            !in_smooth_group(*self, same_surface@, profile_face.ix())
                ==> r == Err::<SmoothGroup, SmoothGroupError>(SmoothGroupError::NotInGroup(profile_face)),
            r is Ok <==> in_smooth_group(*self, same_surface@, profile_face.ix())
                && outer_loops_close(*self, smooth_group_faces(*self, same_surface@)),
            r matches Err(e) ==> e is NotInGroup || e is Mesh,
            r matches Ok(g) ==> {
                let fs = smooth_group_faces(*self, same_surface@);
                &&& g.faces@ == fs
                &&& g.faces@.contains(profile_face)
                &&& ids_increasing(g.verts@)
                &&& forall|v: VertId| #[trigger] g.verts@.contains(v)
                    <==> exists|k: int| 0 <= k < fs.len() && outer_loop_verts(*self, #[trigger] fs[k]).contains(v)
                &&& g.edges@.no_duplicates()
                &&& forall|e: EdgeId| #[trigger] g.edges@.contains(e)
                    <==> exists|k: int| 0 <= k < fs.len() && outer_loop_edges(*self, #[trigger] fs[k]).contains(e)
            },
    {
        let n = self.faces.len();
        let ghost same = same_surface@;
        let mut faces: Vec<FaceId> = Vec::new();
        let mut i: usize = 0;
        while i < n
            invariant
                n == self.faces@.len(),
                n < NULL_RAW,
                same == same_surface@,
                i <= n,
                faces@ == smooth_group_upto(*self, same, i as nat),
            decreases n - i,
        {
            if i < same_surface.len() && same_surface[i] && self.faces[i].present && self.faces[i].active {
                faces.push(FaceId::new(i as u32));
            }
            i += 1;
        }
        proof {
            lemma_group_upto(*self, same, n as nat);
            assert forall|q: int| 0 <= q < faces@.len() implies in_smooth_group(*self, same, (#[trigger] faces@[q]).ix()) by {
                assert(faces@.contains(faces@[q]));
            }
        }
        let p = profile_face.id as usize;
        if !(p < n && p < same_surface.len() && same_surface[p] && self.faces[p].present && self.faces[p].active) {
            return Err(SmoothGroupError::NotInGroup(profile_face));
        }
        let ghost fs = faces@;
        let nf = faces.len();
        let mut verts: Vec<VertId> = Vec::new();
        let mut k: usize = 0;
        while k < nf
            invariant
                self.wf(),
                same == same_surface@,
                in_smooth_group(*self, same, profile_face.ix()),
                fs == faces@,
                fs == smooth_group_faces(*self, same),
                nf == fs.len(),
                k <= nf,
                forall|q: int| 0 <= q < fs.len() ==> in_smooth_group(*self, same, (#[trigger] fs[q]).ix()),
                ids_increasing(verts@),
                forall|q: int| 0 <= q < k && self.faces@[(#[trigger] fs[q]).ix()].outer.start.id != NULL_RAW
                    ==> loop_closes(self.hes@, self.faces@[fs[q].ix()].outer.start),
                forall|v: VertId| #[trigger] verts@.contains(v) <==> exists|q: int| 0 <= q < k
                    && self.faces@[fs[q].ix()].outer.start.id != NULL_RAW && outer_loop_verts(*self, #[trigger] fs[q]).contains(v),
            decreases nf - k,
        {
            let f = faces[k];
            let st = self.faces[f.id as usize].outer.start;
            let ghost vb = verts@;
            if !st.is_null() {
                match self.collect_loop_verts(st) {
                    Ok(vs) => {
                        insert_all_sorted(&mut verts, &vs);
                    },
                    Err(e) => {
                        proof {
                            assert(!loop_closes(self.hes@, self.faces@[fs[k as int].ix()].outer.start));
                        }
                        return Err(SmoothGroupError::Mesh(e));
                    },
                }
            }
            proof {
                assert forall|v: VertId| #[trigger] verts@.contains(v) <==> exists|q: int| 0 <= q < k + 1
                    && self.faces@[fs[q].ix()].outer.start.id != NULL_RAW && outer_loop_verts(*self, #[trigger] fs[q]).contains(v) by {
                    if vb.contains(v) {
                        let q = choose|q: int| 0 <= q < k
                            && self.faces@[fs[q].ix()].outer.start.id != NULL_RAW && outer_loop_verts(*self, #[trigger] fs[q]).contains(v);
                    }
                    if exists|q: int| 0 <= q < k + 1
                        && self.faces@[fs[q].ix()].outer.start.id != NULL_RAW && outer_loop_verts(*self, #[trigger] fs[q]).contains(v) {
                        let q = choose|q: int| 0 <= q < k + 1
                            && self.faces@[fs[q].ix()].outer.start.id != NULL_RAW && outer_loop_verts(*self, #[trigger] fs[q]).contains(v);
                        if q < k {
                            assert(vb.contains(v));
                        }
                    }
                }
            }
            k += 1;
        }
        let mut edges: Vec<EdgeId> = Vec::new();
        let mut k: usize = 0;
        while k < nf
            invariant
                self.wf(),
                fs == faces@,
                same == same_surface@,
                in_smooth_group(*self, same, profile_face.ix()),
                fs == smooth_group_faces(*self, same),
                nf == fs.len(),
                k <= nf,
                forall|q: int| 0 <= q < fs.len() ==> in_smooth_group(*self, same, (#[trigger] fs[q]).ix()),
                edges@.no_duplicates(),
                forall|q: int| 0 <= q < k ==> loop_closes(self.hes@, self.faces@[(#[trigger] fs[q]).ix()].outer.start),
                forall|e: EdgeId| #[trigger] edges@.contains(e) <==> exists|q: int| 0 <= q < k
                    && outer_loop_edges(*self, #[trigger] fs[q]).contains(e),
            decreases nf - k,
        {
            let f = faces[k];
            let ghost eb = edges@;
            match self.face_outer_edges(f) {
                Ok(es) => {
                    push_new_edges(&mut edges, &es);
                },
                Err(e) => {
                    proof {
                        assert(in_smooth_group(*self, same, fs[k as int].ix()));
                        assert(!loop_closes(self.hes@, self.faces@[fs[k as int].ix()].outer.start));
                    }
                    return Err(SmoothGroupError::Mesh(e));
                },
            }
            proof {
                assert forall|e: EdgeId| #[trigger] edges@.contains(e) <==> exists|q: int| 0 <= q < k + 1
                    && outer_loop_edges(*self, #[trigger] fs[q]).contains(e) by {
                    if eb.contains(e) {
                        let q = choose|q: int| 0 <= q < k && outer_loop_edges(*self, #[trigger] fs[q]).contains(e);
                    }
                    if exists|q: int| 0 <= q < k + 1 && outer_loop_edges(*self, #[trigger] fs[q]).contains(e) {
                        let q = choose|q: int| 0 <= q < k + 1 && outer_loop_edges(*self, #[trigger] fs[q]).contains(e);
                        if q < k {
                            assert(eb.contains(e));
                        }
                    }
                }
            }
            k += 1;
        }
        proof {
            assert forall|v: VertId| #[trigger] verts@.contains(v)
                <==> exists|q: int| 0 <= q < fs.len() && outer_loop_verts(*self, #[trigger] fs[q]).contains(v) by {
                if exists|q: int| 0 <= q < fs.len() && outer_loop_verts(*self, #[trigger] fs[q]).contains(v) {
                    let q = choose|q: int| 0 <= q < fs.len() && outer_loop_verts(*self, #[trigger] fs[q]).contains(v);
                    assert(loop_closes(self.hes@, self.faces@[fs[q].ix()].outer.start));
                }
            }
        }
        Ok(SmoothGroup { faces, verts, edges })
    }
}

} // verus!
