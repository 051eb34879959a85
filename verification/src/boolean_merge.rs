//! The last stage of a boolean: coplanar neighbours among the result faces
//! are merged along their shared edges.
//!
//! Which result faces lie on one plane is decided on coordinates by the
//! caller, who hands in the coplanar pairs.

use vstd::prelude::*;
use crate::ids::FaceId;
use crate::mesh::Mesh;
use crate::shared_merge::{merge_done, MergeFacesError};

verus! {

/// The pair `a`, `b` is listed as coplanar, either way round.
pub open spec fn pair_listed(pairs: Seq<(FaceId, FaceId)>, a: FaceId, b: FaceId) -> bool {
    exists|k: int| 0 <= k < pairs.len() && (#[trigger] pairs[k] == (a, b) || pairs[k] == (b, a))
}

/// One merge attempt from `a` to `b`: the listed coplanar faces `f1` and
/// `f2` merged along their shared edges (coplanar, every walked vertex
/// kept, winding as walked), or left as they were where that is refused.
pub open spec fn merge_attempt(a: Mesh, b: Mesh, f1: FaceId, f2: FaceId, pairs: Seq<(FaceId, FaceId)>) -> bool {
    pair_listed(pairs, f1, f2) && exists|r: Result<FaceId, MergeFacesError>|
        #![trigger merge_done(a, b, f1, f2, true, Seq::<bool>::empty(), false, r)]
        merge_done(a, b, f1, f2, true, Seq::<bool>::empty(), false, r)
}

/// No two entries of `r` form a listed coplanar pair, and every entry is
/// an active face of `m`.
pub open spec fn merge_settled(m: Mesh, r: Seq<FaceId>, pairs: Seq<(FaceId, FaceId)>) -> bool {
    &&& forall|k: int| 0 <= k < r.len() ==> m.face_active(#[trigger] r[k])
    &&& forall|i: int, j: int| 0 <= i < j < r.len() ==> !pair_listed(pairs, #[trigger] r[i], #[trigger] r[j])
}

/// The merge pass from `old` to `new` over `faces`, giving `r`: a sequence
/// of merge attempts on listed coplanar pairs, and a result drawn from
/// `faces` that is settled, unless ten rounds of merging ran out first
/// (then at least ten attempts were made).
pub open spec fn coplanar_merged(old: Mesh, new: Mesh, faces: Seq<FaceId>, pairs: Seq<(FaceId, FaceId)>, r: Seq<FaceId>) -> bool {
    &&& r.len() <= faces.len()
    &&& forall|k: int| 0 <= k < r.len() ==> faces.contains(#[trigger] r[k])
    &&& exists|ms: Seq<Mesh>, fa: Seq<FaceId>, fb: Seq<FaceId>|
        #![trigger ms.len(), fa.len(), fb.len()]
        ms.len() == fa.len() + 1 && fb.len() == fa.len() && ms[0] == old && ms[fa.len() as int] == new && (forall|k: int|
            0 <= k < fa.len() ==> #[trigger] merge_attempt(ms[k], ms[k + 1], fa[k], fb[k], pairs)) && (merge_settled(
            new,
            r,
            pairs,
        ) || fa.len() >= 10)
}

/// Whether the pair is listed (see `pair_listed`).
fn listed(pairs: &[(FaceId, FaceId)], a: FaceId, b: FaceId) -> (r: bool)
    ensures
        r == pair_listed(pairs@, a, b),
{
    let n = pairs.len();
    let mut k: usize = 0;
    while k < n
        invariant
            n == pairs@.len(),
            k <= n,
            forall|q: int| 0 <= q < k ==> !(#[trigger] pairs@[q] == (a, b) || pairs@[q] == (b, a)),
        decreases n - k,
    {
        let p = pairs[k];
        if (p.0 == a && p.1 == b) || (p.0 == b && p.1 == a) {
            assert(pairs@[k as int] == (a, b) || pairs@[k as int] == (b, a));
            return true;
        }
        k += 1;
    }
    false
}

impl Mesh {
    /// Whether `f` is an active face.
    fn is_active_face(&self, f: FaceId) -> (b: bool)
        ensures
            b == self.face_active(f),
    {
        (f.id as usize) < self.faces.len() && self.faces[f.id as usize].present && self.faces[f.id as usize].active
    }

    /// Merges coplanar neighbours among `faces`, the result faces of a
    /// boolean; `pairs` lists the pairs that lie on one plane. Up to ten
    /// rounds: each round keeps the faces still active, and for each face
    /// takes the first later face still active and listed with it, tries
    /// to merge the two along their shared edges, and drops the later one
    /// from the list; rounds go on while a pair was found.
    pub fn merge_coplanar_result_faces(&mut self, faces: &[FaceId], pairs: &[(FaceId, FaceId)]) -> (r: Vec<FaceId>)
        requires
            old(self).wf(),
        ensures
            final(self).wf(),
            coplanar_merged(*old(self), *final(self), faces@, pairs@, r@),
    {
        let ghost m0 = *self;
        let mut current: Vec<FaceId> = Vec::new();
        let mut k: usize = 0;
        while k < faces.len()
            invariant
                k <= faces@.len(),
                current@ == faces@.take(k as int),
            decreases faces@.len() - k,
        {
            current.push(faces[k]);
            proof {
                assert(faces@.take(k + 1) =~= faces@.take(k as int).push(faces@[k as int]));
            }
            k += 1;
        }
        proof {
            assert(faces@.take(faces@.len() as int) =~= faces@);
        }
        let ghost mut ms: Seq<Mesh> = seq![m0];
        let ghost mut fa: Seq<FaceId> = Seq::empty();
        let ghost mut fb: Seq<FaceId> = Seq::empty();
        let mut changed = true;
        let mut iterations: usize = 0;
        while changed && iterations < 10
            invariant
                self.wf(),
                iterations <= 10,
                current@.len() <= faces@.len(),
                forall|q: int| 0 <= q < current@.len() ==> faces@.contains(#[trigger] current@[q]),
                ms.len() == fa.len() + 1,
                fb.len() == fa.len(),
                ms[0] == m0,
                ms[fa.len() as int] == *self,
                forall|q: int| 0 <= q < fa.len() ==> #[trigger] merge_attempt(ms[q], ms[q + 1], fa[q], fb[q], pairs@),
                fa.len() >= iterations || !changed,
                !changed ==> merge_settled(*self, current@, pairs@),
                iterations == 10 && changed ==> fa.len() >= 10,
            decreases 10 - iterations,
        {
            changed = false;
            iterations += 1;
            let ghost att0 = fa.len();
            let mut next: Vec<FaceId> = Vec::new();
            let mut c: usize = 0;
            while c < current.len()
                invariant
                    self.wf(),
                    c <= current@.len(),
                    next@.len() <= c,
                    forall|q: int| 0 <= q < next@.len() ==> self.face_active(#[trigger] next@[q]),
                    forall|q: int| 0 <= q < next@.len() ==> current@.contains(#[trigger] next@[q]),
                decreases current@.len() - c,
            {
                let f = current[c];
                if self.is_active_face(f) {
                    next.push(f);
                    proof {
                        assert(current@.contains(current@[c as int]));
                    }
                }
                c += 1;
            }
            let ghost m_round = *self;
            proof {
                assert forall|q: int| 0 <= q < next@.len() implies faces@.contains(#[trigger] next@[q]) by {
                    let c2 = choose|c2: int| 0 <= c2 < current@.len() && current@[c2] == next@[q];
                    assert(faces@.contains(current@[c2]));
                }
            }
            let mut i: usize = 0;
            while i < next.len()
                invariant
                    self.wf(),
                    i <= next@.len(),
                    next@.len() <= faces@.len(),
                    forall|q: int| 0 <= q < next@.len() ==> faces@.contains(#[trigger] next@[q]),
                    ms.len() == fa.len() + 1,
                    fb.len() == fa.len(),
                    ms[0] == m0,
                    ms[fa.len() as int] == *self,
                    forall|q: int| 0 <= q < fa.len() ==> #[trigger] merge_attempt(ms[q], ms[q + 1], fa[q], fb[q], pairs@),
                    changed ==> fa.len() > att0,
                    fa.len() >= att0,
                    att0 >= iterations - 1,
                    !changed ==> *self == m_round,
                    !changed ==> forall|q: int| 0 <= q < next@.len() ==> self.face_active(#[trigger] next@[q]),
                    !changed ==> forall|a: int, b: int| 0 <= a < i && a < b < next@.len() ==> !pair_listed(
                        pairs@,
                        #[trigger] next@[a],
                        #[trigger] next@[b],
                    ),
                decreases next@.len() - i,
            {
                let f1 = next[i];
                let mut merged = false;
                let mut j: usize = i + 1;
                let ghost changed0 = changed;
                let ghost len0 = next@.len();
                let ghost next0 = next@;
                while j < next.len() && !merged
                    invariant
                        self.wf(),
                        i < next@.len(),
                        i + 1 <= j <= next@.len(),
                        f1 == next@[i as int],
                        next@.len() <= faces@.len(),
                        forall|q: int| 0 <= q < next@.len() ==> faces@.contains(#[trigger] next@[q]),
                        ms.len() == fa.len() + 1,
                        fb.len() == fa.len(),
                        ms[0] == m0,
                        ms[fa.len() as int] == *self,
                        forall|q: int| 0 <= q < fa.len() ==> #[trigger] merge_attempt(ms[q], ms[q + 1], fa[q], fb[q], pairs@),
                        changed ==> fa.len() > att0,
                        fa.len() >= att0,
                        merged ==> changed && next@.len() + 1 == len0,
                        !merged ==> next@.len() == len0 && changed == changed0 && next@ == next0,
                        !changed ==> *self == m_round,
                        !changed ==> forall|q: int| 0 <= q < next@.len() ==> self.face_active(#[trigger] next@[q]),
                        !changed ==> forall|b: int| i < b < j ==> !pair_listed(pairs@, next@[i as int], #[trigger] next@[b]),
                    decreases next@.len() - j + (if merged { 0int } else { 1int }),
                {
                    let f2 = next[j];
                    if self.is_active_face(f1) && self.is_active_face(f2) && listed(pairs, f1, f2) {
                        let ghost before = *self;
                        let keep: Vec<bool> = Vec::new();
                        assert(keep@ =~= Seq::<bool>::empty());
                        let rr = self.merge_via_multi_shared_edges(f1, f2, true, keep.as_slice(), false);
                        proof {
                            assert(merge_done(before, *self, f1, f2, true, Seq::<bool>::empty(), false, rr));
                            assert(merge_attempt(before, *self, f1, f2, pairs@));
                            ms = ms.push(*self);
                            fa = fa.push(f1);
                            fb = fb.push(f2);
                            assert forall|q: int| 0 <= q < fa.len() implies #[trigger] merge_attempt(ms[q], ms[q + 1], fa[q], fb[q], pairs@) by {
                                if q < fa.len() - 1 {
                                    assert(ms[q] == ms.drop_last()[q] && ms[q + 1] == ms.drop_last()[q + 1]);
                                    assert(fa[q] == fa.drop_last()[q] && fb[q] == fb.drop_last()[q]);
                                }
                            }
                        }
                        let ghost nb = next@;
                        next.remove(j);
                        proof {
                            assert forall|q: int| 0 <= q < next@.len() implies faces@.contains(#[trigger] next@[q]) by {
                                if q < j {
                                    assert(next@[q] == nb[q]);
                                } else {
                                    assert(next@[q] == nb[q + 1]);
                                }
                            }
                        }
                        merged = true;
                        changed = true;
                    } else {
                        j += 1;
                    }
                }
                if !merged {
                    i += 1;
                }
            }
            proof {
                if !changed {
                    assert(merge_settled(*self, next@, pairs@));
                }
                assert forall|q: int| 0 <= q < next@.len() implies faces@.contains(#[trigger] next@[q]) by {}
            }
            current = next;
        }
        proof {
            assert forall|q: int| 0 <= q < current@.len() implies faces@.contains(#[trigger] current@[q]) by {}
            assert(coplanar_merged(m0, *self, faces@, pairs@, current@));
        }
        current
    }
}

} // verus!
