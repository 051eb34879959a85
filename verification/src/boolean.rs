//! Boolean operation kinds and results, and the vertex-list helpers of
//! the boolean face split.

use vstd::prelude::*;
use crate::ids::{VertId, FaceId};
use crate::mesh::{Mesh, MeshError, Face, loop_closes, loop_len, loop_error};
use crate::shared_merge::face_removed;
use crate::orient::face_flipped;
use crate::boolean_merge::coplanar_merged;
use crate::text::{dec_text, push_usize};
use vstd::string::StringExecFns;

verus! {

/// Kind of boolean operation.
#[derive(Clone, Copy, Debug, PartialEq, Eq, Structural)]
pub enum BoolOp {
    Union,
    Subtract,
    Intersect,
}

/// Result of a boolean operation.
#[derive(Debug)]
pub struct BooleanResult {
    /// The faces of the result.
    pub faces: Vec<FaceId>,
    /// Vertices created.
    pub new_verts: usize,
    /// Log lines.
    pub debug: Vec<String>,
}

/// `verts` with every vertex equal to the one before it dropped.
pub open spec fn dedup_runs(verts: Seq<VertId>) -> Seq<VertId>
    decreases verts.len(),
{
    if verts.len() == 0 {
        Seq::empty()
    } else if verts.len() == 1 {
        verts
    } else {
        let p = dedup_runs(verts.drop_last());
        if verts.last() == verts[verts.len() - 2] {
            p
        } else {
            p.push(verts.last())
        }
    }
}

/// The closed-loop form: runs of equal vertices collapsed, then a last
/// vertex equal to the first dropped.
pub open spec fn dedup_loop(verts: Seq<VertId>) -> Seq<VertId> {
    let d = dedup_runs(verts);
    if d.len() > 1 && d.last() == d[0] {
        d.drop_last()
    } else {
        d
    }
}

proof fn lemma_dedup_runs_first(verts: Seq<VertId>)
    requires
        verts.len() >= 1,
    ensures
        dedup_runs(verts).len() >= 1,
        dedup_runs(verts)[0] == verts[0],
        dedup_runs(verts).last() == verts.last(),
    decreases verts.len(),
{
    if verts.len() > 1 {
        lemma_dedup_runs_first(verts.drop_last());
    }
}

/// Drops every vertex equal to the one before it, then a last vertex equal
/// to the first.
pub fn dedup_consecutive_verts(verts: &[VertId]) -> (r: Vec<VertId>)
    ensures
        r@ == dedup_loop(verts@),
{
    let n = verts.len();
    if n == 0 {
        return Vec::new();
    }
    let mut result: Vec<VertId> = Vec::new();
    result.push(verts[0]);
    assert(verts@.take(1).drop_last() =~= Seq::<VertId>::empty());
    assert(result@ =~= dedup_runs(verts@.take(1)));
    let mut i: usize = 1;
    while i < n
        invariant
            n == verts@.len(),
            1 <= i <= n,
            result@ == dedup_runs(verts@.take(i as int)),
        decreases n - i,
    {
        let ghost t = verts@.take(i as int + 1);
        assert(t.drop_last() =~= verts@.take(i as int));
        if verts[i] != verts[i - 1] {
            result.push(verts[i]);
        }
        i += 1;
    }
    assert(verts@.take(n as int) =~= verts@);
    proof {
        lemma_dedup_runs_first(verts@);
    }
    let len = result.len();
    if len > 1 && result[len - 1] == result[0] {
        result.pop();
        assert(result@ =~= dedup_runs(verts@).drop_last());
    }
    result
}

/// The pairs `(order[0], order[1]), (order[2], order[3]), ...`; a last
/// unpaired entry is dropped.
pub open spec fn pair_up(order: Seq<usize>) -> Seq<(usize, usize)> {
    Seq::new(order.len() / 2, |k: int| (order[2 * k], order[2 * k + 1]))
}

/// Pairs the intersection points in the given order (their order along
/// the cutting direction): first with second, third with fourth, and so
/// on. Fewer than two points give no pairs.
pub fn pair_intersection_points(order: &[usize]) -> (pairs: Vec<(usize, usize)>)
    ensures
        pairs@ == pair_up(order@),
{
    let n = order.len();
    let mut pairs: Vec<(usize, usize)> = Vec::new();
    if n < 2 {
        assert(pairs@ =~= pair_up(order@));
        return pairs;
    }
    let mut i: usize = 0;
    while i + 1 < n
        invariant
            n == order@.len(),
            i % 2 == 0,
            i <= n,
            pairs@.len() == i / 2,
            forall|k: int| 0 <= k < pairs@.len() ==> #[trigger] pairs@[k] == (order@[2 * k], order@[2 * k + 1]),
        decreases n - i,
    {
        pairs.push((order[i], order[i + 1]));
        i += 2;
    }
    assert(pairs@.len() == n / 2);
    assert(pairs@ =~= pair_up(order@));
    pairs
}

/// Whether `op` keeps a split face of solid A (`side_a`) or of solid B,
/// given whether its centroid lies inside the other solid.
pub open spec fn keeps(op: BoolOp, side_a: bool, inside: bool) -> bool {
    match op {
        BoolOp::Union => !inside,
        BoolOp::Subtract => if side_a {
            !inside
        } else {
            inside
        },
        BoolOp::Intersect => inside,
    }
}

/// Law: the three operations divide each solid's split faces as set
/// algebra does. A union keeps exactly the faces outside the other solid
/// and an intersection exactly the faces inside it, on either side, so the
/// two keep complementary parts; a subtraction keeps what the union keeps
/// of A and what the intersection keeps of B.
pub proof fn law_boolean_keep_rules(side_a: bool, inside: bool)
    ensures
        keeps(BoolOp::Union, side_a, inside) == !inside,
        keeps(BoolOp::Intersect, side_a, inside) == !keeps(BoolOp::Union, side_a, inside),
        keeps(BoolOp::Intersect, true, inside) == keeps(BoolOp::Intersect, false, inside),
        keeps(BoolOp::Subtract, true, inside) == keeps(BoolOp::Union, true, inside),
        keeps(BoolOp::Subtract, false, inside) == keeps(BoolOp::Intersect, false, inside),
{
}

/// Whether `op` keeps a split face of solid A (`side_a`) or of solid B,
/// given whether its centroid lies inside the other solid.
pub fn boolean_keeps(op: BoolOp, side_a: bool, inside: bool) -> (r: bool)
    ensures
        r == keeps(op, side_a, inside),
{
    match op {
        BoolOp::Union => !inside,
        BoolOp::Subtract => if side_a {
            !inside
        } else {
            inside
        },
        BoolOp::Intersect => inside,
    }
}

/// The first `n` split faces that are kept, in order: those active, with a
/// centroid (`inside[i]` is known), and kept by `op`.
pub open spec fn kept_faces(m: Mesh, faces: Seq<FaceId>, inside: Seq<Option<bool>>, op: BoolOp, side_a: bool, n: nat) -> Seq<FaceId>
    decreases n,
{
    if n == 0 {
        Seq::empty()
    } else {
        let p = kept_faces(m, faces, inside, op, side_a, (n - 1) as nat);
        let f = faces[n - 1];
        if m.face_active(f) && (inside[n - 1] matches Some(b) && keeps(op, side_a, b)) {
            p.push(f)
        } else {
            p
        }
    }
}

/// How many times `x` occurs in `s`.
pub open spec fn occurrences(s: Seq<FaceId>, x: FaceId) -> nat
    decreases s.len(),
{
    if s.len() == 0 {
        0
    } else {
        occurrences(s.drop_last(), x) + if s.last() == x {
            1nat
        } else {
            0nat
        }
    }
}

/// Face `g` is among the split faces of a side and not among those kept.
pub open spec fn dropped(split: Seq<FaceId>, kept: Seq<FaceId>, g: FaceId) -> bool {
    split.contains(g) && !kept.contains(g)
}

/// `n - k`, or zero when `k` exceeds `n`.
pub open spec fn sat_sub(n: int, k: int) -> int {
    if n > k {
        n - k
    } else {
        0
    }
}

/// The number of fan triangles of the active faces among the first `k` of
/// `faces` (a face of `n >= 3` boundary vertices gives `n - 2`), or the
/// first refusal: a face not in storage, or an active face whose outer
/// loop does not close.
pub open spec fn solid_tris(m: Mesh, faces: Seq<FaceId>, k: nat) -> Result<nat, MeshError>
    decreases k,
{
    if k == 0 {
        Ok(0)
    } else {
        match solid_tris(m, faces, (k - 1) as nat) {
            Err(e) => Err(e),
            Ok(t) => {
                let f = faces[k - 1];
                let s = m.faces@[f.ix()].outer.start;
                if !m.face_present(f) {
                    Err(MeshError::FaceNotFound(f))
                } else if !m.faces@[f.ix()].active {
                    Ok(t)
                } else if !loop_closes(m.hes@, s) {
                    Err(loop_error(m, s))
                } else {
                    Ok(t + if loop_len(m.hes@, s) >= 3 { (loop_len(m.hes@, s) - 2) as nat } else { 0nat })
                }
            },
        }
    }
}

/// `n`, or the largest `usize` where `n` exceeds it.
pub open spec fn capped(n: nat) -> nat {
    if n > usize::MAX { usize::MAX as nat } else { n }
}

proof fn lemma_solid_err_stays(m: Mesh, faces: Seq<FaceId>, c: nat, d: nat)
    requires
        c <= d,
        solid_tris(m, faces, c) is Err,
    ensures
        solid_tris(m, faces, d) == solid_tris(m, faces, c),
    decreases d - c,
{
    if c < d {
        lemma_solid_err_stays(m, faces, c, (d - 1) as nat);
    }
}

/// `new` is `old` after removing, in order, each face of `split` that
/// `keep` does not hold.
pub open spec fn removals_done(old: Mesh, new: Mesh, split: Seq<FaceId>, keep: Seq<FaceId>) -> bool {
    exists|ms: Seq<Mesh>|
        #![trigger ms.len()]
        ms.len() == split.len() + 1 && ms[0] == old && ms[split.len() as int] == new && forall|i: int|
            0 <= i < split.len() ==> if keep.contains(#[trigger] split[i]) {
                ms[i + 1] == ms[i]
            } else {
                face_removed(ms[i], ms[i + 1], split[i])
            }
}

/// Flipping the faces `fs` in order from `m` reaches one whose outer loop
/// does not close: the flips before it went through, and it cannot be
/// reversed.
pub open spec fn flip_stuck(m: Mesh, fs: Seq<FaceId>) -> bool {
    exists|ms: Seq<Mesh>, j: int|
        #![trigger ms.len(), fs[j]]
        0 <= j < fs.len() && ms.len() == j + 1 && ms[0] == m && (forall|k: int|
            0 <= k < j ==> #[trigger] face_flipped(ms[k], ms[k + 1], fs[k])) && !loop_closes(
            ms[j].hes@,
            ms[j].faces@[fs[j].ix()].outer.start,
        )
}

/// `mid` is `old` after the keep and flip step of a boolean: the kept faces
/// of B flipped when subtracting, then the split faces not kept removed,
/// A's before B's; vertices and edges stay.
pub open spec fn assembled(
    old: Mesh,
    mid: Mesh,
    split_a: Seq<FaceId>,
    inside_a: Seq<Option<bool>>,
    split_b: Seq<FaceId>,
    inside_b: Seq<Option<bool>>,
    op: BoolOp,
) -> bool {
    let ka = kept_faces(old, split_a, inside_a, op, true, split_a.len());
    let kb = kept_faces(old, split_b, inside_b, op, false, split_b.len());
    &&& mid.verts@ == old.verts@
    &&& mid.edges@ == old.edges@
    &&& mid.faces@.len() == old.faces@.len()
    &&& exists|mf: Mesh, ma: Mesh|
        #![trigger removals_done(mf, ma, split_a, ka)]
        flips_done(old, mf, if op == BoolOp::Subtract { kb } else { Seq::empty() }) && removals_done(mf, ma, split_a, ka)
            && removals_done(ma, mid, split_b, kb)
    &&& forall|g: int|
        0 <= g < old.faces@.len() ==> #[trigger] mid.faces@[g] == (Face {
            present: old.faces@[g].present && !dropped(split_a, ka, FaceId { id: g as u32 }) && !dropped(
                split_b,
                kb,
                FaceId { id: g as u32 },
            ),
            normal_flipped: old.faces@[g].normal_flipped != (op == BoolOp::Subtract && occurrences(kb, FaceId { id: g as u32 }) % 2
                == 1),
            ..old.faces@[g]
        })
}

/// The log line of the coplanar merge.
pub open spec fn merging_line(n: nat, m: nat) -> Seq<char> {
    "Face merging: "@ + dec_text(n) + " → "@ + dec_text(m) + " (merged "@ + dec_text(sat_sub(n as int, m as int) as nat)
        + " coplanar faces)"@
}

/// `new` is `old` after flipping each face of `fs` in order.
pub open spec fn flips_done(old: Mesh, new: Mesh, fs: Seq<FaceId>) -> bool {
    exists|ms: Seq<Mesh>|
        #![trigger ms.len()]
        ms.len() == fs.len() + 1 && ms[0] == old && ms[fs.len() as int] == new && forall|i: int|
            0 <= i < fs.len() ==> #[trigger] face_flipped(ms[i], ms[i + 1], fs[i])
}

/// The log line of the two solids.
pub open spec fn solids_line(fa: nat, ta: nat, fb: nat, tb: nat) -> Seq<char> {
    "Solid A: "@ + dec_text(fa) + " faces, "@ + dec_text(ta) + " tris | Solid B: "@ + dec_text(fb) + " faces, "@
        + dec_text(tb) + " tris"@
}

/// The log line of the intersections, all coplanar.
pub open spec fn intersections_line(n: nat) -> Seq<char> {
    "Intersections found: "@ + dec_text(n) + " (including "@ + dec_text(n) + " coplanar)"@
}

/// The log line of the face splits.
pub open spec fn splits_line(fa: nat, sa: nat, fb: nat, sb: nat) -> Seq<char> {
    "Face splits: A +"@ + dec_text(sat_sub(sa as int, fa as int) as nat) + " ("@ + dec_text(fa) + "→"@ + dec_text(sa)
        + "), B +"@ + dec_text(sat_sub(sb as int, fb as int) as nat) + " ("@ + dec_text(fb) + "→"@ + dec_text(sb) + ")"@
}

/// The log line of the kept faces.
pub open spec fn keep_line(ka: nat, kb: nat) -> Seq<char> {
    "Keep: A="@ + dec_text(ka) + " faces, B="@ + dec_text(kb) + " faces"@
}

/// The log line of the removed faces and new vertices.
pub open spec fn removed_line(ra: nat, rb: nat, nv: nat) -> Seq<char> {
    "Removed: "@ + dec_text(ra) + " A-faces, "@ + dec_text(rb) + " B-faces | New verts: ~"@ + dec_text(nv)
}

/// The log line of the two solids.
fn solids_text(fa: usize, ta: usize, fb: usize, tb: usize) -> (s: String)
    ensures
        s@ == solids_line(fa as nat, ta as nat, fb as nat, tb as nat),
{
    let mut s = String::from_str("Solid A: ");
    push_usize(&mut s, fa);
    s.append(" faces, ");
    push_usize(&mut s, ta);
    s.append(" tris | Solid B: ");
    push_usize(&mut s, fb);
    s.append(" faces, ");
    push_usize(&mut s, tb);
    s.append(" tris");
    s
}

/// The log line of the intersections.
fn intersections_text(n: usize) -> (s: String)
    ensures
        s@ == intersections_line(n as nat),
{
    let mut s = String::from_str("Intersections found: ");
    push_usize(&mut s, n);
    s.append(" (including ");
    push_usize(&mut s, n);
    s.append(" coplanar)");
    s
}

/// The log line of the face splits.
fn splits_text(fa: usize, sa: usize, fb: usize, sb: usize) -> (s: String)
    ensures
        s@ == splits_line(fa as nat, sa as nat, fb as nat, sb as nat),
{
    let mut s = String::from_str("Face splits: A +");
    push_usize(&mut s, if sa > fa { sa - fa } else { 0 });
    s.append(" (");
    push_usize(&mut s, fa);
    s.append("→");
    push_usize(&mut s, sa);
    s.append("), B +");
    push_usize(&mut s, if sb > fb { sb - fb } else { 0 });
    s.append(" (");
    push_usize(&mut s, fb);
    s.append("→");
    push_usize(&mut s, sb);
    s.append(")");
    s
}

/// The log line of the kept faces.
fn keep_text(ka: usize, kb: usize) -> (s: String)
    ensures
        s@ == keep_line(ka as nat, kb as nat),
{
    let mut s = String::from_str("Keep: A=");
    push_usize(&mut s, ka);
    s.append(" faces, B=");
    push_usize(&mut s, kb);
    s.append(" faces");
    s
}

/// The log line of the coplanar merge.
fn merging_text(n: usize, m: usize) -> (s: String)
    ensures
        s@ == merging_line(n as nat, m as nat),
{
    let mut s = String::from_str("Face merging: ");
    push_usize(&mut s, n);
    s.append(" → ");
    push_usize(&mut s, m);
    s.append(" (merged ");
    push_usize(&mut s, if n > m { n - m } else { 0 });
    s.append(" coplanar faces)");
    s
}

/// The log line of the removals.
fn removed_text(ra: usize, rb: usize, nv: usize) -> (s: String)
    ensures
        s@ == removed_line(ra as nat, rb as nat, nv as nat),
{
    let mut s = String::from_str("Removed: ");
    push_usize(&mut s, ra);
    s.append(" A-faces, ");
    push_usize(&mut s, rb);
    s.append(" B-faces | New verts: ~");
    push_usize(&mut s, nv);
    s
}

/// No more faces are kept than were split.
pub proof fn lemma_kept_len(m: Mesh, faces: Seq<FaceId>, inside: Seq<Option<bool>>, op: BoolOp, side_a: bool, n: nat)
    ensures
        kept_faces(m, faces, inside, op, side_a, n).len() <= n,
    decreases n,
{
    if n > 0 {
        lemma_kept_len(m, faces, inside, op, side_a, (n - 1) as nat);
    }
}

/// Whether `f` is in `v`.
fn face_in(v: &Vec<FaceId>, f: FaceId) -> (b: bool)
    ensures
        b == v@.contains(f),
{
    let n = v.len();
    let mut i: usize = 0;
    while i < n
        invariant
            n == v@.len(),
            i <= n,
            forall|j: int| 0 <= j < i ==> v@[j] != f,
        decreases n - i,
    {
        if v[i] == f {
            return true;
        }
        i += 1;
    }
    false
}

impl Mesh {
    /// The kept split faces of each side (see `kept_faces`).
    /// `inside_a[i]` tells whether the centroid of `faces_a[i]` lies inside
    /// solid B (unknown when the face has no centroid), and `inside_b`
    /// likewise for solid B's faces against solid A.
    pub fn classify_split_faces(
        &self,
        faces_a: &[FaceId],
        inside_a: &[Option<bool>],
        faces_b: &[FaceId],
        inside_b: &[Option<bool>],
        op: BoolOp,
    ) -> (r: (Vec<FaceId>, Vec<FaceId>))
        requires
            self.wf(),
            inside_a@.len() == faces_a@.len(),
            inside_b@.len() == faces_b@.len(),
        ensures
            r.0@ == kept_faces(*self, faces_a@, inside_a@, op, true, faces_a@.len()),
            r.1@ == kept_faces(*self, faces_b@, inside_b@, op, false, faces_b@.len()),
    {
        let keep_a = self.keep_side(faces_a, inside_a, op, true);
        let keep_b = self.keep_side(faces_b, inside_b, op, false);
        (keep_a, keep_b)
    }

    fn keep_side(&self, faces: &[FaceId], inside: &[Option<bool>], op: BoolOp, side_a: bool) -> (r: Vec<FaceId>)
        requires
            self.wf(),
            inside@.len() == faces@.len(),
        ensures
            r@ == kept_faces(*self, faces@, inside@, op, side_a, faces@.len()),
    {
        let n = faces.len();
        let mut keep: Vec<FaceId> = Vec::new();
        let mut i: usize = 0;
        while i < n
            invariant
                n == faces@.len(),
                inside@.len() == n,
                i <= n,
                keep@ == kept_faces(*self, faces@, inside@, op, side_a, i as nat),
            decreases n - i,
        {
            let f = faces[i];
            if (f.id as usize) < self.faces.len() && self.faces[f.id as usize].present && self.faces[f.id as usize].active {
                match inside[i] {
                    Some(b) => {
                        if boolean_keeps(op, side_a, b) {
                            keep.push(f);
                        }
                    },
                    None => {},
                }
            }
            i += 1;
        }
        keep
    }

    /// The fan-triangle count of the active faces of a solid (see
    /// `solid_tris`), refusing a face not in storage or an active face whose
    /// outer loop does not close; the count is capped at the largest
    /// `usize`.
    pub fn solid_triangles(&self, faces: &[FaceId]) -> (r: Result<usize, MeshError>)
        requires
            self.wf(),
        ensures
            match r {
                Ok(t) => solid_tris(*self, faces@, faces@.len()) matches Ok(x) && t == capped(x),
                Err(e) => solid_tris(*self, faces@, faces@.len()) == Err::<nat, MeshError>(e),
            },
    {
        let n = faces.len();
        let mut t: usize = 0;
        let mut i: usize = 0;
        while i < n
            invariant
                self.wf(),
                n == faces@.len(),
                i <= n,
                solid_tris(*self, faces@, i as nat) matches Ok(x) && t == capped(x),
            decreases n - i,
        {
            let f = faces[i];
            if f.id as usize >= self.faces.len() || !self.faces[f.id as usize].present {
                proof { lemma_solid_err_stays(*self, faces@, (i + 1) as nat, n as nat); }
                return Err(MeshError::FaceNotFound(f));
            }
            if self.faces[f.id as usize].active {
                let st = self.faces[f.id as usize].outer.start;
                let vs = match self.collect_loop_verts(st) {
                    Ok(v) => v,
                    Err(e) => {
                        proof { lemma_solid_err_stays(*self, faces@, (i + 1) as nat, n as nat); }
                        return Err(e);
                    },
                };
                if vs.len() >= 3 {
                    let add = vs.len() - 2;
                    t = if t > usize::MAX - add { usize::MAX } else { t + add };
                }
            }
            i += 1;
        }
        Ok(t)
    }

    /// Assembles the result of a boolean of the solids `faces_a` and
    /// `faces_b` (`op`), whose faces were split into `split_a` and
    /// `split_b` along `intersections` coplanar intersection segments.
    /// Both solids are checked first (see `solid_triangles`): a face not in
    /// storage, or an active face whose outer loop does not close, is
    /// refused with the mesh unchanged. Then the split faces are classified
    /// (`inside_a[i]` tells whether the centroid of `split_a[i]` lies inside
    /// solid B, unknown when it has none; `inside_b` likewise against
    /// solid A): the kept faces of A, then those of B, flipped when
    /// subtracting (see `flip_face`); the other split faces are removed (see
    /// `remove_face`). Last, coplanar neighbours among the kept faces are
    /// merged (see `merge_coplanar_result_faces`; `coplanar` lists the pairs
    /// of split faces that lie on one plane). The log records the solids,
    /// the intersections, the splits, the kept faces, the merge and the
    /// removals.
    pub fn boolean(
        &mut self,
        faces_a: &[FaceId],
        faces_b: &[FaceId],
        intersections: usize,
        split_a: &[FaceId],
        inside_a: &[Option<bool>],
        split_b: &[FaceId],
        inside_b: &[Option<bool>],
        coplanar: &[(FaceId, FaceId)],
        op: BoolOp,
    ) -> (r: Result<BooleanResult, MeshError>)
        requires
            old(self).wf(),
            inside_a@.len() == split_a@.len(),
            inside_b@.len() == split_b@.len(),
            split_a@.len() + split_b@.len() <= usize::MAX,
        ensures
            final(self).wf(),
            r is Err ==> final(self).verts@ == old(self).verts@ && final(self).edges@ == old(self).edges@
                && final(self).faces@.len() == old(self).faces@.len(),
            solid_tris(*old(self), faces_a@, faces_a@.len()) matches Err(e) ==> r == Err::<BooleanResult, MeshError>(e)
                && *final(self) == *old(self),
            solid_tris(*old(self), faces_a@, faces_a@.len()) is Ok ==> (solid_tris(*old(self), faces_b@, faces_b@.len()) matches Err(e)
                ==> r == Err::<BooleanResult, MeshError>(e) && *final(self) == *old(self)),
            r is Err ==> solid_tris(*old(self), faces_a@, faces_a@.len()) is Err || solid_tris(*old(self), faces_b@, faces_b@.len()) is Err
                || (op == BoolOp::Subtract && flip_stuck(
                *old(self),
                kept_faces(*old(self), split_b@, inside_b@, op, false, split_b@.len()),
            )),
            ({
                let ka = kept_faces(*old(self), split_a@, inside_a@, op, true, split_a@.len());
                let kb = kept_faces(*old(self), split_b@, inside_b@, op, false, split_b@.len());
                let nva = sat_sub(split_a@.len() as int, faces_a@.len() as int);
                let nvb = sat_sub(split_b@.len() as int, faces_b@.len() as int);
                r matches Ok(res) ==> {
                    &&& solid_tris(*old(self), faces_a@, faces_a@.len()) is Ok
                    &&& solid_tris(*old(self), faces_b@, faces_b@.len()) is Ok
                    &&& res.new_verts == nva + nvb
                    &&& res.debug@.len() == 6
                    &&& res.debug@[0]@ == solids_line(
                        faces_a@.len() as nat,
                        capped(solid_tris(*old(self), faces_a@, faces_a@.len())->Ok_0),
                        faces_b@.len() as nat,
                        capped(solid_tris(*old(self), faces_b@, faces_b@.len())->Ok_0),
                    )
                    &&& res.debug@[1]@ == intersections_line(intersections as nat)
                    &&& res.debug@[2]@ == splits_line(faces_a@.len() as nat, split_a@.len() as nat, faces_b@.len() as nat, split_b@.len() as nat)
                    &&& res.debug@[3]@ == keep_line(ka.len(), kb.len())
                    &&& res.debug@[4]@ == merging_line((ka + kb).len(), res.faces@.len())
                    &&& res.debug@[5]@ == removed_line(
                        sat_sub(split_a@.len() as int, ka.len() as int) as nat,
                        sat_sub(split_b@.len() as int, kb.len() as int) as nat,
                        (nva + nvb) as nat,
                    )
                    &&& exists|mid: Mesh|
                        #![trigger assembled(*old(self), mid, split_a@, inside_a@, split_b@, inside_b@, op)]
                        assembled(*old(self), mid, split_a@, inside_a@, split_b@, inside_b@, op) && coplanar_merged(
                            mid,
                            *final(self),
                            ka + kb,
                            coplanar@,
                            res.faces@,
                        )
                }
            }),
    {
        let tris_a = self.solid_triangles(faces_a)?;
        let tris_b = self.solid_triangles(faces_b)?;
        let n_faces_a = faces_a.len();
        let n_faces_b = faces_b.len();
        let ghost m0 = *self;
        let (keep_a, keep_b) = self.classify_split_faces(split_a, inside_a, split_b, inside_b, op);
        proof {
            lemma_kept_active(m0, split_b@, inside_b@, op, false, split_b@.len());
        }
        let nb = keep_b.len();
        let mut j: usize = 0;
        let ghost mut fms: Seq<Mesh> = seq![m0];
        if op == BoolOp::Subtract {
            while j < nb
                invariant
                    self.wf(),
                    m0.wf(),
                    m0 == *old(self),
                    solid_tris(m0, faces_a@, faces_a@.len()) is Ok,
                    solid_tris(m0, faces_b@, faces_b@.len()) is Ok,
                    fms.len() == j + 1,
                    fms[0] == m0,
                    keep_b@ == kept_faces(m0, split_b@, inside_b@, op, false, split_b@.len()),
                    fms[j as int] == *self,
                    forall|k: int| 0 <= k < j ==> #[trigger] face_flipped(fms[k], fms[k + 1], keep_b@[k]),
                    op == BoolOp::Subtract,
                    nb == keep_b@.len(),
                    j <= nb,
                    forall|q: int| 0 <= q < nb ==> m0.face_active(#[trigger] keep_b@[q]),
                    self.verts@ == m0.verts@,
                    self.edges@ == m0.edges@,
                    self.faces@.len() == m0.faces@.len(),
                    forall|g: int|
                        0 <= g < m0.faces@.len() ==> #[trigger] self.faces@[g] == (Face {
                            normal_flipped: m0.faces@[g].normal_flipped != (occurrences(keep_b@.take(j as int), FaceId { id: g as u32 }) % 2 == 1),
                            ..m0.faces@[g]
                        }),
                decreases nb - j,
            {
                let f = keep_b[j];
                let ghost fb = self.faces@;
                let ghost mb = *self;
                proof {
                    assert(m0.face_active(keep_b@[j as int]));
                    assert(FaceId { id: f.ix() as u32 } == f);
                    assert(self.faces@[f.ix()].present);
                }
                let fr = self.flip_face(f);
                proof {
                    let t = keep_b@.take(j as int);
                    let t1 = keep_b@.take(j + 1);
                    assert(t1.drop_last() =~= t);
                    assert forall|g: int| 0 <= g < m0.faces@.len() implies #[trigger] self.faces@[g] == (Face {
                        normal_flipped: m0.faces@[g].normal_flipped != (occurrences(t1, FaceId { id: g as u32 }) % 2 == 1),
                        ..m0.faces@[g]
                    }) by {
                        if g == f.ix() {
                            assert(FaceId { id: g as u32 } == f);
                            assert(fb[g] == (Face {
                                normal_flipped: m0.faces@[g].normal_flipped != (occurrences(t, f) % 2 == 1),
                                ..m0.faces@[g]
                            }));
                        } else {
                            assert(FaceId { id: g as u32 } != f);
                        }
                    }
                }
                match fr {
                    Ok(()) => {},
                    Err(x) => {
                        proof {
                            assert(fms.len() == j + 1 && fms[0] == m0 && fms[j as int] == mb);
                            assert(!loop_closes(mb.hes@, mb.faces@[keep_b@[j as int].ix()].outer.start));
                            assert(flip_stuck(m0, keep_b@));
                        }
                        return Err(x);
                    },
                }
                proof {
                    assert(face_flipped(mb, *self, f));
                    fms = fms.push(*self);
                    assert forall|k: int| 0 <= k < j + 1 implies #[trigger] face_flipped(fms[k], fms[k + 1], keep_b@[k]) by {
                        if k < j {
                            assert(fms[k] == fms.drop_last()[k] && fms[k + 1] == fms.drop_last()[k + 1]);
                        }
                    }
                }
                j += 1;
            }
        }
        proof {
            let fs = if op == BoolOp::Subtract { keep_b@ } else { Seq::<FaceId>::empty() };
            assert(fms.len() == fs.len() + 1);
            assert(flips_done(m0, *self, fs));
        }
        proof {
            if op == BoolOp::Subtract {
                assert(keep_b@.take(nb as int) =~= keep_b@);
            } else {
                assert forall|g: int| 0 <= g < m0.faces@.len() implies #[trigger] self.faces@[g] == (Face {
                    normal_flipped: m0.faces@[g].normal_flipped != (op == BoolOp::Subtract && occurrences(keep_b@, FaceId { id: g as u32 }) % 2 == 1),
                    ..m0.faces@[g]
                }) by {}
            }
        }
        let ghost mf = *self;
        self.remove_dropped(split_a, &keep_a);
        let ghost ma = *self;
        self.remove_dropped(split_b, &keep_b);
        let mut faces: Vec<FaceId> = Vec::new();
        let na = keep_a.len();
        let mut i: usize = 0;
        while i < na
            invariant
                na == keep_a@.len(),
                i <= na,
                faces@ == keep_a@.take(i as int),
            decreases na - i,
        {
            faces.push(keep_a[i]);
            i += 1;
        }
        let mut i: usize = 0;
        while i < nb
            invariant
                na == keep_a@.len(),
                nb == keep_b@.len(),
                i <= nb,
                faces@ == keep_a@ + keep_b@.take(i as int),
            decreases nb - i,
        {
            faces.push(keep_b[i]);
            i += 1;
        }
        assert(keep_a@.take(na as int) =~= keep_a@);
        assert(keep_b@.take(nb as int) =~= keep_b@);
        let new_a = if split_a.len() > n_faces_a { split_a.len() - n_faces_a } else { 0 };
        let new_b = if split_b.len() > n_faces_b { split_b.len() - n_faces_b } else { 0 };
        let mut debug: Vec<String> = Vec::new();
        debug.push(solids_text(n_faces_a, tris_a, n_faces_b, tris_b));
        debug.push(intersections_text(intersections));
        debug.push(splits_text(n_faces_a, split_a.len(), n_faces_b, split_b.len()));
        debug.push(keep_text(keep_a.len(), keep_b.len()));
        proof {
            lemma_kept_len(m0, split_a@, inside_a@, op, true, split_a@.len());
            lemma_kept_len(m0, split_b@, inside_b@, op, false, split_b@.len());
        }
        let ghost mid = *self;
        let ghost all = faces@;
        let merged = self.merge_coplanar_result_faces(faces.as_slice(), coplanar);
        debug.push(merging_text(faces.len(), merged.len()));
        debug.push(removed_text(split_a.len() - keep_a.len(), split_b.len() - keep_b.len(), new_a + new_b));
        let res = BooleanResult { faces: merged, new_verts: new_a + new_b, debug };
        proof {
            assert(all == keep_a@ + keep_b@);
            assert(coplanar_merged(mid, *self, all, coplanar@, res.faces@));
            assert(flips_done(*old(self), mf, if op == BoolOp::Subtract { keep_b@ } else { Seq::empty() }));
            assert(removals_done(mf, ma, split_a@, keep_a@));
            assert(removals_done(ma, mid, split_b@, keep_b@));
            assert forall|g: int| 0 <= g < m0.faces@.len() implies #[trigger] mid.faces@[g] == (Face {
                present: m0.faces@[g].present && !dropped(split_a@, keep_a@, FaceId { id: g as u32 })
                    && !dropped(split_b@, keep_b@, FaceId { id: g as u32 }),
                normal_flipped: m0.faces@[g].normal_flipped != (op == BoolOp::Subtract
                    && occurrences(keep_b@, FaceId { id: g as u32 }) % 2 == 1),
                ..m0.faces@[g]
            }) by {
                assert(ma.faces@[g] == (Face {
                    present: mf.faces@[g].present && !dropped(split_a@, keep_a@, FaceId { id: g as u32 }),
                    ..mf.faces@[g]
                }));
            }
            assert(assembled(*old(self), mid, split_a@, inside_a@, split_b@, inside_b@, op));
        }
        Ok(res)
    }

    /// Removes each face of `split` not in `keep`; faces already gone are
    /// skipped.
    fn remove_dropped(&mut self, split: &[FaceId], keep: &Vec<FaceId>)
        requires
            old(self).wf(),
        ensures
            final(self).wf(),
            final(self).verts@ == old(self).verts@,
            final(self).edges@ == old(self).edges@,
            final(self).faces@.len() == old(self).faces@.len(),
            forall|g: int|
                0 <= g < old(self).faces@.len() ==> #[trigger] final(self).faces@[g] == (Face {
                    present: old(self).faces@[g].present && !dropped(split@, keep@, FaceId { id: g as u32 }),
                    ..old(self).faces@[g]
                }),
            removals_done(*old(self), *final(self), split@, keep@),
    {
        let ghost m0 = *self;
        let ghost mut ms: Seq<Mesh> = seq![*self];
        let n = split.len();
        let mut i: usize = 0;
        while i < n
            invariant
                self.wf(),
                n == split@.len(),
                i <= n,
                self.verts@ == m0.verts@,
                self.edges@ == m0.edges@,
                self.faces@.len() == m0.faces@.len(),
                forall|g: int|
                    0 <= g < m0.faces@.len() ==> #[trigger] self.faces@[g] == (Face {
                        present: m0.faces@[g].present && !dropped(split@.take(i as int), keep@, FaceId { id: g as u32 }),
                        ..m0.faces@[g]
                    }),
                ms.len() == i + 1,
                ms[0] == m0,
                ms[i as int] == *self,
                forall|k: int| 0 <= k < i ==> if keep@.contains(#[trigger] split@[k]) {
                    ms[k + 1] == ms[k]
                } else {
                    face_removed(ms[k], ms[k + 1], split@[k])
                },
            decreases n - i,
        {
            let f = split[i];
            let ghost fb = self.faces@;
            let ghost mb = *self;
            if !face_in(keep, f) {
                let _ = self.remove_face(f);
                assert(face_removed(mb, *self, f));
            }
            proof {
                ms = ms.push(*self);
                assert forall|k: int| 0 <= k < i + 1 implies if keep@.contains(#[trigger] split@[k]) {
                    ms[k + 1] == ms[k]
                } else {
                    face_removed(ms[k], ms[k + 1], split@[k])
                } by {
                    if k < i {
                        assert(ms[k] == ms.drop_last()[k] && ms[k + 1] == ms.drop_last()[k + 1]);
                    }
                }
                let t = split@.take(i as int);
                let t1 = split@.take(i + 1);
                assert(t1 =~= t.push(f));
                assert forall|g: int| 0 <= g < m0.faces@.len() implies #[trigger] self.faces@[g] == (Face {
                    present: m0.faces@[g].present && !dropped(t1, keep@, FaceId { id: g as u32 }),
                    ..m0.faces@[g]
                }) by {
                    let x = FaceId { id: g as u32 };
                    if t1.contains(x) && x != f {
                        let q = choose|q: int| 0 <= q < t1.len() && t1[q] == x;
                        assert(t[q] == x);
                    }
                    if t.contains(x) {
                        let q = choose|q: int| 0 <= q < t.len() && t[q] == x;
                        assert(t1[q] == x);
                    }
                    if x == f {
                        assert(t1[i as int] == x);
                        assert(FaceId { id: f.ix() as u32 } == f);
                    }
                }
            }
            i += 1;
        }
        assert(split@.take(n as int) =~= split@);
        assert(removals_done(m0, *self, split@, keep@));
    }
}

/// Every kept face was active.
pub proof fn lemma_kept_active(m: Mesh, faces: Seq<FaceId>, inside: Seq<Option<bool>>, op: BoolOp, side_a: bool, n: nat)
    ensures
        forall|q: int|
            0 <= q < kept_faces(m, faces, inside, op, side_a, n).len() ==> m.face_active(
                #[trigger] kept_faces(m, faces, inside, op, side_a, n)[q],
            ),
    decreases n,
{
    if n > 0 {
        lemma_kept_active(m, faces, inside, op, side_a, (n - 1) as nat);
        let p = kept_faces(m, faces, inside, op, side_a, (n - 1) as nat);
        let k = kept_faces(m, faces, inside, op, side_a, n);
        assert forall|q: int| 0 <= q < k.len() implies m.face_active(#[trigger] k[q]) by {
            if q < p.len() {
                assert(k[q] == p[q]);
            }
        }
    }
}

} // verus!
