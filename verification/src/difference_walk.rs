//! The vertex order of a base polygon with a lens cut out of it.
//!
//! A convex base polygon overlaps a convex lens, crossing its boundary at
//! two points. The difference `base \ lens` is walked along the base from
//! a base vertex outside the lens: at the first crossing the walk enters
//! the lens, follows the lens boundary backwards to the second crossing,
//! and goes on along the base. Which base vertices lie outside the lens,
//! how two crossings on one edge are ordered, and which lens vertex each
//! crossing is, are decided on coordinates by the caller; this module
//! builds the walk from those decisions.

use vstd::prelude::*;
use vstd::string::StringExecFns;
use crate::text::{dec_text, push_usize};

verus! {

/// A vertex of the difference polygon.
#[derive(Clone, Copy, Debug, PartialEq, Eq, Structural)]
pub enum WalkVertex {
    /// The base vertex with this index.
    Base(usize),
    /// The crossing with this index in the input.
    Crossing(usize),
    /// The lens vertex with this index.
    Lens(usize),
}

/// Why the difference cannot be walked.
#[derive(Clone, Copy, Debug, PartialEq, Eq, Structural)]
pub enum WalkError {
    /// There must be exactly two crossings; the count is given.
    CrossingCount(usize),
    BaseTooSmall,
    LensTooSmall,
    /// A crossing names a base edge past the last one.
    EdgeOutOfRange(usize),
    /// No base vertex lies outside the lens: the lens contains the base
    /// rather than overlapping it.
    NoOutsideVertex,
    /// The crossing with this index is not a vertex of the lens.
    CrossingNotOnLens(usize),
}

/// The message of a walk error on a base polygon of `n_base` vertices.
pub open spec fn walk_error_text(e: WalkError, n_base: nat) -> Seq<char> {
    match e {
        WalkError::CrossingCount(n) => "polygon_difference_walking: requires exactly 2 crossings, got "@ + dec_text(n as nat),
        WalkError::BaseTooSmall => "polygon_difference_walking: base polygon has fewer than 3 vertices"@,
        WalkError::LensTooSmall => "polygon_difference_walking: lens has fewer than 3 vertices"@,
        WalkError::EdgeOutOfRange(k) => "polygon_difference_walking: crossing edge_index "@ + dec_text(k as nat)
            + " out of range (n_base="@ + dec_text(n_base) + ")"@,
        WalkError::NoOutsideVertex =>
            "polygon_difference_walking: no base vertex outside lens — input may be containment rather than partial overlap"@,
        WalkError::CrossingNotOnLens(_) => "polygon_difference_walking: crossing point not found in lens"@,
    }
}

impl WalkError {
    /// The message of the error, on a base polygon of `n_base` vertices.
    pub fn message(&self, n_base: usize) -> (s: String)
        ensures
            s@ == walk_error_text(*self, n_base as nat),
    {
        match self {
            WalkError::CrossingCount(n) => {
                let mut s = String::from_str("polygon_difference_walking: requires exactly 2 crossings, got ");
                push_usize(&mut s, *n);
                s
            },
            WalkError::BaseTooSmall => String::from_str("polygon_difference_walking: base polygon has fewer than 3 vertices"),
            WalkError::LensTooSmall => String::from_str("polygon_difference_walking: lens has fewer than 3 vertices"),
            WalkError::EdgeOutOfRange(k) => {
                let mut s = String::from_str("polygon_difference_walking: crossing edge_index ");
                push_usize(&mut s, *k);
                s.append(" out of range (n_base=");
                push_usize(&mut s, n_base);
                s.append(")");
                s
            },
            WalkError::NoOutsideVertex => String::from_str(
                "polygon_difference_walking: no base vertex outside lens — input may be containment rather than partial overlap",
            ),
            WalkError::CrossingNotOnLens(_) => String::from_str("polygon_difference_walking: crossing point not found in lens"),
        }
    }
}

/// Base vertices `lo..hi`.
pub open spec fn base_run(lo: int, hi: int) -> Seq<WalkVertex> {
    Seq::new((hi - lo) as nat, |i: int| WalkVertex::Base((lo + i) as usize))
}

/// The crossing met first along the base, then the other: by edge, and
/// on one edge the first given unless `rev`.
pub open spec fn crossing_order(edges: Seq<usize>, rev: bool) -> (usize, usize) {
    if edges[0] < edges[1] || (edges[0] == edges[1] && !rev) {
        (0, 1)
    } else {
        (1, 0)
    }
}

/// The base vertices of an `n`-gon in order, each crossing placed after
/// the first vertex of its edge.
pub open spec fn base_walk(n: nat, edges: Seq<usize>, rev: bool) -> Seq<WalkVertex> {
    let (a, b) = crossing_order(edges, rev);
    let ea = edges[a as int] as int;
    let eb = edges[b as int] as int;
    base_run(0, ea + 1) + seq![WalkVertex::Crossing(a)] + base_run(ea + 1, eb + 1) + seq![WalkVertex::Crossing(b)]
        + base_run(eb + 1, n as int)
}

/// `v` is a base vertex flagged as outside the lens.
pub open spec fn outside_base(v: WalkVertex, outside: Seq<bool>) -> bool {
    match v {
        WalkVertex::Base(i) => i < outside.len() && outside[i as int],
        _ => false,
    }
}

/// The first position from `i` on whose vertex is a base vertex outside
/// the lens, or the length of `w`.
pub open spec fn first_outside(w: Seq<WalkVertex>, outside: Seq<bool>, i: nat) -> nat
    decreases w.len() - i,
{
    if i >= w.len() {
        w.len()
    } else if outside_base(w[i as int], outside) {
        i
    } else {
        first_outside(w, outside, i + 1)
    }
}

/// The first position from `i` on whose vertex is a crossing, or the
/// length of `w`.
pub open spec fn first_crossing(w: Seq<WalkVertex>, i: nat) -> nat
    decreases w.len() - i,
{
    if i >= w.len() {
        w.len()
    } else if w[i as int] is Crossing {
        i
    } else {
        first_crossing(w, i + 1)
    }
}

/// `w` started at position `s`.
pub open spec fn rotated(w: Seq<WalkVertex>, s: int) -> Seq<WalkVertex> {
    w.skip(s) + w.take(s)
}

/// The crossing index of a crossing vertex.
pub open spec fn crossing_of(v: WalkVertex) -> usize {
    match v {
        WalkVertex::Crossing(c) => c,
        _ => 0,
    }
}

/// The lens vertex of crossing `c`, where it has one among the `l` lens
/// vertices.
pub open spec fn lens_of(lens_at: Seq<Option<usize>>, l: nat, c: usize) -> Option<usize> {
    if c < lens_at.len() && lens_at[c as int] is Some && lens_at[c as int]->0 < l {
        lens_at[c as int]
    } else {
        None
    }
}

/// The lens vertices strictly between `from` and `to`, walking the lens of
/// `l` vertices backwards from `from`.
pub open spec fn lens_arc(from: int, to: int, l: int) -> Seq<WalkVertex> {
    let cnt = if from > to { from - to - 1 } else { from + l - to - 1 };
    Seq::new(cnt as nat, |k: int| WalkVertex::Lens((if k < from { from - 1 - k } else { from - 1 - k + l }) as usize))
}

/// The walk of the difference, or why there is none (see the module
/// documentation): `edges[c]` is the base edge of crossing `c`, `rev` puts
/// the second crossing first where both lie on one edge, `outside[i]`
/// tells whether base vertex `i` lies outside the lens, and `lens_at[c]` is
/// the lens vertex at crossing `c`.
pub open spec fn difference_walk_of(
    base_len: nat,
    lens_len: nat,
    edges: Seq<usize>,
    rev: bool,
    outside: Seq<bool>,
    lens_at: Seq<Option<usize>>,
) -> Result<Seq<WalkVertex>, WalkError> {
    if edges.len() != 2 {
        Err(WalkError::CrossingCount(edges.len() as usize))
    } else if base_len < 3 {
        Err(WalkError::BaseTooSmall)
    } else if lens_len < 3 {
        Err(WalkError::LensTooSmall)
    } else if edges[0] >= base_len {
        Err(WalkError::EdgeOutOfRange(edges[0]))
    } else if edges[1] >= base_len {
        Err(WalkError::EdgeOutOfRange(edges[1]))
    } else {
        let w = base_walk(base_len, edges, rev);
        let s = first_outside(w, outside, 0);
        if s >= w.len() {
            Err(WalkError::NoOutsideVertex)
        } else {
            let r = rotated(w, s as int);
            let p1 = first_crossing(r, 0);
            let p2 = first_crossing(r, p1 + 1);
            let c1 = crossing_of(r[p1 as int]);
            let c2 = crossing_of(r[p2 as int]);
            match lens_of(lens_at, lens_len, c1) {
                None => Err(WalkError::CrossingNotOnLens(c1)),
                Some(i) => match lens_of(lens_at, lens_len, c2) {
                    None => Err(WalkError::CrossingNotOnLens(c2)),
                    Some(j) => Ok(r.take((p1 + 1) as int) + lens_arc(i as int, j as int, lens_len as int) + r.skip(p2 as int)),
                },
            }
        }
    }
}

/// `first_crossing` finds a crossing, and none before it.
proof fn lemma_first_crossing(w: Seq<WalkVertex>, i: nat)
    ensures
        i <= first_crossing(w, i) <= w.len() || (i > w.len() && first_crossing(w, i) == w.len()),
        first_crossing(w, i) < w.len() ==> w[first_crossing(w, i) as int] is Crossing,
        forall|j: int| i <= j < first_crossing(w, i) ==> !(#[trigger] w[j] is Crossing),
    decreases w.len() - i,
{
    if i < w.len() && !(w[i as int] is Crossing) {
        lemma_first_crossing(w, i + 1);
    }
}

/// `first_outside` finds a base vertex outside the lens, and none before
/// it.
proof fn lemma_first_outside(w: Seq<WalkVertex>, outside: Seq<bool>, i: nat)
    ensures
        i <= first_outside(w, outside, i) <= w.len() || (i > w.len() && first_outside(w, outside, i) == w.len()),
        first_outside(w, outside, i) < w.len() ==> outside_base(w[first_outside(w, outside, i) as int], outside),
        forall|j: int| i <= j < first_outside(w, outside, i) ==> !outside_base(#[trigger] w[j], outside),
    decreases w.len() - i,
{
    if i < w.len() && !outside_base(w[i as int], outside) {
        lemma_first_outside(w, outside, i + 1);
    }
}

/// Appends `w[lo..hi]` to `out`.
fn push_range(out: &mut Vec<WalkVertex>, w: &Vec<WalkVertex>, lo: usize, hi: usize)
    requires
        lo <= hi <= w@.len(),
    ensures
        final(out)@ == old(out)@ + w@.subrange(lo as int, hi as int),
{
    let ghost o = out@;
    let mut i = lo;
    while i < hi
        invariant
            lo <= i <= hi,
            hi <= w@.len(),
            out@ == o + w@.subrange(lo as int, i as int),
        decreases hi - i,
    {
        out.push(w[i]);
        proof {
            assert(w@.subrange(lo as int, i + 1) =~= w@.subrange(lo as int, i as int).push(w@[i as int]));
        }
        i += 1;
    }
}

/// Appends base vertices `lo..hi` to `out`.
fn push_base_run(out: &mut Vec<WalkVertex>, lo: usize, hi: usize)
    requires
        lo <= hi,
    ensures
        final(out)@ == old(out)@ + base_run(lo as int, hi as int),
{
    let ghost o = out@;
    let mut i = lo;
    while i < hi
        invariant
            lo <= i <= hi,
            out@ == o + base_run(lo as int, i as int),
        decreases hi - i,
    {
        out.push(WalkVertex::Base(i));
        proof {
            assert(base_run(lo as int, i + 1) =~= base_run(lo as int, i as int).push(WalkVertex::Base(i)));
        }
        i += 1;
    }
}

/// The first position from `i` on whose vertex is a crossing.
fn find_crossing(w: &Vec<WalkVertex>, i: usize) -> (p: usize)
    requires
        i <= w@.len(),
    ensures
        p == first_crossing(w@, i as nat),
{
    let n = w.len();
    let mut j = i;
    while j < n
        invariant
            n == w@.len(),
            i <= j <= n,
            first_crossing(w@, i as nat) == first_crossing(w@, j as nat),
        decreases n - j,
    {
        match w[j] {
            WalkVertex::Crossing(_) => {
                return j;
            },
            _ => {},
        }
        j += 1;
    }
    j
}

/// The lens vertex of crossing `c`.
fn lens_vertex(lens_at: &[Option<usize>], lens_len: usize, c: usize) -> (r: Option<usize>)
    ensures
        r == lens_of(lens_at@, lens_len as nat, c),
{
    if c < lens_at.len() {
        match lens_at[c] {
            Some(j) => {
                if j < lens_len {
                    Some(j)
                } else {
                    None
                }
            },
            None => None,
        }
    } else {
        None
    }
}

/// The base vertices with both crossings placed (see `base_walk`).
fn build_walk(base_len: usize, crossing_edges: &[usize], same_edge_reversed: bool) -> (w: Vec<WalkVertex>)
    requires
        crossing_edges@.len() == 2,
        crossing_edges@[0] < base_len,
        crossing_edges@[1] < base_len,
    ensures
        w@ == base_walk(base_len as nat, crossing_edges@, same_edge_reversed),
{
    let (a, b): (usize, usize) = if crossing_edges[0] < crossing_edges[1]
        || (crossing_edges[0] == crossing_edges[1] && !same_edge_reversed) {
        (0, 1)
    } else {
        (1, 0)
    };
    let ea = crossing_edges[a];
    let eb = crossing_edges[b];
    let mut w: Vec<WalkVertex> = Vec::new();
    push_base_run(&mut w, 0, ea + 1);
    w.push(WalkVertex::Crossing(a));
    push_base_run(&mut w, ea + 1, eb + 1);
    w.push(WalkVertex::Crossing(b));
    push_base_run(&mut w, eb + 1, base_len);
    proof {
        assert(w@ =~= base_walk(base_len as nat, crossing_edges@, same_edge_reversed));
    }
    w
}

/// The first position of a base vertex outside the lens (see
/// `first_outside`).
fn find_outside(w: &Vec<WalkVertex>, outside: &[bool]) -> (s: usize)
    ensures
        s == first_outside(w@, outside@, 0),
        s < w@.len() ==> outside_base(w@[s as int], outside@),
{
    let n = w.len();
    let mut s: usize = 0;
    while s < n
        invariant
            n == w@.len(),
            s <= n,
            first_outside(w@, outside@, 0) == first_outside(w@, outside@, s as nat),
        decreases n - s,
    {
        let hit = match w[s] {
            WalkVertex::Base(i) => i < outside.len() && outside[i],
            _ => false,
        };
        if hit {
            return s;
        }
        s += 1;
    }
    s
}

/// The lens vertices strictly between `from` and `to` walking backwards
/// (see `lens_arc`), appended to `out`.
fn push_lens_arc(out: &mut Vec<WalkVertex>, from: usize, to: usize, lens_len: usize)
    requires
        from < lens_len,
        to < lens_len,
    ensures
        final(out)@ == old(out)@ + lens_arc(from as int, to as int, lens_len as int),
{
    let cnt: usize = if from > to { from - to - 1 } else { lens_len - (to - from) - 1 };
    let ghost o = out@;
    let ghost arc = lens_arc(from as int, to as int, lens_len as int);
    let mut k: usize = 0;
    while k < cnt
        invariant
            k <= cnt,
            from < lens_len,
            to < lens_len,
            arc == lens_arc(from as int, to as int, lens_len as int),
            cnt == (if from > to { from - to - 1 } else { from + lens_len - to - 1 }),
            out@ == o + arc.take(k as int),
        decreases cnt - k,
    {
        let idx = if k < from { from - 1 - k } else { lens_len - 1 - (k - from) };
        out.push(WalkVertex::Lens(idx));
        proof {
            assert(arc.take(k + 1) =~= arc.take(k as int).push(arc[k as int]));
        }
        k += 1;
    }
    proof {
        assert(arc.take(cnt as int) =~= arc);
    }
}

/// The crossing index of a crossing vertex.
fn crossing_index(v: WalkVertex) -> (c: usize)
    ensures
        c == crossing_of(v),
{
    match v {
        WalkVertex::Crossing(c) => c,
        _ => 0,
    }
}

/// The vertices of the difference of a base polygon with `base_len`
/// vertices and a lens with `lens_len` vertices crossing it (see
/// `difference_walk_of` for the arguments).
pub fn difference_walk(
    base_len: usize,
    lens_len: usize,
    crossing_edges: &[usize],
    same_edge_reversed: bool,
    outside: &[bool],
    lens_at: &[Option<usize>],
) -> (r: Result<Vec<WalkVertex>, WalkError>)
    ensures
        match difference_walk_of(base_len as nat, lens_len as nat, crossing_edges@, same_edge_reversed, outside@, lens_at@) {
            Ok(s) => r matches Ok(v) && v@ == s,
            Err(e) => r == Err::<Vec<WalkVertex>, WalkError>(e),
        },
{
    if crossing_edges.len() != 2 {
        return Err(WalkError::CrossingCount(crossing_edges.len()));
    }
    if base_len < 3 {
        return Err(WalkError::BaseTooSmall);
    }
    if lens_len < 3 {
        return Err(WalkError::LensTooSmall);
    }
    if crossing_edges[0] >= base_len {
        return Err(WalkError::EdgeOutOfRange(crossing_edges[0]));
    }
    if crossing_edges[1] >= base_len {
        return Err(WalkError::EdgeOutOfRange(crossing_edges[1]));
    }
    let w = build_walk(base_len, crossing_edges, same_edge_reversed);
    let s = find_outside(&w, outside);
    let n = w.len();
    if s >= n {
        return Err(WalkError::NoOutsideVertex);
    }
    let mut rot: Vec<WalkVertex> = Vec::new();
    push_range(&mut rot, &w, s, n);
    push_range(&mut rot, &w, 0, s);
    proof {
        assert(rot@ =~= rotated(w@, s as int));
        lemma_crossings_found(w@, base_len as nat, crossing_edges@, same_edge_reversed, s as int);
    }
    let p1 = find_crossing(&rot, 0);
    let p2 = find_crossing(&rot, p1 + 1);
    let c1 = crossing_index(rot[p1]);
    let c2 = crossing_index(rot[p2]);
    let from = match lens_vertex(lens_at, lens_len, c1) {
        Some(i) => i,
        None => {
            return Err(WalkError::CrossingNotOnLens(c1));
        },
    };
    let to = match lens_vertex(lens_at, lens_len, c2) {
        Some(j) => j,
        None => {
            return Err(WalkError::CrossingNotOnLens(c2));
        },
    };
    let mut out: Vec<WalkVertex> = Vec::new();
    push_range(&mut out, &rot, 0, p1 + 1);
    push_lens_arc(&mut out, from, to, lens_len);
    let m = rot.len();
    push_range(&mut out, &rot, p2, m);
    proof {
        assert(rot@.take(p1 + 1) =~= rot@.subrange(0, p1 + 1));
        assert(rot@.skip(p2 as int) =~= rot@.subrange(p2 as int, m as int));
    }
    Ok(out)
}

/// In the walk started at a base vertex, both crossings are found.
proof fn lemma_crossings_found(w: Seq<WalkVertex>, n: nat, edges: Seq<usize>, rev: bool, s: int)
    requires
        edges.len() == 2,
        edges[0] < n,
        edges[1] < n,
        w == base_walk(n, edges, rev),
        0 <= s < w.len(),
        w[s] is Base,
    ensures
        first_crossing(rotated(w, s), 0) < w.len(),
        first_crossing(rotated(w, s), first_crossing(rotated(w, s), 0) + 1) < w.len(),
{
    let (a, b) = crossing_order(edges, rev);
    let ea = edges[a as int] as int;
    let eb = edges[b as int] as int;
    let r = rotated(w, s);
    let len = w.len() as int;
    assert(len == n + 2);
    let qa = ea + 1;
    let qb = eb + 2;
    assert(ea <= eb);
    assert(w[qa] == WalkVertex::Crossing(a));
    assert(w[qb] == WalkVertex::Crossing(b));
    // The positions of the two crossings in the rotated walk.
    let ra = if qa >= s { qa - s } else { qa + len - s };
    let rb = if qb >= s { qb - s } else { qb + len - s };
    assert(r[ra] == w[qa]);
    assert(r[rb] == w[qb]);
    assert(ra != rb);
    lemma_first_crossing(r, 0);
    let p1 = first_crossing(r, 0);
    assert(p1 <= ra && p1 <= rb);
    lemma_first_crossing(r, (p1 + 1) as nat);
    if p1 == ra {
        assert(rb > p1);
    } else {
        assert(ra > p1);
    }
}

} // verus!
