//! Tracing the pieces of a polygon split by a cutting line.
//!
//! The polygon's vertices, with the points where the cut crosses its edges
//! inserted in order, form a cycle of `n` slots. Crossings are paired up
//! along the cut; each piece is traced from a crossing forwards along the
//! cycle, jumping across the cut at every paired crossing, until it comes
//! back. Where the crossings lie and how they pair is decided on
//! coordinates by the caller; this module traces the slot sequences.

use vstd::prelude::*;

verus! {

/// The partner of slot `i` across the cut, if it is a paired crossing.
pub open spec fn partner_at(partner: Seq<Option<usize>>, i: int) -> Option<usize> {
    if 0 <= i < partner.len() {
        partner[i]
    } else {
        None
    }
}

/// The slot after `i` on a cycle of `n` slots.
pub open spec fn next_slot(i: int, n: int) -> int {
    if i + 1 < n {
        i + 1
    } else {
        0
    }
}

/// The slots met tracing from slot `idx` towards `start` with `fuel`
/// steps left: each step takes the slot, then jumps to the slot after its
/// partner where it has one (ending where the partner is `start`), and
/// otherwise moves on to the next slot (ending before `start`).
pub open spec fn trace_steps(n: nat, partner: Seq<Option<usize>>, start: int, idx: int, fuel: nat) -> Seq<usize>
    decreases fuel,
{
    if fuel == 0 {
        Seq::empty()
    } else {
        match partner_at(partner, idx) {
            Some(o) => if o == start {
                seq![idx as usize]
            } else {
                seq![idx as usize, o] + trace_steps(n, partner, start, next_slot(o as int, n as int), (fuel - 1) as nat)
            },
            None => {
                let nx = next_slot(idx, n as int);
                if nx == start {
                    seq![idx as usize]
                } else {
                    seq![idx as usize] + trace_steps(n, partner, start, nx, (fuel - 1) as nat)
                }
            },
        }
    }
}

/// The piece traced from slot `start`, at most `2n + 1` steps past it.
pub open spec fn trace_piece(n: nat, partner: Seq<Option<usize>>, start: int) -> Seq<usize> {
    seq![start as usize] + trace_steps(n, partner, start, next_slot(start, n as int), 2 * n + 1)
}

/// The pieces traced from the first `k` starts, each start once, keeping
/// those of at least three slots.
pub open spec fn split_pieces(n: nat, partner: Seq<Option<usize>>, starts: Seq<usize>, k: nat) -> Seq<Seq<usize>>
    decreases k,
{
    if k == 0 {
        Seq::empty()
    } else {
        let p = split_pieces(n, partner, starts, (k - 1) as nat);
        let s = starts[k - 1];
        if starts.take(k - 1).contains(s) {
            p
        } else {
            let t = trace_piece(n, partner, s as int);
            if t.len() >= 3 {
                p.push(t)
            } else {
                p
            }
        }
    }
}

/// The slot sequences of a list of pieces.
pub open spec fn piece_views(v: Seq<Vec<usize>>) -> Seq<Seq<usize>> {
    v.map_values(|x: Vec<usize>| x@)
}

/// The slot after `i`.
fn next_of(i: usize, n: usize) -> (r: usize)
    requires
        i < n,
    ensures
        r as int == next_slot(i as int, n as int),
        r < n,
{
    if i + 1 < n {
        i + 1
    } else {
        0
    }
}

/// Traces the piece from slot `start` (see `trace_piece`).
fn trace_one(partner: &[Option<usize>], start: usize) -> (r: Vec<usize>)
    requires
        partner@.len() > 0,
        start < partner@.len(),
        forall|i: int| 0 <= i < partner@.len() ==> (#[trigger] partner@[i] matches Some(o) ==> o < partner@.len()),
    ensures
        r@ == trace_piece(partner@.len(), partner@, start as int),
{
    let n = partner.len();
    let ghost fuel = (2 * n + 1) as nat;
    let ghost whole = trace_steps(n as nat, partner@, start as int, next_slot(start as int, n as int), fuel);
    let mut out: Vec<usize> = Vec::new();
    out.push(start);
    let mut idx = next_of(start, n);
    let limit: u128 = 2 * (n as u128);
    let mut safety: u128 = 0;
    proof {
        assert(out@.skip(1) =~= Seq::<usize>::empty());
        assert(whole =~= out@.skip(1) + whole);
    }
    loop
        invariant_except_break
            n == partner@.len(),
            idx < n,
            safety <= limit + 1,
            limit == 2 * n,
            fuel == limit + 1,
            out@.len() >= 1,
            out@[0] == start,
            whole == out@.skip(1) + trace_steps(n as nat, partner@, start as int, idx as int, (fuel - safety) as nat),
            forall|i: int| 0 <= i < partner@.len() ==> (#[trigger] partner@[i] matches Some(o) ==> o < partner@.len()),
        ensures
            out@.len() >= 1,
            out@[0] == start,
            whole == out@.skip(1),
        decreases limit + 1 - safety,
    {
        if safety > limit {
            proof {
                assert(out@.skip(1) + Seq::<usize>::empty() =~= out@.skip(1));
            }
            break;
        }
        let ghost f = (fuel - safety) as nat;
        let ghost before = out@;
        safety += 1;
        out.push(idx);
        proof {
            assert(out@.skip(1) =~= before.skip(1).push(idx));
        }
        match partner[idx] {
            Some(o) => {
                if o == start {
                    proof {
                        assert(before.skip(1) + seq![idx] =~= out@.skip(1));
                    }
                    break;
                }
                out.push(o);
                let nx = next_of(o, n);
                proof {
                    let rest = trace_steps(n as nat, partner@, start as int, nx as int, (f - 1) as nat);
                    assert(before.skip(1) + (seq![idx, o] + rest) =~= out@.skip(1) + rest);
                }
                idx = nx;
                continue;
            },
            None => {},
        }
        let nx = next_of(idx, n);
        if nx == start {
            proof {
                assert(before.skip(1) + seq![idx] =~= out@.skip(1));
            }
            break;
        }
        proof {
            let rest = trace_steps(n as nat, partner@, start as int, nx as int, (f - 1) as nat);
            assert(before.skip(1) + (seq![idx] + rest) =~= out@.skip(1) + rest);
        }
        idx = nx;
    }
    proof {
        assert(out@ =~= seq![start] + out@.skip(1));
    }
    out
}

/// Traces the pieces from each start in turn, skipping a start already
/// traced and keeping the pieces of at least three slots (see
/// `split_pieces`).
pub fn trace_split_pieces(partner: &[Option<usize>], starts: &[usize]) -> (r: Vec<Vec<usize>>)
    requires
        partner@.len() > 0,
        forall|i: int| 0 <= i < partner@.len() ==> (#[trigger] partner@[i] matches Some(o) ==> o < partner@.len()),
        forall|k: int| 0 <= k < starts@.len() ==> #[trigger] starts@[k] < partner@.len(),
    ensures
        piece_views(r@) == split_pieces(partner@.len(), partner@, starts@, starts@.len()),
{
    let m = starts.len();
    let mut pieces: Vec<Vec<usize>> = Vec::new();
    let mut k: usize = 0;
    proof {
        assert(piece_views(pieces@) =~= Seq::<Seq<usize>>::empty());
    }
    while k < m
        invariant
            m == starts@.len(),
            k <= m,
            partner@.len() > 0,
            forall|i: int| 0 <= i < partner@.len() ==> (#[trigger] partner@[i] matches Some(o) ==> o < partner@.len()),
            forall|q: int| 0 <= q < starts@.len() ==> #[trigger] starts@[q] < partner@.len(),
            piece_views(pieces@) == split_pieces(partner@.len(), partner@, starts@, k as nat),
        decreases m - k,
    {
        let s = starts[k];
        let mut seen = false;
        let mut j: usize = 0;
        while j < k
            invariant
                j <= k,
                k < m,
                m == starts@.len(),
                s == starts@[k as int],
                seen <==> starts@.take(k as int).take(j as int).contains(s),
            decreases k - j,
        {
            proof {
                assert(starts@.take(k as int).take(j + 1) =~= starts@.take(k as int).take(j as int).push(starts@[j as int]));
            }
            if starts[j] == s {
                seen = true;
            }
            proof {
                let t0 = starts@.take(k as int).take(j as int);
                let t1 = t0.push(starts@[j as int]);
                if starts@[j as int] == s {
                    assert(t1[j as int] == s);
                }
                if t1.contains(s) && starts@[j as int] != s {
                    let q = choose|q: int| 0 <= q < t1.len() && t1[q] == s;
                    assert(t0[q] == s);
                }
                if t0.contains(s) {
                    let q = choose|q: int| 0 <= q < t0.len() && t0[q] == s;
                    assert(t1[q] == s);
                }
            }
            j += 1;
        }
        proof {
            assert(starts@.take(k as int).take(k as int) =~= starts@.take(k as int));
        }
        if !seen {
            let t = trace_one(partner, s);
            if t.len() >= 3 {
                let ghost pb = pieces@;
                pieces.push(t);
                proof {
                    assert(piece_views(pieces@) =~= piece_views(pb).push(t@));
                }
            }
        }
        k += 1;
    }
    pieces
}

} // verus!
