//! Sets of face handles in the fast hash set of `rustc_hash`, as the
//! coplanar sibling search collects them.

use vstd::prelude::*;
use rustc_hash::{FxBuildHasher, FxHashSet};

verus! {

/// The hash builder of `rustc_hash`, carried through as an opaque type.
#[verifier::external_type_specification]
#[verifier::external_body]
pub struct ExFxBuildHasher(FxBuildHasher);

/// An empty set: calls `FxHashSet::default()`, which `rustc_hash` defines as
/// `HashSet::with_hasher(FxBuildHasher)`; the contract claims the set
/// holds nothing.
#[verifier::external_body]
pub(crate) fn fx_set_new() -> (s: FxHashSet<u32>)
    ensures
        s@ == Set::<u32>::empty(),
{
    FxHashSet::default()
}

/// Adds `x`: calls `HashSet::insert` on the `rustc_hash` set; the contract
/// claims the set afterwards is the set before with `x` added. The
/// `rustc_hash` hasher is deterministic (it hashes equal keys alike), so
/// the set behaves as a set of values.
#[verifier::external_body]
pub(crate) fn fx_set_insert(s: &mut FxHashSet<u32>, x: u32)
    ensures
        final(s)@ == old(s)@.insert(x),
{
    s.insert(x);
}

/// Membership: calls `HashSet::contains` on the `rustc_hash` set; the
/// contract claims the answer is whether `x` is in the set.
#[verifier::external_body]
pub(crate) fn fx_set_contains(s: &FxHashSet<u32>, x: u32) -> (b: bool)
    ensures
        b == s@.contains(x),
{
    s.contains(&x)
}

} // verus!
