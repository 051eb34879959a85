//! Plane tolerances, held exactly as ratios of whole numbers (lengths in
//! millimetres).
//!
//! Detection (`eps_plane_*`) decides whether two planes are the same;
//! snapping (`plane_snap_*`) brings chord vertices onto a plane and must
//! be stricter in offset, so that a snapped chord passes detection.

use vstd::prelude::*;

verus! {

/// The exact value `num / den`.
#[derive(Clone, Copy, Debug, PartialEq, Eq, Structural)]
pub struct Ratio {
    pub num: u64,
    pub den: u64,
}

/// `a < b` for ratios with positive denominators.
pub open spec fn ratio_lt(a: Ratio, b: Ratio) -> bool {
    a.num * b.den < b.num * a.den
}

/// The offset snap tolerance.
pub open spec fn snap_offset() -> Ratio {
    Ratio { num: 1, den: 10000 }
}

/// The offset detection tolerance.
pub open spec fn detection_offset() -> Ratio {
    Ratio { num: 3, den: 2000 }
}

/// Snapping is stricter than detection in offset, so a snapped chord is
/// detected as lying on its plane.
pub proof fn law_snap_offset_stricter_than_detection()
    ensures
        ratio_lt(snap_offset(), detection_offset()),
{
}

impl Ratio {
    /// Whether `self < other` (positive denominators).
    pub fn lt(&self, other: &Ratio) -> (b: bool)
        requires
            self.den > 0,
            other.den > 0,
        ensures
            b == ratio_lt(*self, *other),
    {
        let a = self.num as u128;
        let b = other.den as u128;
        let c = other.num as u128;
        let d = self.den as u128;
        assert(a * b <= 0xffff_ffff_ffff_ffffu128 * 0xffff_ffff_ffff_ffffu128) by (nonlinear_arith)
            requires a <= 0xffff_ffff_ffff_ffffu128, b <= 0xffff_ffff_ffff_ffffu128;
        assert(c * d <= 0xffff_ffff_ffff_ffffu128 * 0xffff_ffff_ffff_ffffu128) by (nonlinear_arith)
            requires c <= 0xffff_ffff_ffff_ffffu128, d <= 0xffff_ffff_ffff_ffffu128;
        a * b < c * d
    }
}

/// Normal-direction snap tolerance: `1e-3`.
pub fn plane_snap_normal() -> (r: Ratio)
    ensures
        r == (Ratio { num: 1, den: 1000 }),
{
    Ratio { num: 1, den: 1000 }
}

/// Offset snap tolerance: `1e-4` mm.
pub fn plane_snap_offset() -> (r: Ratio)
    ensures
        r == snap_offset(),
{
    Ratio { num: 1, den: 10000 }
}

/// Normal-direction detection tolerance: `1e-4`.
pub fn eps_plane_normal() -> (r: Ratio)
    ensures
        r == (Ratio { num: 1, den: 10000 }),
{
    Ratio { num: 1, den: 10000 }
}

/// Offset detection tolerance: `1.5e-3` mm.
pub fn eps_plane_offset() -> (r: Ratio)
    ensures
        r == detection_offset(),
{
    Ratio { num: 3, den: 2000 }
}

} // verus!
