//! The containment policy that relates a labelling to the data it annotates.

use vstd::prelude::*;

verus! {

/// How the outermost labels must sit relative to the data range.
#[derive(Clone, Copy, Debug, PartialEq, Eq, Structural)]
pub enum LabelRange {
    /// No containment constraint.
    Any,
    /// The labels cover the data: the first is at or below the data minimum,
    /// the last at or above the data maximum.
    Included,
    /// The labels stay within the data: the first is at or above the data
    /// minimum, the last at or below the data maximum.
    Excluded,
}

impl LabelRange {
    /// Whether labels spanning `lmin..=lmax` are acceptable for data spanning
    /// `dmin..=dmax`, all four measured in the same unit.
    pub open spec fn admits(self, dmin: int, dmax: int, lmin: int, lmax: int) -> bool {
        match self {
            LabelRange::Any => true,
            LabelRange::Included => lmin <= dmin && dmax <= lmax,
            LabelRange::Excluded => dmin <= lmin && lmax <= dmax,
        }
    }

    /// Decides `admits` on machine integers.
    pub fn accepts(self, dmin: i128, dmax: i128, lmin: i128, lmax: i128) -> (ok: bool)
        ensures
            ok == self.admits(dmin as int, dmax as int, lmin as int, lmax as int),
    {
        match self {
            LabelRange::Any => true,
            LabelRange::Included => lmin <= dmin && dmax <= lmax,
            LabelRange::Excluded => dmin <= lmin && lmax <= dmax,
        }
    }
}

} // verus!
