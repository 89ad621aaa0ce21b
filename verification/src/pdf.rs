//! Sampling densities over directions.

use vstd::prelude::*;

verus! {

/// The uniform density over the unit sphere of directions.
pub struct SpherePdf;

impl SpherePdf {
    /// The uniform sphere density (it has no parameters).
    pub fn new() -> (pdf: Self)
        ensures
            pdf == SpherePdf,
    {
        SpherePdf
    }
}

} // verus!
