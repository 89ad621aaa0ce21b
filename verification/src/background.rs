//! Environment backgrounds.

use vstd::prelude::*;

verus! {

/// Index of pixel `(i, j)` of a row-major environment map, each coordinate
/// clamped to the last column or row.
pub open spec fn clamped_pixel_index(width: nat, height: nat, i: nat, j: nat) -> int {
    let ci: int = if i > width - 1 { width - 1 } else { i as int };
    let cj: int = if j > height - 1 { height - 1 } else { j as int };
    cj * width + ci
}

/// The index into a `width` by `height` environment map of the pixel that a
/// direction maps to, clamped into the map.
pub fn hdri_pixel_index(i: usize, j: usize, width: usize, height: usize) -> (idx: usize)
    requires
        width > 0,
        height > 0,
        width * height <= usize::MAX,
    ensures
        idx == clamped_pixel_index(width as nat, height as nat, i as nat, j as nat),
        idx < width * height,
{
    let i = if i > width - 1 { width - 1 } else { i };
    let j = if j > height - 1 { height - 1 } else { j };
    proof {
        assert(0 <= j * width + i < width * height) by (nonlinear_arith)
            requires 0 <= i < width, 0 <= j < height;
    }
    j * width + i
}

} // verus!
