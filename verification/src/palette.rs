//! Named color maps for raster and SVG digraph output.
//!
//! The gradients themselves are computed in floating point by the caller.

use vstd::prelude::*;

verus! {

/// Named color map for raster and SVG digraph output.
#[derive(Clone, Copy, Debug, PartialEq, Eq, Hash)]
pub enum HeatmapPalette {
    Magma,
    Viridis,
    Gray,
    Matrix,
}

impl Default for HeatmapPalette {
    /// [`HeatmapPalette::Matrix`].
    fn default() -> (p: Self)
        ensures
            p == HeatmapPalette::Matrix,
    {
        HeatmapPalette::Matrix
    }
}

} // verus!
