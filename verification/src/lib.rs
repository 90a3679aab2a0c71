//! Byte-pair (digraph) histograms for binary visualization.
//!
//! Every pair of bytes `(first, second)` of a stream is counted in a 256×256
//! grid; cell `(first, second)` sits at index `first * 256 + second` of the
//! counts. Heatmaps put that cell at image column `second` and row `first`.
//!
//! The counting, the streaming builder that keeps pairs intact across chunk
//! boundaries, and the layout of the ASCII and RGBA heatmaps are verified
//! here; turning a count into a tone or a colour is handed in by the caller.

pub mod accumulate;
pub mod digraph;
pub mod normalize;
pub mod palette;
pub mod render;

pub use digraph::{Digraph, DigraphBuilder, Mode};
pub use normalize::Scale;
pub use palette::HeatmapPalette;
pub use render::{render_ascii, render_rgba_pixels, AsciiParams, RenderParams, RgbaPixmap};
