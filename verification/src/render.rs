//! Render targets: a downsampled ASCII heatmap and a raw RGBA pixmap.

pub mod ascii;
pub mod raster;

pub use ascii::{render_ascii, AsciiParams};
pub use raster::{render_rgba_pixels, RenderParams, RgbaPixmap};
