//! Square RGBA heatmap raster.

use vstd::prelude::*;

use vstd::arithmetic::div_mod::lemma_fundamental_div_mod_converse;

use crate::accumulate::{cell_index, CELLS};
use crate::digraph::Digraph;
use crate::normalize::Scale;
use crate::palette::HeatmapPalette;

verus! {

/// Controls upscaling and color mapping for raster output.
#[derive(Clone, Copy, Debug)]
pub struct RenderParams {
    /// Pixels per axis cell (image side = 256 * cell_pixels; 0 counts as 1).
    pub cell_pixels: u32,
    pub scale: Scale,
    pub palette: HeatmapPalette,
}

impl Default for RenderParams {
    /// Two pixels per cell, the `CantorDust` scale and the default palette.
    fn default() -> (p: Self)
        ensures
            p.cell_pixels == 2,
            p.scale == Scale::CantorDust,
            p.palette == HeatmapPalette::Matrix,
    {
        Self { cell_pixels: 2, scale: Scale::CantorDust, palette: HeatmapPalette::default() }
    }
}

/// Row-major RGBA8 buffer (`rgba[(y * width + x) * 4 + c]`); the top row is the
/// smallest **first byte** of each pair (column = second byte, row = first byte).
#[derive(Clone, Debug, PartialEq, Eq)]
pub struct RgbaPixmap {
    pub width: u32,
    pub height: u32,
    pub rgba: Vec<u8>,
}

impl RgbaPixmap {
    /// Returns `true` if `rgba.len() == width * height * 4`.
    pub fn is_valid(&self) -> (b: bool)
        ensures
            b == (self.rgba@.len() == self.width * self.height * 4),
    {
        let w = self.width as u128;
        let h = self.height as u128;
        assert(w * h * 4 <= 0x4_0000_0000_0000_0000) by (nonlinear_arith)
            requires
                w <= 0xffff_ffff,
                h <= 0xffff_ffff,
        ;
        self.rgba.len() as u128 == w * h * 4
    }
}

/// Pixels per cell side: `cell_pixels`, at least 1.
pub open spec fn cell_side(cell_pixels: u32) -> int {
    if cell_pixels < 1 {
        1
    } else {
        cell_pixels as int
    }
}

/// Side of the square image in pixels.
pub open spec fn raster_side(cell_pixels: u32) -> int {
    256 * cell_side(cell_pixels)
}

/// Byte `i` of the image whose cells are painted `colors` (row-major by cell index),
/// each cell a `cell` × `cell` square: pixel `(col, row)` shows cell
/// `(row / cell, col / cell)`.
pub open spec fn raster_byte(colors: Seq<[u8; 4]>, cell: int, i: int) -> u8 {
    let side = 256 * cell;
    let px = i / 4;
    let row = px / side;
    let col = px % side;
    colors[(row / cell) * 256 + col / cell]@[i % 4]
}

/// The image whose cells are painted `colors`.
pub open spec fn raster(colors: Seq<[u8; 4]>, cell: int) -> Seq<u8> {
    Seq::new((256 * cell * (256 * cell) * 4) as nat, |i: int| raster_byte(colors, cell, i))
}

/// Each cell's color is one that `paint` can give for the cell's count and the
/// largest count.
pub open spec fn paints_fit<F: Fn(u32, u32) -> [u8; 4]>(
    paint: F,
    counts: Seq<u32>,
    max: u32,
    colors: Seq<[u8; 4]>,
) -> bool {
    &&& colors.len() == 65536
    &&& forall|k: int| 0 <= k < 65536 ==> call_ensures(paint, (counts[k], max), #[trigger] colors[k])
}

/// `p` is the heatmap of the digraph with counts `counts` and largest count `max`,
/// `cell_pixels` pixels per cell side, in colors that `paint` can give.
pub open spec fn is_raster_rendering<F: Fn(u32, u32) -> [u8; 4]>(
    paint: F,
    counts: Seq<u32>,
    max: u32,
    cell_pixels: u32,
    p: RgbaPixmap,
) -> bool {
    &&& p.width == raster_side(cell_pixels)
    &&& p.height == raster_side(cell_pixels)
    &&& exists|colors: Seq<[u8; 4]>|
        {
            &&& paints_fit(paint, counts, max, colors)
            &&& p.rgba@ == raster(colors, cell_side(cell_pixels))
        }
}

/// `paint` gives one color for each count and largest count.
pub open spec fn paint_is_function<F: Fn(u32, u32) -> [u8; 4]>(paint: F) -> bool {
    forall|v: u32, m: u32, r1: [u8; 4], r2: [u8; 4]|
        #![trigger call_ensures(paint, (v, m), r1), call_ensures(paint, (v, m), r2)]
        call_ensures(paint, (v, m), r1) && call_ensures(paint, (v, m), r2) ==> r1 == r2
}

/// With a paint function that gives one color per input, a digraph has exactly one
/// heatmap: so `Digraph::to_rgba_pixels` and `render_rgba_pixels` agree.
pub proof fn law_raster_rendering_unique<F: Fn(u32, u32) -> [u8; 4]>(
    paint: F,
    counts: Seq<u32>,
    max: u32,
    cell_pixels: u32,
    p1: RgbaPixmap,
    p2: RgbaPixmap,
)
    requires
        paint_is_function(paint),
        counts.len() == 65536,
        is_raster_rendering(paint, counts, max, cell_pixels, p1),
        is_raster_rendering(paint, counts, max, cell_pixels, p2),
    ensures
        p1.width == p2.width,
        p1.height == p2.height,
        p1.rgba@ == p2.rgba@,
{
    let cell = cell_side(cell_pixels);
    let c1 = choose|colors: Seq<[u8; 4]>|
        {
            &&& paints_fit(paint, counts, max, colors)
            &&& p1.rgba@ == raster(colors, cell)
        };
    let c2 = choose|colors: Seq<[u8; 4]>|
        {
            &&& paints_fit(paint, counts, max, colors)
            &&& p2.rgba@ == raster(colors, cell)
        };
    assert forall|k: int| 0 <= k < 65536 implies c1[k] == c2[k] by {
        assert(call_ensures(paint, (counts[k], max), c1[k]));
        assert(call_ensures(paint, (counts[k], max), c2[k]));
    }
    assert(c1 =~= c2);
}

/// The position of pixel `(col, row)`'s first byte, and the cell it shows.
proof fn lemma_pixel_position(side: int, cell: int, row: int, col: int, ch: int)
    requires
        cell >= 1,
        side == 256 * cell,
        0 <= row < side,
        0 <= col < side,
        0 <= ch < 4,
    ensures
        ((row * side + col) * 4 + ch) / 4 == row * side + col,
        ((row * side + col) * 4 + ch) % 4 == ch,
        (row * side + col) / side == row,
        (row * side + col) % side == col,
        0 <= row / cell < 256,
        0 <= col / cell < 256,
{
    lemma_fundamental_div_mod_converse((row * side + col) * 4 + ch, 4, row * side + col, ch);
    lemma_fundamental_div_mod_converse(row * side + col, side, row, col);
    assert(0 <= row / cell < 256) by (nonlinear_arith)
        requires
            cell >= 1,
            0 <= row < 256 * cell,
    {
        vstd::arithmetic::div_mod::lemma_fundamental_div_mod(row, cell);
    }
    assert(0 <= col / cell < 256) by (nonlinear_arith)
        requires
            cell >= 1,
            0 <= col < 256 * cell,
    {
        vstd::arithmetic::div_mod::lemma_fundamental_div_mod(col, cell);
    }
}

/// A rendered heatmap is a valid pixmap: its buffer holds `width * height * 4` bytes.
pub proof fn law_rendered_pixmap_is_valid<F: Fn(u32, u32) -> [u8; 4]>(
    paint: F,
    counts: Seq<u32>,
    max: u32,
    cell_pixels: u32,
    p: RgbaPixmap,
)
    requires
        is_raster_rendering(paint, counts, max, cell_pixels, p),
    ensures
        p.rgba@.len() == p.width * p.height * 4,
{
    let colors = choose|colors: Seq<[u8; 4]>|
        {
            &&& paints_fit(paint, counts, max, colors)
            &&& p.rgba@ == raster(colors, cell_side(cell_pixels))
        };
    let c = cell_side(cell_pixels);
    assert(256 * c * (256 * c) * 4 >= 0) by (nonlinear_arith)
        requires
            c >= 1,
    ;
}

/// Cell `(first, second)` fills the `cell` × `cell` square whose top-left pixel is at
/// column `second * cell` and row `first * cell`: every byte of that square is the
/// cell's color.
pub proof fn law_heatmap_cell_layout(
    colors: Seq<[u8; 4]>,
    cell: int,
    first: int,
    second: int,
    dy: int,
    dx: int,
    ch: int,
)
    requires
        cell >= 1,
        colors.len() == 65536,
        0 <= first < 256,
        0 <= second < 256,
        0 <= dy < cell,
        0 <= dx < cell,
        0 <= ch < 4,
    ensures
        ({
            let side = 256 * cell;
            let i = ((first * cell + dy) * side + second * cell + dx) * 4 + ch;
            &&& 0 <= i < raster(colors, cell).len()
            &&& raster(colors, cell)[i] == colors[first * 256 + second]@[ch]
        }),
{
    let side = 256 * cell;
    let row = first * cell + dy;
    let col = second * cell + dx;
    assert(0 <= row < side && 0 <= col < side) by (nonlinear_arith)
        requires
            cell >= 1,
            side == 256 * cell,
            row == first * cell + dy,
            col == second * cell + dx,
            0 <= first < 256,
            0 <= second < 256,
            0 <= dy < cell,
            0 <= dx < cell,
    ;
    lemma_pixel_position(side, cell, row, col, ch);
    lemma_fundamental_div_mod_converse(row, cell, first, dy);
    lemma_fundamental_div_mod_converse(col, cell, second, dx);
    assert((row * side + col) * 4 + ch < side * side * 4) by (nonlinear_arith)
        requires
            0 <= row < side,
            0 <= col < side,
            0 <= ch < 4,
    ;
    assert(row * side + col + 0 == (first * cell + dy) * side + second * cell + dx);
}

/// The heatmap is a square of side `256 * cell_pixels` pixels (`cell_pixels` 0
/// counts as 1), with `width * height * 4` bytes; cell `(first, second)` fills the
/// square of that side's cell size at column `second * cell_pixels` and row
/// `first * cell_pixels` with one color that `paint` gives for the cell's count.
pub proof fn law_raster_size_and_cells<F: Fn(u32, u32) -> [u8; 4]>(
    paint: F,
    counts: Seq<u32>,
    max: u32,
    cell_pixels: u32,
    p: RgbaPixmap,
    first: int,
    second: int,
    dy: int,
    dx: int,
    ch: int,
) -> (color: [u8; 4])
    requires
        is_raster_rendering(paint, counts, max, cell_pixels, p),
        counts.len() == 65536,
        0 <= first < 256,
        0 <= second < 256,
        0 <= dy < (if cell_pixels == 0 { 1 } else { cell_pixels as int }),
        0 <= dx < (if cell_pixels == 0 { 1 } else { cell_pixels as int }),
        0 <= ch < 4,
    ensures
        ({
            let cp: int = if cell_pixels == 0 {
                1
            } else {
                cell_pixels as int
            };
            &&& p.width == 256 * cp
            &&& p.height == 256 * cp
            &&& p.rgba@.len() == p.width * p.height * 4
            &&& call_ensures(paint, (counts[first * 256 + second], max), color)
            &&& p.rgba@[((first * cp + dy) * (256 * cp) + second * cp + dx) * 4 + ch] == color@[ch]
        }),
{
    let cp = cell_side(cell_pixels);
    let colors = choose|colors: Seq<[u8; 4]>|
        {
            &&& paints_fit(paint, counts, max, colors)
            &&& p.rgba@ == raster(colors, cp)
        };
    law_rendered_pixmap_is_valid(paint, counts, max, cell_pixels, p);
    law_heatmap_cell_layout(colors, cp, first, second, dy, dx, ch);
    let k = first * 256 + second;
    assert(0 <= k < 65536);
    assert(call_ensures(paint, (counts[k], max), colors[k]));
    colors[k]
}

/// Renders the digraph heatmap into an RGBA8 pixmap.
///
/// Each cell `(first, second)` is painted with `paint(count, max)` (called once per
/// cell, in row-major order) over a `cell_pixels` × `cell_pixels` square at column
/// `second * cell_pixels` and row `first * cell_pixels`.
pub fn render_rgba_pixels<F: Fn(u32, u32) -> [u8; 4]>(
    digraph: &Digraph,
    params: RenderParams,
    paint: F,
) -> (p: RgbaPixmap)
    requires
        digraph.wf(),
        forall|v: u32, m: u32| call_requires(paint, (v, m)),
        raster_side(params.cell_pixels) * raster_side(params.cell_pixels) * 4 <= usize::MAX,
    ensures
        is_raster_rendering(paint, digraph@, digraph.max_spec(), params.cell_pixels, p),
{
    let cell: usize = if params.cell_pixels < 1 {
        1
    } else {
        params.cell_pixels as usize
    };
    let ghost side_i = 256 * cell as int;
    assert(side_i <= usize::MAX) by (nonlinear_arith)
        requires
            side_i >= 1,
            side_i * side_i * 4 <= usize::MAX,
    ;
    let side: usize = 256 * cell;
    let max = digraph.max_count();

    // One color per cell, in row-major order.
    let mut colors: Vec<[u8; 4]> = Vec::with_capacity(CELLS);
    let mut first: u16 = 0;
    while first < 256
        invariant
            first <= 256,
            digraph.wf(),
            max == digraph.max_spec(),
            forall|v: u32, m: u32| call_requires(paint, (v, m)),
            colors@.len() == first * 256,
            forall|k: int|
                0 <= k < colors@.len() ==> call_ensures(
                    paint,
                    (digraph@[k], max),
                    #[trigger] colors@[k],
                ),
        decreases 256 - first,
    {
        let mut second: u16 = 0;
        while second < 256
            invariant
                first < 256,
                second <= 256,
                digraph.wf(),
                max == digraph.max_spec(),
                forall|v: u32, m: u32| call_requires(paint, (v, m)),
                colors@.len() == first * 256 + second,
                forall|k: int|
                    0 <= k < colors@.len() ==> call_ensures(
                        paint,
                        (digraph@[k], max),
                        #[trigger] colors@[k],
                    ),
            decreases 256 - second,
        {
            let v = digraph.get(first as u8, second as u8);
            assert(cell_index(first as u8, second as u8) == colors@.len());
            let c = paint(v, max);
            colors.push(c);
            second += 1;
        }
        first += 1;
    }

    let ghost cell_i = cell as int;
    assert(side * side * 4 <= usize::MAX);
    let total = side * side * 4;
    let mut rgba: Vec<u8> = Vec::with_capacity(total);
    let mut row: usize = 0;
    while row < side
        invariant
            cell >= 1,
            cell_i == cell,
            side == 256 * cell,
            side * side * 4 <= usize::MAX,
            row <= side,
            colors@.len() == 65536,
            rgba@.len() == row * side * 4,
            forall|i: int|
                0 <= i < rgba@.len() ==> #[trigger] rgba@[i] == raster_byte(colors@, cell_i, i),
        decreases side - row,
    {
        let mut col: usize = 0;
        while col < side
            invariant
                cell >= 1,
                cell_i == cell,
                side == 256 * cell,
                side * side * 4 <= usize::MAX,
                row < side,
                col <= side,
                colors@.len() == 65536,
                rgba@.len() == (row * side + col) * 4,
                forall|i: int|
                    0 <= i < rgba@.len() ==> #[trigger] rgba@[i] == raster_byte(colors@, cell_i, i),
            decreases side - col,
        {
            proof {
                lemma_pixel_position(side as int, cell_i, row as int, col as int, 0);
                lemma_pixel_position(side as int, cell_i, row as int, col as int, 1);
                lemma_pixel_position(side as int, cell_i, row as int, col as int, 2);
                lemma_pixel_position(side as int, cell_i, row as int, col as int, 3);
                assert((row * side + col) * 4 + 4 <= side * side * 4) by (nonlinear_arith)
                    requires
                        row < side,
                        col < side,
                ;
            }
            let k = (row / cell) * 256 + col / cell;
            let c = colors[k];
            let ghost base = rgba@.len() as int;
            rgba.push(c[0]);
            rgba.push(c[1]);
            rgba.push(c[2]);
            rgba.push(c[3]);
            proof {
                assert(rgba@[base] == raster_byte(colors@, cell_i, base));
                assert(rgba@[base + 1] == raster_byte(colors@, cell_i, base + 1));
                assert(rgba@[base + 2] == raster_byte(colors@, cell_i, base + 2));
                assert(rgba@[base + 3] == raster_byte(colors@, cell_i, base + 3));
            }
            col += 1;
        }
        proof {
            assert((row * side + side) * 4 == (row + 1) * side * 4) by (nonlinear_arith);
        }
        row += 1;
    }
    proof {
        assert(rgba@ =~= raster(colors@, cell_i));
        assert(side <= 0xffff_ffff) by (nonlinear_arith)
            requires
                side * side * 4 <= 0xffff_ffff_ffff_ffff,
        ;
    }
    RgbaPixmap { width: side as u32, height: side as u32, rgba }
}

} // verus!
