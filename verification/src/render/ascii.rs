//! Downsampled ASCII heatmap (terminal-friendly).

use vstd::prelude::*;

use vstd::arithmetic::div_mod::{
    lemma_div_by_multiple, lemma_div_is_ordered, lemma_fundamental_div_mod_converse,
};

use crate::accumulate::cell_index;
use crate::digraph::Digraph;
use crate::normalize::Scale;

verus! {

/// Largest number of rows or columns of the grid.
pub const MAX_DIM: u32 = 256;

/// Grid size and tone mapping for [`render_ascii`].
#[derive(Clone, Debug, PartialEq)]
pub struct AsciiParams {
    /// Output columns (each column aggregates a range of **second** bytes in the pair).
    pub cols: u32,
    /// Output rows (each row aggregates a range of **first** bytes; top row is small first byte).
    pub rows: u32,
    /// Count normalization strategy. Default is `CantorDust`.
    pub scale: Scale,
    /// Characters from dim to bright; an empty ramp stands for `" #"`.
    pub ramp: String,
}

impl Default for AsciiParams {
    /// 80 columns, 36 rows, the CantorDust ramp and the characters `" .:-=+*#%@"`.
    fn default() -> (p: Self)
        ensures
            p.cols == 80,
            p.rows == 36,
            p.scale == Scale::CantorDust,
            p.ramp@ == " .:-=+*#%@"@,
    {
        Self { cols: 80, rows: 36, scale: Scale::CantorDust, ramp: " .:-=+*#%@".to_owned() }
    }
}

/// `n` clamped to `1..=256`.
pub open spec fn clamp_dim_spec(n: u32) -> u32 {
    if n < 1 {
        1
    } else if n > 256 {
        256
    } else {
        n
    }
}

fn clamp_dim(n: u32) -> (r: u32)
    ensures
        r == clamp_dim_spec(n),
{
    if n < 1 {
        1
    } else if n > MAX_DIM {
        MAX_DIM
    } else {
        n
    }
}

/// The ramp used for drawing: the given one, or `" #"` when it is empty.
pub open spec fn effective_ramp(ramp: Seq<char>) -> Seq<char> {
    if ramp.len() == 0 {
        seq![' ', '#']
    } else {
        ramp
    }
}

/// The count of cell `(x, y)` in row-major counts.
pub open spec fn cell_at(counts: Seq<u32>, x: int, y: int) -> u32 {
    counts[x * 256 + y]
}

/// `m` is the largest count in the tile of first bytes `x0..x1` and second bytes
/// `y0..y1` (0 for an empty tile).
pub open spec fn is_tile_max(m: u32, counts: Seq<u32>, x0: int, x1: int, y0: int, y1: int) -> bool {
    &&& forall|x: int, y: int|
        x0 <= x < x1 && y0 <= y < y1 ==> #[trigger] cell_at(counts, x, y) <= m
    &&& (m == 0 || exists|x: int, y: int|
        x0 <= x < x1 && y0 <= y < y1 && #[trigger] cell_at(counts, x, y) == m)
}

/// The largest count in a tile.
pub open spec fn tile_max_of(counts: Seq<u32>, x0: int, x1: int, y0: int, y1: int) -> u32 {
    choose|m: u32| is_tile_max(m, counts, x0, x1, y0, y1)
}

/// First byte (or second byte) where tile `i` of `n` starts.
pub open spec fn tile_lo(i: int, n: int) -> int {
    i * 256 / n
}

/// The largest count under the character at row `r`, column `c` of the grid.
pub open spec fn tile_value(counts: Seq<u32>, rows: int, cols: int, r: int, c: int) -> u32 {
    tile_max_of(counts, tile_lo(r, rows), tile_lo(r + 1, rows), tile_lo(c, cols), tile_lo(c + 1, cols))
}

/// The character drawn for a tile whose largest count is `v`, when the tone
/// function chose ramp position `level`: the dimmest for an empty tile or an empty
/// digraph, else the chosen position, capped at the brightest.
pub open spec fn glyph(ramp: Seq<char>, max: u32, v: u32, level: usize) -> char {
    if max == 0 || v == 0 {
        ramp[0]
    } else if level < ramp.len() - 1 {
        ramp[level as int]
    } else {
        ramp[ramp.len() - 1]
    }
}

/// Character `p` of the picture: each row is `cols` glyphs and a newline.
pub open spec fn ascii_char(
    counts: Seq<u32>,
    max: u32,
    rows: int,
    cols: int,
    ramp: Seq<char>,
    level: usize,
    p: int,
) -> char {
    let r = p / (cols + 1);
    let c = p % (cols + 1);
    if c == cols {
        '\n'
    } else {
        glyph(ramp, max, tile_value(counts, rows, cols, r, c), level)
    }
}

/// The picture, given for each character the ramp position that the tone function chose.
pub open spec fn ascii_text(
    counts: Seq<u32>,
    max: u32,
    rows: int,
    cols: int,
    ramp: Seq<char>,
    levels: Seq<usize>,
) -> Seq<char> {
    Seq::new(
        (rows * (cols + 1)) as nat,
        |p: int| ascii_char(counts, max, rows, cols, ramp, levels[p], p),
    )
}

/// Every ramp position in `levels` that the picture uses is one that `tone` can
/// give for that tile's count, the largest count and the last ramp position.
pub open spec fn tones_fit<F: Fn(u32, u32, usize) -> usize>(
    tone: F,
    counts: Seq<u32>,
    max: u32,
    rows: int,
    cols: int,
    last: usize,
    levels: Seq<usize>,
) -> bool {
    forall|p: int|
        0 <= p < levels.len() && p % (cols + 1) != cols && max != 0 && tile_value(
            counts,
            rows,
            cols,
            p / (cols + 1),
            p % (cols + 1),
        ) != 0 ==> call_ensures(
            tone,
            (tile_value(counts, rows, cols, p / (cols + 1), p % (cols + 1)), max, last),
            #[trigger] levels[p],
        )
}

/// `s` is the picture of the digraph with counts `counts` and largest count `max`
/// drawn with `params`, for ramp positions that `tone` can give.
pub open spec fn is_ascii_rendering<F: Fn(u32, u32, usize) -> usize>(
    tone: F,
    counts: Seq<u32>,
    max: u32,
    params: AsciiParams,
    s: Seq<char>,
) -> bool {
    let rows = clamp_dim_spec(params.rows) as int;
    let cols = clamp_dim_spec(params.cols) as int;
    let ramp = effective_ramp(params.ramp@);
    exists|levels: Seq<usize>|
        {
            &&& levels.len() == rows * (cols + 1)
            &&& tones_fit(tone, counts, max, rows, cols, (ramp.len() - 1) as usize, levels)
            &&& s == ascii_text(counts, max, rows, cols, ramp, levels)
        }
}

/// `tone` gives one ramp position for each count, largest count and last position.
pub open spec fn tone_is_function<F: Fn(u32, u32, usize) -> usize>(tone: F) -> bool {
    forall|v: u32, m: u32, l: usize, r1: usize, r2: usize|
        #![trigger call_ensures(tone, (v, m, l), r1), call_ensures(tone, (v, m, l), r2)]
        call_ensures(tone, (v, m, l), r1) && call_ensures(tone, (v, m, l), r2) ==> r1 == r2
}

/// With a tone function that gives one position per input, a digraph has exactly one
/// picture: so `Digraph::to_ascii` and `render_ascii` agree.
pub proof fn law_ascii_rendering_unique<F: Fn(u32, u32, usize) -> usize>(
    tone: F,
    counts: Seq<u32>,
    max: u32,
    params: AsciiParams,
    s1: Seq<char>,
    s2: Seq<char>,
)
    requires
        tone_is_function(tone),
        is_ascii_rendering(tone, counts, max, params, s1),
        is_ascii_rendering(tone, counts, max, params, s2),
    ensures
        s1 == s2,
{
    let rows = clamp_dim_spec(params.rows) as int;
    let cols = clamp_dim_spec(params.cols) as int;
    let ramp = effective_ramp(params.ramp@);
    let last = (ramp.len() - 1) as usize;
    let l1 = choose|levels: Seq<usize>|
        {
            &&& levels.len() == rows * (cols + 1)
            &&& tones_fit(tone, counts, max, rows, cols, last, levels)
            &&& s1 == ascii_text(counts, max, rows, cols, ramp, levels)
        };
    let l2 = choose|levels: Seq<usize>|
        {
            &&& levels.len() == rows * (cols + 1)
            &&& tones_fit(tone, counts, max, rows, cols, last, levels)
            &&& s2 == ascii_text(counts, max, rows, cols, ramp, levels)
        };
    assert forall|p: int| 0 <= p < s1.len() implies s1[p] == s2[p] by {
        let v = tile_value(counts, rows, cols, p / (cols + 1), p % (cols + 1));
        if p % (cols + 1) != cols && max != 0 && v != 0 {
            assert(call_ensures(tone, (v, max, last), l1[p]));
            assert(call_ensures(tone, (v, max, last), l2[p]));
        }
    }
    assert(s1 =~= s2);
}

/// The picture has `rows` lines of `cols` characters, each line ended by a newline;
/// the character at row `r`, column `c` is the glyph of that tile.
pub proof fn law_ascii_shape(
    counts: Seq<u32>,
    max: u32,
    rows: int,
    cols: int,
    ramp: Seq<char>,
    levels: Seq<usize>,
    r: int,
    c: int,
)
    requires
        1 <= rows,
        1 <= cols,
        levels.len() == rows * (cols + 1),
        0 <= r < rows,
        0 <= c <= cols,
    ensures
        ({
            let t = ascii_text(counts, max, rows, cols, ramp, levels);
            let p = r * (cols + 1) + c;
            &&& 0 <= p < t.len()
            &&& c == cols ==> t[p] == '\n'
            &&& c < cols ==> t[p] == glyph(ramp, max, tile_value(counts, rows, cols, r, c), levels[p])
        }),
{
    let p = r * (cols + 1) + c;
    lemma_fundamental_div_mod_converse(p, cols + 1, r, c);
    assert(0 <= p < rows * (cols + 1)) by (nonlinear_arith)
        requires
            p == r * (cols + 1) + c,
            0 <= r < rows,
            0 <= c <= cols,
            1 <= cols,
    ;
}

proof fn lemma_tile_max_unique(m: u32, counts: Seq<u32>, x0: int, x1: int, y0: int, y1: int)
    requires
        is_tile_max(m, counts, x0, x1, y0, y1),
    ensures
        tile_max_of(counts, x0, x1, y0, y1) == m,
{
    let m2 = tile_max_of(counts, x0, x1, y0, y1);
    assert(is_tile_max(m2, counts, x0, x1, y0, y1));
    if m > 0 {
        let (x, y) = choose|x: int, y: int|
            x0 <= x < x1 && y0 <= y < y1 && #[trigger] cell_at(counts, x, y) == m;
        assert(cell_at(counts, x, y) <= m2);
    }
    if m2 > 0 {
        let (x, y) = choose|x: int, y: int|
            x0 <= x < x1 && y0 <= y < y1 && #[trigger] cell_at(counts, x, y) == m2;
        assert(cell_at(counts, x, y) <= m);
    }
}

/// Tile `i` of `n` covers a non-decreasing range inside `0..=256`.
proof fn lemma_tile_bounds(i: int, n: int)
    requires
        1 <= n <= 256,
        0 <= i < n,
    ensures
        0 <= tile_lo(i, n) <= tile_lo(i + 1, n) <= 256,
{
    lemma_div_is_ordered(0, i * 256, n);
    lemma_div_is_ordered(i * 256, (i + 1) * 256, n);
    lemma_div_is_ordered((i + 1) * 256, n * 256, n);
    lemma_div_by_multiple(256, n);
    assert(0int / n == 0);
}

/// The largest count in column `x` among second bytes `y0..y1` (0 when empty).
spec fn column_max(counts: Seq<u32>, x: int, y0: int, y1: int) -> u32
    decreases y1 - y0,
{
    if y1 <= y0 {
        0
    } else {
        let m = column_max(counts, x, y0, y1 - 1);
        let c = cell_at(counts, x, y1 - 1);
        if c > m {
            c
        } else {
            m
        }
    }
}

/// The largest count in a tile, row by row (0 when empty).
spec fn rect_max(counts: Seq<u32>, x0: int, x1: int, y0: int, y1: int) -> u32
    decreases x1 - x0,
{
    if x1 <= x0 {
        0
    } else {
        let m = rect_max(counts, x0, x1 - 1, y0, y1);
        let c = column_max(counts, x1 - 1, y0, y1);
        if c > m {
            c
        } else {
            m
        }
    }
}

proof fn lemma_column_max(counts: Seq<u32>, x: int, y0: int, y1: int)
    ensures
        is_tile_max(column_max(counts, x, y0, y1), counts, x, x + 1, y0, y1),
    decreases y1 - y0,
{
    if y1 > y0 {
        lemma_column_max(counts, x, y0, y1 - 1);
        let m = column_max(counts, x, y0, y1 - 1);
        let c = cell_at(counts, x, y1 - 1);
        if c > m {
            assert(cell_at(counts, x, y1 - 1) == column_max(counts, x, y0, y1));
        } else if m != 0 {
            let (a, b) = choose|a: int, b: int|
                x <= a < x + 1 && y0 <= b < y1 - 1 && #[trigger] cell_at(counts, a, b) == m;
            assert(cell_at(counts, a, b) == column_max(counts, x, y0, y1));
        }
    }
}

proof fn lemma_rect_max(counts: Seq<u32>, x0: int, x1: int, y0: int, y1: int)
    ensures
        is_tile_max(rect_max(counts, x0, x1, y0, y1), counts, x0, x1, y0, y1),
    decreases x1 - x0,
{
    if x1 > x0 {
        lemma_rect_max(counts, x0, x1 - 1, y0, y1);
        lemma_column_max(counts, x1 - 1, y0, y1);
        let m = rect_max(counts, x0, x1 - 1, y0, y1);
        let c = column_max(counts, x1 - 1, y0, y1);
        let r = rect_max(counts, x0, x1, y0, y1);
        assert forall|x: int, y: int| x0 <= x < x1 && y0 <= y < y1 implies #[trigger] cell_at(
            counts,
            x,
            y,
        ) <= r by {
            if x < x1 - 1 {
                assert(cell_at(counts, x, y) <= m);
            } else {
                assert(cell_at(counts, x, y) <= c);
            }
        }
        if r != 0 {
            if c > m {
                let (a, b) = choose|a: int, b: int|
                    x1 - 1 <= a < x1 && y0 <= b < y1 && #[trigger] cell_at(counts, a, b) == c;
                assert(x0 <= a < x1 && y0 <= b < y1 && cell_at(counts, a, b) == r);
            } else {
                let (a, b) = choose|a: int, b: int|
                    x0 <= a < x1 - 1 && y0 <= b < y1 && #[trigger] cell_at(counts, a, b) == m;
                assert(x0 <= a < x1 && y0 <= b < y1 && cell_at(counts, a, b) == r);
            }
        }
    }
}

/// Every tile has a largest count: `tile_max_of` is it.
pub proof fn lemma_tile_max_of_is_tile_max(
    counts: Seq<u32>,
    x0: int,
    x1: int,
    y0: int,
    y1: int,
)
    ensures
        is_tile_max(tile_max_of(counts, x0, x1, y0, y1), counts, x0, x1, y0, y1),
{
    lemma_rect_max(counts, x0, x1, y0, y1);
}

/// For `1 <= n <= 256` the `n` tiles start at byte 0 and end at byte 256: together
/// they cover every byte.
pub proof fn law_tiles_cover_all_bytes(n: int)
    requires
        1 <= n <= 256,
    ensures
        tile_lo(0, n) == 0,
        tile_lo(n, n) == 256,
        forall|i: int, j: int| 0 <= i <= j <= n ==> tile_lo(i, n) <= tile_lo(j, n),
{
    lemma_div_by_multiple(256, n);
    assert(0int * 256 / n == 0);
    assert forall|i: int, j: int| 0 <= i <= j <= n implies tile_lo(i, n) <= tile_lo(j, n) by {
        lemma_div_is_ordered(i * 256, j * 256, n);
    }
}

/// Finds the tile of `n` that holds byte `x`, starting the search at tile `k`.
proof fn lemma_find_tile(x: int, n: int, k: int) -> (r: int)
    requires
        1 <= n <= 256,
        0 <= k < n,
        k * 256 / n <= x < 256,
    ensures
        k <= r < n,
        r * 256 / n <= x < (r + 1) * 256 / n,
    decreases n - k,
{
    law_tiles_cover_all_bytes(n);
    if x < (k + 1) * 256 / n {
        k
    } else {
        lemma_find_tile(x, n, k + 1)
    }
}

/// Sizes from 1 to 256 are kept as given; others are brought into `1..=256`.
pub proof fn law_clamp_dim_keeps_valid_sizes(n: u32)
    ensures
        1 <= clamp_dim_spec(n) <= 256,
        1 <= n <= 256 ==> clamp_dim_spec(n) == n,
        n == 0 ==> clamp_dim_spec(n) == 1,
        n > 256 ==> clamp_dim_spec(n) == 256,
{
}

/// An empty ramp draws with the two characters `' '` (dim) and `'#'` (bright); a
/// given ramp is used as it is.
pub proof fn law_empty_ramp_is_space_hash(ramp: Seq<char>)
    ensures
        ramp.len() == 0 ==> effective_ramp(ramp) == seq![' ', '#'],
        ramp.len() > 0 ==> effective_ramp(ramp) == ramp,
{
}

/// A tile with a count in a non-empty digraph is drawn with the ramp character at
/// the tone's position, or with the last character when the tone reaches past it.
pub proof fn law_glyph_follows_tone(ramp: Seq<char>, max: u32, v: u32, level: usize)
    requires
        ramp.len() >= 1,
        max > 0,
        v > 0,
    ensures
        level < ramp.len() - 1 ==> glyph(ramp, max, v, level) == ramp[level as int],
        level >= ramp.len() - 1 ==> glyph(ramp, max, v, level) == ramp[ramp.len() - 1],
{
}

/// The picture has `rows` lines of `cols` characters and a newline, where `rows` and
/// `cols` are the requested sizes clamped to `1..=256`.
pub proof fn law_ascii_picture_size<F: Fn(u32, u32, usize) -> usize>(
    tone: F,
    counts: Seq<u32>,
    max: u32,
    params: AsciiParams,
    s: Seq<char>,
)
    requires
        is_ascii_rendering(tone, counts, max, params, s),
    ensures
        ({
            let rows: int = if params.rows < 1 {
                1
            } else if params.rows > 256 {
                256
            } else {
                params.rows as int
            };
            let cols: int = if params.cols < 1 {
                1
            } else if params.cols > 256 {
                256
            } else {
                params.cols as int
            };
            &&& s.len() == rows * (cols + 1)
            &&& forall|r: int| 0 <= r < rows ==> #[trigger] s[r * (cols + 1) + cols] == '\n'
        }),
{
    let rows = clamp_dim_spec(params.rows) as int;
    let cols = clamp_dim_spec(params.cols) as int;
    let ramp = effective_ramp(params.ramp@);
    let levels = choose|levels: Seq<usize>|
        {
            &&& levels.len() == rows * (cols + 1)
            &&& tones_fit(tone, counts, max, rows, cols, (ramp.len() - 1) as usize, levels)
            &&& s == ascii_text(counts, max, rows, cols, ramp, levels)
        };
    assert forall|r: int| 0 <= r < rows implies #[trigger] s[r * (cols + 1) + cols] == '\n' by {
        law_ascii_shape(counts, max, rows, cols, ramp, levels, r, cols);
    }
}

/// A tile with no pair in it, and every tile of a digraph whose largest count is 0,
/// is drawn with the ramp's first (dimmest) character.
pub proof fn law_ascii_dim_tiles<F: Fn(u32, u32, usize) -> usize>(
    tone: F,
    counts: Seq<u32>,
    max: u32,
    params: AsciiParams,
    s: Seq<char>,
    r: int,
    c: int,
)
    requires
        is_ascii_rendering(tone, counts, max, params, s),
        0 <= r < (if params.rows < 1 {
            1
        } else if params.rows > 256 {
            256
        } else {
            params.rows as int
        }),
        0 <= c < (if params.cols < 1 {
            1
        } else if params.cols > 256 {
            256
        } else {
            params.cols as int
        }),
    ensures
        ({
            let rows: int = if params.rows < 1 {
                1
            } else if params.rows > 256 {
                256
            } else {
                params.rows as int
            };
            let cols: int = if params.cols < 1 {
                1
            } else if params.cols > 256 {
                256
            } else {
                params.cols as int
            };
            let ramp = if params.ramp@.len() == 0 {
                seq![' ', '#']
            } else {
                params.ramp@
            };
            (max == 0 || forall|x: int, y: int|
                r * 256 / rows <= x < (r + 1) * 256 / rows && c * 256 / cols <= y < (c + 1) * 256
                    / cols ==> #[trigger] counts[x * 256 + y] == 0) ==> s[r * (cols + 1) + c]
                == ramp[0]
        }),
{
    let rows = clamp_dim_spec(params.rows) as int;
    let cols = clamp_dim_spec(params.cols) as int;
    let ramp = effective_ramp(params.ramp@);
    let levels = choose|levels: Seq<usize>|
        {
            &&& levels.len() == rows * (cols + 1)
            &&& tones_fit(tone, counts, max, rows, cols, (ramp.len() - 1) as usize, levels)
            &&& s == ascii_text(counts, max, rows, cols, ramp, levels)
        };
    let x0 = r * 256 / rows;
    let x1 = (r + 1) * 256 / rows;
    let y0 = c * 256 / cols;
    let y1 = (c + 1) * 256 / cols;
    lemma_tile_max_of_is_tile_max(counts, x0, x1, y0, y1);
    let v = tile_max_of(counts, x0, x1, y0, y1);
    if v != 0 {
        let (a, b) = choose|a: int, b: int|
            x0 <= a < x1 && y0 <= b < y1 && #[trigger] cell_at(counts, a, b) == v;
        assert(counts[a * 256 + b] == v);
    }
    law_ascii_shape(counts, max, rows, cols, ramp, levels, r, c);
}

/// Every pair is drawn: for each cell `(x, y)` of a non-empty digraph with a
/// non-zero count, the picture's row `r` and column `c` whose byte ranges
/// `r * 256 / rows .. (r + 1) * 256 / rows` and `c * 256 / cols .. (c + 1) * 256 / cols`
/// hold `x` and `y` show a tile whose largest count `v` is at least that cell's
/// count, drawn with the ramp character at the position `level` that the tone gave
/// for `v` (the last character when `level` reaches past it). The ramp is the given
/// one, or `" #"` when it is empty; `rows` and `cols` are clamped to `1..=256`.
pub proof fn law_ascii_draws_every_pair<F: Fn(u32, u32, usize) -> usize>(
    tone: F,
    counts: Seq<u32>,
    max: u32,
    params: AsciiParams,
    s: Seq<char>,
    x: int,
    y: int,
) -> (w: (int, int, u32, usize))
    requires
        is_ascii_rendering(tone, counts, max, params, s),
        counts.len() == 65536,
        0 <= x < 256,
        0 <= y < 256,
        counts[x * 256 + y] > 0,
        max > 0,
    ensures
        ({
            let rows: int = if params.rows < 1 {
                1
            } else if params.rows > 256 {
                256
            } else {
                params.rows as int
            };
            let cols: int = if params.cols < 1 {
                1
            } else if params.cols > 256 {
                256
            } else {
                params.cols as int
            };
            let ramp = if params.ramp@.len() == 0 {
                seq![' ', '#']
            } else {
                params.ramp@
            };
            let last = ramp.len() - 1;
            let (r, c, v, level) = w;
            &&& 0 <= r < rows
            &&& 0 <= c < cols
            &&& r * 256 / rows <= x < (r + 1) * 256 / rows
            &&& c * 256 / cols <= y < (c + 1) * 256 / cols
            &&& is_tile_max(
                v,
                counts,
                r * 256 / rows,
                (r + 1) * 256 / rows,
                c * 256 / cols,
                (c + 1) * 256 / cols,
            )
            &&& v >= counts[x * 256 + y]
            &&& call_ensures(tone, (v, max, last as usize), level)
            &&& s[r * (cols + 1) + c] == if level < last {
                ramp[level as int]
            } else {
                ramp[last]
            }
        }),
{
    let rows = clamp_dim_spec(params.rows) as int;
    let cols = clamp_dim_spec(params.cols) as int;
    let ramp = effective_ramp(params.ramp@);
    let last = (ramp.len() - 1) as usize;
    let levels = choose|levels: Seq<usize>|
        {
            &&& levels.len() == rows * (cols + 1)
            &&& tones_fit(tone, counts, max, rows, cols, last, levels)
            &&& s == ascii_text(counts, max, rows, cols, ramp, levels)
        };
    law_tiles_cover_all_bytes(rows);
    law_tiles_cover_all_bytes(cols);
    assert(0int * 256 / rows == 0);
    assert(0int * 256 / cols == 0);
    let r = lemma_find_tile(x, rows, 0);
    let c = lemma_find_tile(y, cols, 0);
    let x0 = r * 256 / rows;
    let x1 = (r + 1) * 256 / rows;
    let y0 = c * 256 / cols;
    let y1 = (c + 1) * 256 / cols;
    lemma_tile_max_of_is_tile_max(counts, x0, x1, y0, y1);
    let v = tile_max_of(counts, x0, x1, y0, y1);
    assert(cell_at(counts, x, y) <= v);
    let p = r * (cols + 1) + c;
    lemma_fundamental_div_mod_converse(p, cols + 1, r, c);
    assert(0 <= p < rows * (cols + 1)) by (nonlinear_arith)
        requires
            p == r * (cols + 1) + c,
            0 <= r < rows,
            0 <= c < cols,
    ;
    assert(tile_value(counts, rows, cols, r, c) == v);
    let level = levels[p];
    assert(call_ensures(tone, (v, max, last), levels[p]));
    assert(s[p] == ascii_char(counts, max, rows, cols, ramp, levels[p], p));
    (r, c, v, level)
}

/// The largest count among first bytes `x0..x1` and second bytes `y0..y1`.
fn tile_max(digraph: &Digraph, x0: u32, x1: u32, y0: u32, y1: u32) -> (m: u32)
    requires
        digraph.wf(),
        x0 <= x1 <= 256,
        y0 <= y1 <= 256,
    ensures
        is_tile_max(m, digraph@, x0 as int, x1 as int, y0 as int, y1 as int),
{
    let mut m: u32 = 0;
    let mut x = x0;
    while x < x1
        invariant
            x0 <= x <= x1 <= 256,
            y0 <= y1 <= 256,
            digraph.wf(),
            forall|a: int, b: int|
                x0 <= a < x && y0 <= b < y1 ==> #[trigger] cell_at(digraph@, a, b) <= m,
            m == 0 || exists|a: int, b: int|
                x0 <= a < x && y0 <= b < y1 && #[trigger] cell_at(digraph@, a, b) == m,
        decreases x1 - x,
    {
        let mut y = y0;
        while y < y1
            invariant
                x0 <= x < x1 <= 256,
                y0 <= y <= y1 <= 256,
                digraph.wf(),
                forall|a: int, b: int|
                    ((x0 <= a < x && y0 <= b < y1) || (a == x && y0 <= b < y)) ==> #[trigger] cell_at(
                        digraph@,
                        a,
                        b,
                    ) <= m,
                m == 0 || exists|a: int, b: int|
                    ((x0 <= a < x && y0 <= b < y1) || (a == x && y0 <= b < y)) && #[trigger] cell_at(
                        digraph@,
                        a,
                        b,
                    ) == m,
            decreases y1 - y,
        {
            let c = digraph.get(x as u8, y as u8);
            assert(cell_index(x as u8, y as u8) == x * 256 + y);
            assert(c == cell_at(digraph@, x as int, y as int));
            if c > m {
                m = c;
            }
            y += 1;
        }
        x += 1;
    }
    m
}

/// Collects the characters of `s` in order.
fn chars_of(s: &String) -> (v: Vec<char>)
    ensures
        v@ == s@,
{
    broadcast use vstd::string::group_string_axioms;

    let mut v: Vec<char> = Vec::new();
    for c in it: s.as_str().chars()
        invariant
            v@ == it.seq().take(it.index() as int),
    {
        v.push(c);
    }
    assert(v@ =~= s@);
    v
}

/// The `String` holding exactly `chars`, in order (std's `FromIterator<&char>` for
/// `String`; the contract claims that the collected string is those characters).
#[verifier::external_body]
fn string_from_chars(chars: &Vec<char>) -> (s: String)
    ensures
        s@ == chars@,
{
    chars.iter().collect()
}

/// Renders a downsampled digraph as newline-terminated rows of characters.
///
/// The grid has `rows` × `cols` characters (each clamped to `1..=256`); row `r`
/// covers first bytes `r * 256 / rows .. (r + 1) * 256 / rows` and column `c`
/// second bytes likewise. A tile is drawn from its largest count `v`: with the
/// dimmest character when `v` or the digraph's largest count is 0, else with the
/// ramp position `tone(v, max, last)` capped at the last position `last`.
pub fn render_ascii<F: Fn(u32, u32, usize) -> usize>(
    digraph: &Digraph,
    params: AsciiParams,
    tone: F,
) -> (s: String)
    requires
        digraph.wf(),
        forall|v: u32, m: u32, l: usize| call_requires(tone, (v, m, l)),
    ensures
        is_ascii_rendering(tone, digraph@, digraph.max_spec(), params, s@),
{
    let cols = clamp_dim(params.cols);
    let rows = clamp_dim(params.rows);
    let ramp_vec = chars_of(&params.ramp);
    let mut ramp: Vec<char> = ramp_vec;
    if ramp.len() == 0 {
        ramp.push(' ');
        ramp.push('#');
    }
    let ghost rampg = effective_ramp(params.ramp@);
    assert(ramp@ =~= rampg);
    let max = digraph.max_count();
    let last = ramp.len() - 1;
    let ghost counts = digraph@;
    let ghost rows_i = rows as int;
    let ghost cols_i = cols as int;
    let mut out: Vec<char> = Vec::new();
    let ghost mut levels: Seq<usize> = Seq::empty();
    let mut row: u32 = 0;
    while row < rows
        invariant
            1 <= rows <= 256,
            1 <= cols <= 256,
            rows_i == rows,
            cols_i == cols,
            row <= rows,
            ramp@ == rampg,
            rampg.len() >= 1,
            last == rampg.len() - 1,
            digraph.wf(),
            counts == digraph@,
            max == digraph.max_spec(),
            forall|v: u32, m: u32, l: usize| call_requires(tone, (v, m, l)),
            out@.len() == row * (cols + 1),
            levels.len() == out@.len(),
            forall|p: int|
                0 <= p < out@.len() ==> #[trigger] out@[p] == ascii_char(
                    counts,
                    max,
                    rows_i,
                    cols_i,
                    rampg,
                    levels[p],
                    p,
                ),
            tones_fit(tone, counts, max, rows_i, cols_i, last, levels),
        decreases rows - row,
    {
        let first0 = row * 256 / rows;
        let first1 = (row + 1) * 256 / rows;
        proof {
            lemma_tile_bounds(row as int, rows as int);
        }
        let mut col: u32 = 0;
        while col < cols
            invariant
                1 <= rows <= 256,
                1 <= cols <= 256,
                rows_i == rows,
                cols_i == cols,
                row < rows,
                col <= cols,
                first0 == tile_lo(row as int, rows as int),
                first1 == tile_lo(row + 1, rows as int),
                first0 <= first1 <= 256,
                ramp@ == rampg,
                rampg.len() >= 1,
                last == rampg.len() - 1,
                digraph.wf(),
                counts == digraph@,
                max == digraph.max_spec(),
                forall|v: u32, m: u32, l: usize| call_requires(tone, (v, m, l)),
                out@.len() == row * (cols + 1) + col,
                levels.len() == out@.len(),
                forall|p: int|
                    0 <= p < out@.len() ==> #[trigger] out@[p] == ascii_char(
                        counts,
                        max,
                        rows_i,
                        cols_i,
                        rampg,
                        levels[p],
                        p,
                    ),
                tones_fit(tone, counts, max, rows_i, cols_i, last, levels),
            decreases cols - col,
        {
            let second0 = col * 256 / cols;
            let second1 = (col + 1) * 256 / cols;
            proof {
                lemma_tile_bounds(col as int, cols as int);
            }
            let v = tile_max(digraph, first0, first1, second0, second1);
            proof {
                lemma_tile_max_unique(
                    v,
                    counts,
                    first0 as int,
                    first1 as int,
                    second0 as int,
                    second1 as int,
                );
            }
            let ghost mut level: usize = 0;
            let ch = if max == 0 || v == 0 {
                ramp[0]
            } else {
                let i = tone(v, max, last);
                proof {
                    level = i;
                }
                let idx = if i < last {
                    i
                } else {
                    last
                };
                ramp[idx]
            };
            let ghost p = out@.len() as int;
            proof {
                lemma_fundamental_div_mod_converse(p, cols + 1, row as int, col as int);
                assert(tile_value(counts, rows_i, cols_i, row as int, col as int) == v);
            }
            out.push(ch);
            proof {
                levels = levels.push(level);
                assert(out@[p] == ascii_char(counts, max, rows_i, cols_i, rampg, levels[p], p));
            }
            col += 1;
        }
        let ghost p = out@.len() as int;
        proof {
            lemma_fundamental_div_mod_converse(p, cols + 1, row as int, cols as int);
        }
        out.push('\n');
        proof {
            levels = levels.push(0usize);
            assert(out@[p] == ascii_char(counts, max, rows_i, cols_i, rampg, levels[p], p));
            assert(row * (cols + 1) + cols + 1 == (row + 1) * (cols + 1)) by (nonlinear_arith);
        }
        row += 1;
    }
    proof {
        assert(out@ =~= ascii_text(counts, max, rows_i, cols_i, rampg, levels));
    }
    string_from_chars(&out)
}

} // verus!
