//! Core digraph type and construction.

use vstd::prelude::*;

use crate::accumulate::{
    accumulate_non_overlapping, accumulate_overlapping, accumulated, carry_seq, cell_index,
    histogram, index, is_largest, law_accumulate_compose, law_stream_split, lemma_zero_largest,
    pairs_of, pending_of, zero_counts, StreamState, CELLS,
};

use crate::render::ascii::{is_ascii_rendering, render_ascii, AsciiParams};
use crate::render::raster::{
    is_raster_rendering, raster_side, render_rgba_pixels, RenderParams, RgbaPixmap,
};

use vstd::arithmetic::div_mod::lemma_fundamental_div_mod_converse;

verus! {

/// How consecutive bytes are grouped into pairs.
#[derive(Clone, Copy, Debug, PartialEq, Eq, Hash)]
pub enum Mode {
    /// Pairs `(b[i], b[i+1])`, `(b[i+1], b[i+2])`, …
    Overlapping,
    /// Pairs `(b[0], b[1])`, `(b[2], b[3])`, …
    NonOverlapping,
}

impl Mode {
    /// The name of the mode as it is shown to users.
    pub open spec fn name(self) -> Seq<char> {
        match self {
            Mode::Overlapping => "overlapping"@,
            Mode::NonOverlapping => "non-overlapping"@,
        }
    }

    /// `"overlapping"` or `"non-overlapping"`.
    pub fn to_string(&self) -> (s: String)
        ensures
            s@ == self.name(),
    {
        match self {
            Mode::Overlapping => "overlapping".to_owned(),
            Mode::NonOverlapping => "non-overlapping".to_owned(),
        }
    }
}

/// 256×256 histogram of byte bigrams: [`Digraph::get`]`(x, y)` counts pairs with
/// first byte `x` and second byte `y`. Heatmaps place that cell at image column `y`
/// and row `x`.
#[derive(Debug, PartialEq, Eq)]
pub struct Digraph {
    counts: Vec<u32>,
    max_count: u32,
}

impl View for Digraph {
    type V = Seq<u32>;

    /// The counts in row-major order: cell `(x, y)` at `x * 256 + y`.
    closed spec fn view(&self) -> Seq<u32> {
        self.counts@
    }
}

impl Digraph {
    /// The largest count, as the digraph keeps it.
    pub closed spec fn max_spec(&self) -> u32 {
        self.max_count
    }

    /// A digraph has one counter per cell, and keeps the largest of them.
    pub open spec fn wf(&self) -> bool {
        &&& self@.len() == 65536
        &&& is_largest(self.max_spec(), self@)
    }

    /// All-zero digraph.
    pub fn empty() -> (d: Self)
        ensures
            d.wf(),
            d@ == zero_counts(),
    {
        let mut counts: Vec<u32> = Vec::with_capacity(CELLS);
        let mut i: usize = 0;
        while i < CELLS
            invariant
                i <= CELLS,
                counts@.len() == i,
                forall|k: int| 0 <= k < i ==> counts@[k] == 0,
            decreases CELLS - i,
        {
            counts.push(0);
            i += 1;
        }
        proof {
            assert(counts@ =~= zero_counts());
            lemma_zero_largest();
        }
        Self { counts, max_count: 0 }
    }

    /// A digraph with the given counts, if there is one per cell; its largest count is
    /// computed from them.
    pub fn from_counts(counts: Vec<u32>) -> (r: Option<Self>)
        ensures
            r is Some <==> counts@.len() == 65536,
            r matches Some(d) ==> d.wf() && d@ == counts@,
    {
        if counts.len() != CELLS {
            return None;
        }
        let mut d = Self { counts, max_count: 0 };
        d.refresh_max_count();
        Some(d)
    }

    /// Builds a digraph from a byte slice using [`Mode::Overlapping`].
    pub fn from_bytes(data: &[u8]) -> (d: Self)
        ensures
            d.wf(),
            d@ == histogram(Mode::Overlapping, data@),
    {
        Self::from_bytes_with_mode(data, Mode::Overlapping)
    }

    /// Builds a digraph from a byte slice.
    pub fn from_bytes_with_mode(data: &[u8], mode: Mode) -> (d: Self)
        ensures
            d.wf(),
            d@ == histogram(mode, data@),
    {
        let mut d = Self::empty();
        d.add_bytes_with_mode(data, mode);
        d
    }

    /// Adds counts from `data` using [`Mode::Overlapping`].
    pub fn add_bytes(&mut self, data: &[u8])
        requires
            old(self).wf(),
        ensures
            final(self).wf(),
            final(self)@ == accumulated(old(self)@, pairs_of(Mode::Overlapping, data@)),
    {
        self.add_bytes_with_mode(data, Mode::Overlapping);
    }

    /// Adds counts from `data` using the given mode (independent of any prior `add_*` calls).
    pub fn add_bytes_with_mode(&mut self, data: &[u8], mode: Mode)
        requires
            old(self).wf(),
        ensures
            final(self).wf(),
            final(self)@ == accumulated(old(self)@, pairs_of(mode, data@)),
    {
        match mode {
            Mode::Overlapping => {
                accumulate_overlapping(self.counts.as_mut_slice(), &mut self.max_count, data)
            },
            Mode::NonOverlapping => {
                accumulate_non_overlapping(self.counts.as_mut_slice(), &mut self.max_count, data)
            },
        }
    }

    /// Number of cells (always 65_536).
    pub fn len(&self) -> (n: usize)
        ensures
            n == 65536,
            self.wf() ==> n == self@.len(),
    {
        CELLS
    }

    /// Never empty: there is always one counter per cell.
    pub fn is_empty(&self) -> (b: bool)
        ensures
            !b,
            self.wf() ==> b == (self@.len() == 0),
    {
        false
    }

    /// Raw counts in row-major order: index `(x << 8) | y` for pair `(x, y)`.
    pub fn counts(&self) -> (c: &[u32])
        ensures
            c@ == self@,
    {
        self.counts.as_slice()
    }

    /// Largest cell value after construction / additions.
    pub fn max_count(&self) -> (m: u32)
        ensures
            m == self.max_spec(),
            self.wf() ==> is_largest(m, self@),
    {
        self.max_count
    }

    /// How many pairs `(x, y)` were counted (saturating at `u32::MAX`).
    pub fn get(&self, x: u8, y: u8) -> (c: u32)
        requires
            self.wf(),
        ensures
            c == self@[cell_index(x, y)],
    {
        self.counts[index(x, y)]
    }

    /// Recomputes `max_count` from cells.
    pub fn refresh_max_count(&mut self)
        requires
            old(self)@.len() == 65536,
        ensures
            final(self)@ == old(self)@,
            final(self).wf(),
            old(self).wf() ==> final(self).max_spec() == old(self).max_spec(),
    {
        let mut m: u32 = 0;
        let mut i: usize = 0;
        let n = self.counts.len();
        while i < n
            invariant
                n == self.counts@.len(),
                i <= n,
                forall|k: int| 0 <= k < i ==> self.counts@[k] <= m,
                (i == 0 && m == 0) || exists|k: int| 0 <= k < i && self.counts@[k] == m,
            decreases n - i,
        {
            if self.counts[i] > m {
                m = self.counts[i];
            }
            i += 1;
        }
        proof {
            if m == 0 && n > 0 && !(exists|k: int| 0 <= k < n && self.counts@[k] == m) {
                assert(self.counts@[0] == 0);
            }
            if old(self).wf() {
                let j = choose|j: int| 0 <= j < n && self.counts@[j] == m;
                let j2 = choose|j: int| 0 <= j < n && self.counts@[j] == old(self).max_count;
                assert(self.counts@[j2] <= m);
                assert(self.counts@[j] <= old(self).max_count);
            }
        }
        self.max_count = m;
    }
}

impl Digraph {
    /// Renders a downsampled ASCII heatmap; `tone(v, max, last)` picks the ramp
    /// position of a tile whose largest count is `v` (see [`render_ascii`]).
    pub fn to_ascii<F: Fn(u32, u32, usize) -> usize>(&self, params: AsciiParams, tone: F) -> (s:
        String)
        requires
            self.wf(),
            forall|v: u32, m: u32, l: usize| call_requires(tone, (v, m, l)),
        ensures
            is_ascii_rendering(tone, self@, self.max_spec(), params, s@),
    {
        render_ascii(self, params, tone)
    }

    /// Renders the heatmap as raw RGBA8 pixels; `paint(v, max)` gives the color of
    /// a cell with count `v` (see [`render_rgba_pixels`]).
    pub fn to_rgba_pixels<F: Fn(u32, u32) -> [u8; 4]>(&self, params: RenderParams, paint: F) -> (p:
        RgbaPixmap)
        requires
            self.wf(),
            forall|v: u32, m: u32| call_requires(paint, (v, m)),
            raster_side(params.cell_pixels) * raster_side(params.cell_pixels) * 4 <= usize::MAX,
        ensures
            is_raster_rendering(paint, self@, self.max_spec(), params.cell_pixels, p),
    {
        render_rgba_pixels(self, params, paint)
    }

    /// The cells with a non-zero count, as `(first, second, count)`, in row-major
    /// order.
    pub fn nonzero_cells(&self) -> (cells: Vec<(u8, u8, u32)>)
        requires
            self.wf(),
        ensures
            cells@ == nonzero_cells_spec(self@),
    {
        let mut out: Vec<(u8, u8, u32)> = Vec::new();
        let ghost all = all_cells(self@);
        let mut first: u16 = 0;
        proof {
            reveal_with_fuel(Seq::<(u8, u8, u32)>::filter, 1);
            assert(all.take(0) =~= Seq::<(u8, u8, u32)>::empty());
        }
        while first < 256
            invariant
                first <= 256,
                self.wf(),
                all == all_cells(self@),
                out@ == all.take(first * 256).filter(is_nonzero_cell()),
            decreases 256 - first,
        {
            let mut second: u16 = 0;
            while second < 256
                invariant
                    first < 256,
                    second <= 256,
                    self.wf(),
                    all == all_cells(self@),
                    out@ == all.take(first * 256 + second).filter(is_nonzero_cell()),
                decreases 256 - second,
            {
                let ghost k = first as int * 256 + second as int;
                let c = self.get(first as u8, second as u8);
                proof {
                    lemma_fundamental_div_mod_converse(k, 256, first as int, second as int);
                    assert(all[k] == (first as u8, second as u8, c));
                    assert(all.take(k + 1).drop_last() =~= all.take(k));
                    assert(all.take(k + 1).last() == all[k]);
                    reveal_with_fuel(Seq::<(u8, u8, u32)>::filter, 1);
                }
                if c != 0 {
                    out.push((first as u8, second as u8, c));
                }
                second += 1;
            }
            first += 1;
        }
        proof {
            assert(all.take(65536) =~= all);
        }
        out
    }
}

/// Every cell as `(first, second, count)`, in row-major order.
pub open spec fn all_cells(counts: Seq<u32>) -> Seq<(u8, u8, u32)> {
    Seq::new(counts.len(), |k: int| ((k / 256) as u8, (k % 256) as u8, counts[k]))
}

/// Whether a cell entry has a non-zero count.
pub open spec fn is_nonzero_cell() -> spec_fn((u8, u8, u32)) -> bool {
    |e: (u8, u8, u32)| e.2 != 0
}

/// The cells with a non-zero count, in row-major order.
pub open spec fn nonzero_cells_spec(counts: Seq<u32>) -> Seq<(u8, u8, u32)> {
    all_cells(counts).filter(is_nonzero_cell())
}

impl Clone for Digraph {
    /// A digraph with the same counts and the same largest count.
    fn clone(&self) -> (d: Self)
        ensures
            d@ == self@,
            d.max_spec() == self.max_spec(),
    {
        let counts = self.counts.clone();
        proof {
            assert(counts@ =~= self.counts@);
        }
        Digraph { counts, max_count: self.max_count }
    }
}

impl Default for Digraph {
    /// The all-zero digraph.
    fn default() -> (d: Self)
        ensures
            d.wf(),
            d@ == zero_counts(),
    {
        Self::empty()
    }
}

/// Incremental digraph builder that keeps pair continuity across chunk boundaries.
pub struct DigraphBuilder {
    digraph: Digraph,
    stream: StreamState,
    seen: Ghost<Seq<u8>>,
}

impl DigraphBuilder {
    /// All bytes pushed so far, in order.
    pub closed spec fn seen(&self) -> Seq<u8> {
        self.seen@
    }

    /// The pairing mode of the builder.
    pub closed spec fn builder_mode(&self) -> Mode {
        self.stream.stream_mode()
    }

    /// The builder's digraph counts the pairs of everything pushed so far, as if it
    /// had been pushed in one piece.
    pub closed spec fn wf(&self) -> bool {
        &&& self.digraph.wf()
        &&& self.digraph@ == histogram(self.stream.stream_mode(), self.seen@)
        &&& self.stream.carry() == pending_of(self.stream.stream_mode(), self.seen@)
    }

    /// A builder that has seen no byte yet.
    pub fn new(mode: Mode) -> (b: Self)
        ensures
            b.wf(),
            b.builder_mode() == mode,
            b.seen() == Seq::<u8>::empty(),
    {
        let digraph = Digraph::empty();
        let stream = StreamState::new(mode);
        proof {
            assert(pairs_of(mode, Seq::<u8>::empty()) =~= Seq::<(u8, u8)>::empty());
            crate::accumulate::lemma_accumulated_empty(zero_counts());
        }
        Self { digraph, stream, seen: Ghost(Seq::empty()) }
    }

    /// The pairing mode given at construction.
    pub fn mode(&self) -> (m: Mode)
        ensures
            m == self.builder_mode(),
    {
        self.stream.mode()
    }

    /// Counts the pairs of `bytes`, continuing the pairing of the bytes pushed before.
    pub fn push_bytes(&mut self, bytes: &[u8])
        requires
            old(self).wf(),
        ensures
            final(self).wf(),
            final(self).builder_mode() == old(self).builder_mode(),
            final(self).seen() == old(self).seen() + bytes@,
    {
        let ghost mode = self.stream.stream_mode();
        let ghost seen = self.seen@;
        let ghost carry = self.stream.carry();
        self.stream.push(self.digraph.counts.as_mut_slice(), &mut self.digraph.max_count, bytes);
        proof {
            law_stream_split(mode, seen, bytes@);
            law_accumulate_compose(
                zero_counts(),
                pairs_of(mode, seen),
                pairs_of(mode, carry_seq(carry) + bytes@),
            );
        }
        self.seen = Ghost(seen + bytes@);
    }

    /// The digraph of all bytes pushed.
    pub fn finish(self) -> (d: Digraph)
        requires
            self.wf(),
        ensures
            d.wf(),
            d@ == histogram(self.builder_mode(), self.seen()),
    {
        self.digraph
    }

    /// The digraph of all bytes pushed so far.
    pub fn digraph_ref(&self) -> (d: &Digraph)
        requires
            self.wf(),
        ensures
            d.wf(),
            d@ == histogram(self.builder_mode(), self.seen()),
    {
        &self.digraph
    }
}

} // verus!
