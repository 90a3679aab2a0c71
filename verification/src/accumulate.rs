//! Pairing bytes and counting the pairs into a 256×256 grid of saturating counters.

use vstd::prelude::*;

use crate::digraph::Mode;

verus! {

/// Number of cells of the grid: one per ordered pair of bytes.
pub const CELLS: usize = 65536;

/// Position of cell `(x, y)` in the row-major counts.
pub open spec fn cell_index(x: u8, y: u8) -> int {
    x as int * 256 + y as int
}

/// Position of the cell that counts pair `p`.
pub open spec fn pair_index(p: (u8, u8)) -> int {
    cell_index(p.0, p.1)
}

/// The pairs `(b[i], b[i + 1])` for every `i` with `i + 1 < b.len()`.
pub open spec fn overlapping_pairs(b: Seq<u8>) -> Seq<(u8, u8)> {
    if b.len() == 0 {
        Seq::empty()
    } else {
        Seq::new((b.len() - 1) as nat, |i: int| (b[i], b[i + 1]))
    }
}

/// The pairs `(b[2i], b[2i + 1])`; a trailing odd byte forms no pair.
pub open spec fn non_overlapping_pairs(b: Seq<u8>) -> Seq<(u8, u8)> {
    Seq::new(b.len() / 2, |i: int| (b[2 * i], b[2 * i + 1]))
}

/// The pairs that `mode` takes from `b`, in stream order.
pub open spec fn pairs_of(mode: Mode, b: Seq<u8>) -> Seq<(u8, u8)> {
    match mode {
        Mode::Overlapping => overlapping_pairs(b),
        Mode::NonOverlapping => non_overlapping_pairs(b),
    }
}

/// How many pairs of `pairs` are counted in cell `k`.
pub open spec fn occurrences(pairs: Seq<(u8, u8)>, k: int) -> nat
    decreases pairs.len(),
{
    if pairs.len() == 0 {
        0
    } else {
        occurrences(pairs.drop_last(), k) + if pair_index(pairs.last()) == k {
            1nat
        } else {
            0nat
        }
    }
}

/// `n` capped at `u32::MAX` (for `n >= 0`).
pub open spec fn saturate(n: int) -> u32 {
    if n > u32::MAX {
        u32::MAX
    } else {
        n as u32
    }
}

/// The counts after every pair of `pairs` has been added to `counts`, each counter
/// saturating at `u32::MAX`.
pub open spec fn accumulated(counts: Seq<u32>, pairs: Seq<(u8, u8)>) -> Seq<u32> {
    Seq::new(counts.len(), |k: int| saturate(counts[k] + occurrences(pairs, k)))
}

/// The all-zero grid.
pub open spec fn zero_counts() -> Seq<u32> {
    Seq::new(65536, |k: int| 0u32)
}

/// The grid that counts the pairs that `mode` takes from `bytes`.
pub open spec fn histogram(mode: Mode, bytes: Seq<u8>) -> Seq<u32> {
    accumulated(zero_counts(), pairs_of(mode, bytes))
}

/// `m` is the largest value of the non-empty `counts`.
pub open spec fn is_largest(m: u32, counts: Seq<u32>) -> bool {
    &&& forall|k: int| 0 <= k < counts.len() ==> #[trigger] counts[k] <= m
    &&& exists|k: int| 0 <= k < counts.len() && #[trigger] counts[k] == m
}

/// The bytes that a carried-over byte stands for.
pub open spec fn carry_seq(carry: Option<u8>) -> Seq<u8> {
    match carry {
        Some(b) => seq![b],
        None => Seq::empty(),
    }
}

/// The byte that must be kept after `s` so that the next chunk continues its pairing:
/// the last byte in overlapping mode, the unpaired last byte in non-overlapping mode.
pub open spec fn pending_of(mode: Mode, s: Seq<u8>) -> Option<u8> {
    match mode {
        Mode::Overlapping => if s.len() > 0 {
            Some(s.last())
        } else {
            None
        },
        Mode::NonOverlapping => if s.len() % 2 == 1 {
            Some(s.last())
        } else {
            None
        },
    }
}

pub proof fn lemma_occurrences_push(p: Seq<(u8, u8)>, q: (u8, u8), k: int)
    ensures
        occurrences(p.push(q), k) == occurrences(p, k) + if pair_index(q) == k {
            1nat
        } else {
            0nat
        },
{
    assert(p.push(q).drop_last() =~= p);
}

pub proof fn lemma_occurrences_concat(p: Seq<(u8, u8)>, q: Seq<(u8, u8)>, k: int)
    ensures
        occurrences(p + q, k) == occurrences(p, k) + occurrences(q, k),
    decreases q.len(),
{
    if q.len() == 0 {
        assert(p + q =~= p);
    } else {
        let r = q.drop_last();
        lemma_occurrences_concat(p, r, k);
        assert(p + q =~= (p + r).push(q.last()));
        assert(q =~= r.push(q.last()));
        lemma_occurrences_push(p + r, q.last(), k);
        lemma_occurrences_push(r, q.last(), k);
    }
}

pub proof fn lemma_accumulated_empty(c: Seq<u32>)
    ensures
        accumulated(c, Seq::empty()) == c,
{
    assert(accumulated(c, Seq::empty()) =~= c);
}

/// Adding one more pair raises exactly its own cell by one, saturating.
pub proof fn lemma_accumulated_push(c: Seq<u32>, p: Seq<(u8, u8)>, q: (u8, u8))
    requires
        c.len() >= 65536,
    ensures
        accumulated(c, p.push(q)) == accumulated(c, p).update(
            pair_index(q),
            saturate(accumulated(c, p)[pair_index(q)] + 1),
        ),
{
    let a = accumulated(c, p);
    let b = accumulated(c, p.push(q));
    assert forall|k: int| 0 <= k < c.len() implies b[k] == a.update(
        pair_index(q),
        saturate(a[pair_index(q)] + 1),
    )[k] by {
        lemma_occurrences_push(p, q, k);
    }
    assert(b =~= a.update(pair_index(q), saturate(a[pair_index(q)] + 1)));
}

/// Adding the pairs `p` and then the pairs `q` is adding the pairs `p + q` at once.
pub proof fn law_accumulate_compose(c: Seq<u32>, p: Seq<(u8, u8)>, q: Seq<(u8, u8)>)
    ensures
        accumulated(accumulated(c, p), q) == accumulated(c, p + q),
{
    assert forall|k: int| 0 <= k < c.len() implies #[trigger] accumulated(
        accumulated(c, p),
        q,
    )[k] == accumulated(c, p + q)[k] by {
        lemma_occurrences_concat(p, q, k);
    }
    assert(accumulated(accumulated(c, p), q) =~= accumulated(c, p + q));
}

pub proof fn lemma_zero_largest()
    ensures
        is_largest(0, zero_counts()),
{
    assert(zero_counts()[0] == 0);
}

/// `m` is the largest of `m0` and the counts, in `counts`, of the cells that some
/// pair of `pairs` fell in.
pub open spec fn tracked_max(m0: u32, m: u32, counts: Seq<u32>, pairs: Seq<(u8, u8)>) -> bool {
    &&& m0 <= m
    &&& forall|k: int|
        0 <= k < counts.len() && #[trigger] occurrences(pairs, k) > 0 ==> counts[k] <= m
    &&& (m == m0 || exists|k: int|
        0 <= k < counts.len() && #[trigger] occurrences(pairs, k) > 0 && counts[k] == m)
}

/// No pair falls outside the 65 536 cells.
pub proof fn lemma_occurrences_out_of_range(p: Seq<(u8, u8)>, k: int)
    requires
        k < 0 || k >= 65536,
    ensures
        occurrences(p, k) == 0,
    decreases p.len(),
{
    if p.len() > 0 {
        lemma_occurrences_out_of_range(p.drop_last(), k);
    }
}

/// Counting pairs changes only the first 65 536 counters, as if they were counted alone.
pub proof fn lemma_accumulated_cells(c: Seq<u32>, p: Seq<(u8, u8)>)
    requires
        c.len() >= 65536,
    ensures
        forall|k: int| 65536 <= k < c.len() ==> #[trigger] accumulated(c, p)[k] == c[k],
        accumulated(c, p).subrange(0, 65536) == accumulated(c.subrange(0, 65536), p),
{
    assert forall|k: int| 65536 <= k < c.len() implies #[trigger] accumulated(c, p)[k] == c[k] by {
        lemma_occurrences_out_of_range(p, k);
    }
    assert(accumulated(c, p).subrange(0, 65536) =~= accumulated(c.subrange(0, 65536), p));
}

pub proof fn lemma_tracked_max_empty(m0: u32, c: Seq<u32>)
    ensures
        tracked_max(m0, m0, c, Seq::empty()),
{
}

/// Raising the cell of one more pair to `v` and the largest to `v` if it is larger
/// keeps the largest tracked.
pub proof fn lemma_tracked_max_push(
    m0: u32,
    m: u32,
    c: Seq<u32>,
    p: Seq<(u8, u8)>,
    q: (u8, u8),
    v: u32,
)
    requires
        tracked_max(m0, m, c, p),
        0 <= pair_index(q) < c.len(),
        c[pair_index(q)] <= v,
    ensures
        tracked_max(m0, if v > m { v } else { m }, c.update(pair_index(q), v), p.push(q)),
{
    let i = pair_index(q);
    let c2 = c.update(i, v);
    let m2 = if v > m { v } else { m };
    let p2 = p.push(q);
    assert forall|k: int| 0 <= k < c2.len() && #[trigger] occurrences(p2, k) > 0 implies c2[k] <= m2 by {
        lemma_occurrences_push(p, q, k);
    }
    lemma_occurrences_push(p, q, i);
    if v > m {
        assert(occurrences(p2, i) > 0 && c2[i] == m2);
    } else if m != m0 {
        let j = choose|j: int| 0 <= j < c.len() && #[trigger] occurrences(p, j) > 0 && c[j] == m;
        lemma_occurrences_push(p, q, j);
        assert(occurrences(p2, j) > 0 && c2[j] == m2);
    }
}

/// Tracking the largest over `p` and then over `q` tracks it over `p + q`.
pub proof fn lemma_tracked_max_compose(
    m0: u32,
    m1: u32,
    m2: u32,
    c1: Seq<u32>,
    p: Seq<(u8, u8)>,
    q: Seq<(u8, u8)>,
)
    requires
        tracked_max(m0, m1, c1, p),
        tracked_max(m1, m2, accumulated(c1, q), q),
    ensures
        tracked_max(m0, m2, accumulated(c1, q), p + q),
{
    let c2 = accumulated(c1, q);
    assert forall|k: int| 0 <= k < c2.len() && #[trigger] occurrences(p + q, k) > 0 implies c2[k]
        <= m2 by {
        lemma_occurrences_concat(p, q, k);
    }
    if m2 != m1 {
        let j = choose|j: int| 0 <= j < c2.len() && #[trigger] occurrences(q, j) > 0 && c2[j] == m2;
        lemma_occurrences_concat(p, q, j);
        assert(occurrences(p + q, j) > 0 && c2[j] == m2);
    } else if m1 != m0 {
        let j = choose|j: int| 0 <= j < c1.len() && #[trigger] occurrences(p, j) > 0 && c1[j] == m1;
        lemma_occurrences_concat(p, q, j);
        assert(occurrences(p + q, j) > 0 && c2[j] == m2);
    }
}

/// When `m0` was the largest count before, the tracked value is the largest after.
pub proof fn lemma_tracked_max_largest(
    m0: u32,
    m: u32,
    c0: Seq<u32>,
    c: Seq<u32>,
    p: Seq<(u8, u8)>,
)
    requires
        c == accumulated(c0, p),
        tracked_max(m0, m, c, p),
        is_largest(m0, c0),
    ensures
        is_largest(m, c),
{
    assert forall|k: int| 0 <= k < c.len() implies #[trigger] c[k] <= m by {
        if occurrences(p, k) > 0 {
        } else {
            assert(c0[k] <= m0);
        }
    }
    if m == m0 {
        let j = choose|j: int| 0 <= j < c0.len() && #[trigger] c0[j] == m0;
        if occurrences(p, j) > 0 {
            assert(c[j] <= m);
        }
        assert(c[j] == m);
    }
}

/// Index of cell `(x, y)` in the row-major counts: `(x << 8) | y`.
pub fn index(x: u8, y: u8) -> (i: usize)
    ensures
        i == cell_index(x, y),
        i < CELLS,
{
    let xs = x as usize;
    let ys = y as usize;
    assert(xs < 256 && ys < 256);
    assert((xs << 8usize) | ys == xs * 256 + ys) by (bit_vector)
        requires
            xs < 256,
            ys < 256,
    ;
    xs << 8usize | ys
}

/// Adds one to the cell of pair `(x, y)`, saturating, and raises `max_count` to the
/// new count if that is larger.
fn bump(counts: &mut [u32], max_count: &mut u32, x: u8, y: u8)
    requires
        old(counts)@.len() >= 65536,
    ensures
        final(counts)@ == old(counts)@.update(
            cell_index(x, y),
            saturate(old(counts)@[cell_index(x, y)] + 1),
        ),
        *final(max_count) == if final(counts)@[cell_index(x, y)] > *old(max_count) {
            final(counts)@[cell_index(x, y)]
        } else {
            *old(max_count)
        },
{
    let idx = index(x, y);
    let c = counts[idx].saturating_add(1);
    counts[idx] = c;
    if c > *max_count {
        *max_count = c;
    }
}

/// Counts the overlapping pairs of `bytes` into the first 65 536 counters of
/// `counts`; `max_count` becomes the largest of its old value and the new counts of
/// the cells that a pair fell in.
pub fn accumulate_overlapping(counts: &mut [u32], max_count: &mut u32, bytes: &[u8])
    requires
        old(counts)@.len() >= 65536,
    ensures
        final(counts)@ == accumulated(old(counts)@, overlapping_pairs(bytes@)),
        final(counts)@.subrange(0, 65536) == accumulated(
            old(counts)@.subrange(0, 65536),
            overlapping_pairs(bytes@),
        ),
        forall|k: int| 65536 <= k < old(counts)@.len() ==> final(counts)@[k] == old(counts)@[k],
        tracked_max(*old(max_count), *final(max_count), final(counts)@, overlapping_pairs(bytes@)),
        is_largest(*old(max_count), old(counts)@) ==> is_largest(
            *final(max_count),
            final(counts)@,
        ),
{
    let ghost start = counts@;
    let ghost m0 = *max_count;
    let ghost pairs = overlapping_pairs(bytes@);
    if bytes.len() < 2 {
        proof {
            assert(pairs =~= Seq::<(u8, u8)>::empty());
            lemma_accumulated_empty(start);
            lemma_tracked_max_empty(m0, start);
            lemma_accumulated_cells(start, pairs);
        }
        return;
    }
    let mut i: usize = 0;
    proof {
        assert(pairs.take(0) =~= Seq::<(u8, u8)>::empty());
        lemma_accumulated_empty(start);
        lemma_tracked_max_empty(m0, start);
    }
    while i + 1 < bytes.len()
        invariant
            bytes.len() >= 2,
            i + 1 <= bytes.len(),
            pairs == overlapping_pairs(bytes@),
            start.len() >= 65536,
            counts@.len() == start.len(),
            counts@ == accumulated(start, pairs.take(i as int)),
            tracked_max(m0, *max_count, counts@, pairs.take(i as int)),
        decreases bytes.len() - i,
    {
        let ghost q = (bytes@[i as int], bytes@[i + 1]);
        proof {
            assert(pairs.take(i + 1) =~= pairs.take(i as int).push(q));
            lemma_accumulated_push(start, pairs.take(i as int), q);
        }
        let ghost before = counts@;
        let ghost m = *max_count;
        bump(counts, max_count, bytes[i], bytes[i + 1]);
        proof {
            lemma_tracked_max_push(m0, m, before, pairs.take(i as int), q, counts@[pair_index(q)]);
        }
        i += 1;
    }
    proof {
        assert(pairs.take(i as int) =~= pairs);
        lemma_accumulated_cells(start, pairs);
        if is_largest(m0, start) {
            lemma_tracked_max_largest(m0, *max_count, start, counts@, pairs);
        }
    }
}

/// Counts the non-overlapping pairs of `bytes` into the first 65 536 counters of
/// `counts`; `max_count` becomes the largest of its old value and the new counts of
/// the cells that a pair fell in.
pub fn accumulate_non_overlapping(counts: &mut [u32], max_count: &mut u32, bytes: &[u8])
    requires
        old(counts)@.len() >= 65536,
    ensures
        final(counts)@ == accumulated(old(counts)@, non_overlapping_pairs(bytes@)),
        final(counts)@.subrange(0, 65536) == accumulated(
            old(counts)@.subrange(0, 65536),
            non_overlapping_pairs(bytes@),
        ),
        forall|k: int| 65536 <= k < old(counts)@.len() ==> final(counts)@[k] == old(counts)@[k],
        tracked_max(
            *old(max_count),
            *final(max_count),
            final(counts)@,
            non_overlapping_pairs(bytes@),
        ),
        is_largest(*old(max_count), old(counts)@) ==> is_largest(
            *final(max_count),
            final(counts)@,
        ),
{
    let ghost start = counts@;
    let ghost m0 = *max_count;
    let ghost pairs = non_overlapping_pairs(bytes@);
    let mut i: usize = 0;
    proof {
        assert(pairs.take(0) =~= Seq::<(u8, u8)>::empty());
        lemma_accumulated_empty(start);
        lemma_tracked_max_empty(m0, start);
    }
    while i + 1 < bytes.len()
        invariant
            i <= bytes.len(),
            i % 2 == 0,
            pairs == non_overlapping_pairs(bytes@),
            start.len() >= 65536,
            counts@.len() == start.len(),
            counts@ == accumulated(start, pairs.take(i as int / 2)),
            tracked_max(m0, *max_count, counts@, pairs.take(i as int / 2)),
        decreases bytes.len() - i,
    {
        let ghost q = (bytes@[i as int], bytes@[i + 1]);
        proof {
            assert(pairs[i as int / 2] == q);
            assert(pairs.take(i as int / 2 + 1) =~= pairs.take(i as int / 2).push(q));
            lemma_accumulated_push(start, pairs.take(i as int / 2), q);
        }
        let ghost before = counts@;
        let ghost m = *max_count;
        bump(counts, max_count, bytes[i], bytes[i + 1]);
        proof {
            lemma_tracked_max_push(
                m0,
                m,
                before,
                pairs.take(i as int / 2),
                q,
                counts@[pair_index(q)],
            );
        }
        i += 2;
    }
    proof {
        assert(pairs.take(i as int / 2) =~= pairs);
        lemma_accumulated_cells(start, pairs);
        if is_largest(m0, start) {
            lemma_tracked_max_largest(m0, *max_count, start, counts@, pairs);
        }
    }
}

/// Pairs of `[x] + b` are `(x, b[0])` followed by the pairs of `b`.
proof fn lemma_overlapping_cons(x: u8, b: Seq<u8>)
    requires
        b.len() > 0,
    ensures
        overlapping_pairs(seq![x] + b) == seq![(x, b[0])] + overlapping_pairs(b),
{
    let s = seq![x] + b;
    assert(overlapping_pairs(s) =~= seq![(x, b[0])] + overlapping_pairs(b)) by {
        assert forall|i: int| 0 <= i < overlapping_pairs(s).len() implies #[trigger] overlapping_pairs(
            s,
        )[i] == (seq![(x, b[0])] + overlapping_pairs(b))[i] by {
            if i > 0 {
                assert(s[i] == b[i - 1]);
                assert(s[i + 1] == b[i]);
            }
        }
    }
}

/// Non-overlapping pairs of `[x] + b` are `(x, b[0])` followed by those of `b[1..]`.
proof fn lemma_non_overlapping_cons(x: u8, b: Seq<u8>)
    requires
        b.len() > 0,
    ensures
        non_overlapping_pairs(seq![x] + b) == seq![(x, b[0])] + non_overlapping_pairs(
            b.subrange(1, b.len() as int),
        ),
{
    let s = seq![x] + b;
    let r = b.subrange(1, b.len() as int);
    let lhs = non_overlapping_pairs(s);
    let rhs = seq![(x, b[0])] + non_overlapping_pairs(r);
    assert(lhs.len() == rhs.len());
    assert forall|i: int| 0 <= i < lhs.len() implies #[trigger] lhs[i] == rhs[i] by {
        if i > 0 {
            assert(s[2 * i] == r[2 * (i - 1)]);
            assert(s[2 * i + 1] == r[2 * (i - 1) + 1]);
        }
    }
    assert(lhs =~= rhs);
}

/// Splitting a stream after an even number of bytes splits its non-overlapping pairs.
proof fn lemma_non_overlapping_concat_even(a: Seq<u8>, c: Seq<u8>)
    requires
        a.len() % 2 == 0,
    ensures
        non_overlapping_pairs(a + c) == non_overlapping_pairs(a) + non_overlapping_pairs(c),
{
    let lhs = non_overlapping_pairs(a + c);
    let rhs = non_overlapping_pairs(a) + non_overlapping_pairs(c);
    assert(lhs.len() == rhs.len());
    assert forall|i: int| 0 <= i < lhs.len() implies #[trigger] lhs[i] == rhs[i] by {
        if i >= a.len() / 2 {
            let j = i - a.len() / 2;
            assert(2 * i == a.len() + 2 * j);
            assert((a + c)[2 * i] == c[2 * j]);
            assert((a + c)[2 * i + 1] == c[2 * j + 1]);
        }
    }
    assert(lhs =~= rhs);
}

/// A trailing odd byte forms no non-overlapping pair.
pub proof fn law_non_overlapping_ignores_odd_tail(a: Seq<u8>)
    requires
        a.len() % 2 == 1,
    ensures
        non_overlapping_pairs(a) == non_overlapping_pairs(a.drop_last()),
{
    assert(non_overlapping_pairs(a) =~= non_overlapping_pairs(a.drop_last()));
}

/// Splitting a non-empty stream splits its overlapping pairs around the pair that
/// joins the two parts.
proof fn lemma_overlapping_concat(a: Seq<u8>, c: Seq<u8>)
    requires
        a.len() > 0,
    ensures
        overlapping_pairs(a + c) == overlapping_pairs(a) + overlapping_pairs(seq![a.last()] + c),
{
    let s = a + c;
    let t = seq![a.last()] + c;
    let lhs = overlapping_pairs(s);
    let rhs = overlapping_pairs(a) + overlapping_pairs(t);
    assert(lhs.len() == rhs.len());
    assert forall|i: int| 0 <= i < lhs.len() implies #[trigger] lhs[i] == rhs[i] by {
        if i >= a.len() - 1 {
            let j = i - (a.len() - 1);
            assert(s[i] == t[j]);
            assert(s[i + 1] == t[j + 1]);
        }
    }
    assert(lhs =~= rhs);
}

/// Reading a stream in two parts, where the second part is read after the byte
/// that the first part leaves pending, gives the pairs of the whole stream, and
/// leaves the same byte pending as the whole stream does.
pub proof fn law_stream_split(mode: Mode, seen: Seq<u8>, b: Seq<u8>)
    ensures
        pairs_of(mode, seen + b) == pairs_of(mode, seen) + pairs_of(
            mode,
            carry_seq(pending_of(mode, seen)) + b,
        ),
        pending_of(mode, seen + b) == pending_of(mode, carry_seq(pending_of(mode, seen)) + b),
{
    let t = carry_seq(pending_of(mode, seen)) + b;
    match mode {
        Mode::Overlapping => {
            if seen.len() == 0 {
                assert(seen + b =~= b);
                assert(t =~= b);
                assert(overlapping_pairs(seen) =~= Seq::<(u8, u8)>::empty());
                assert(pairs_of(mode, seen) + pairs_of(mode, t) =~= pairs_of(mode, t));
            } else {
                lemma_overlapping_concat(seen, b);
                if b.len() == 0 {
                    assert(seen + b =~= seen);
                    assert(t =~= seq![seen.last()]);
                } else {
                    assert((seen + b).last() == b.last());
                    assert(t.last() == b.last());
                }
            }
        },
        Mode::NonOverlapping => {
            if seen.len() % 2 == 0 {
                assert(t =~= b);
                lemma_non_overlapping_concat_even(seen, b);
                if b.len() == 0 {
                    assert(seen + b =~= seen);
                } else {
                    assert((seen + b).last() == b.last());
                }
            } else {
                let s0 = seen.drop_last();
                assert(t =~= seq![seen.last()] + b);
                assert(seen + b =~= s0 + t);
                lemma_non_overlapping_concat_even(s0, t);
                law_non_overlapping_ignores_odd_tail(seen);
                assert(t.last() == (seen + b).last());
            }
        },
    }
}

/// A stream of fewer than two bytes counts nothing, in either mode.
pub proof fn law_short_stream_counts_nothing(mode: Mode, b: Seq<u8>)
    requires
        b.len() < 2,
    ensures
        histogram(mode, b) == zero_counts(),
{
    assert(pairs_of(mode, b) =~= Seq::<(u8, u8)>::empty());
    lemma_accumulated_empty(zero_counts());
}

/// The bytes of `chunks`, one chunk after the other.
pub open spec fn concat_chunks(chunks: Seq<Seq<u8>>) -> Seq<u8>
    decreases chunks.len(),
{
    if chunks.len() == 0 {
        Seq::empty()
    } else {
        concat_chunks(chunks.drop_last()) + chunks.last()
    }
}

/// The counts and the carried byte after a fresh stream in `mode` has been given
/// `chunks` one at a time, each step as [`StreamState::push`] states it.
pub open spec fn stream_run(mode: Mode, chunks: Seq<Seq<u8>>) -> (Seq<u32>, Option<u8>)
    decreases chunks.len(),
{
    if chunks.len() == 0 {
        (zero_counts(), None)
    } else {
        let (counts, carry) = stream_run(mode, chunks.drop_last());
        let t = carry_seq(carry) + chunks.last();
        (accumulated(counts, pairs_of(mode, t)), pending_of(mode, t))
    }
}

/// However a stream is cut into chunks (empty chunks included), feeding the chunks
/// in order counts the pairs of the whole stream and carries the byte that the whole
/// stream leaves pending.
pub proof fn law_stream_chunking(mode: Mode, chunks: Seq<Seq<u8>>)
    ensures
        stream_run(mode, chunks) == (
            histogram(mode, concat_chunks(chunks)),
            pending_of(mode, concat_chunks(chunks)),
        ),
    decreases chunks.len(),
{
    if chunks.len() == 0 {
        law_short_stream_counts_nothing(mode, Seq::empty());
    } else {
        let seen = concat_chunks(chunks.drop_last());
        let b = chunks.last();
        law_stream_chunking(mode, chunks.drop_last());
        law_stream_split(mode, seen, b);
        law_accumulate_compose(
            zero_counts(),
            pairs_of(mode, seen),
            pairs_of(mode, carry_seq(pending_of(mode, seen)) + b),
        );
    }
}

/// The sum of the counts.
pub open spec fn total(s: Seq<u32>) -> int
    decreases s.len(),
{
    if s.len() == 0 {
        0
    } else {
        total(s.drop_last()) + s.last()
    }
}

proof fn lemma_total_update(s: Seq<u32>, i: int, v: u32)
    requires
        0 <= i < s.len(),
    ensures
        total(s.update(i, v)) == total(s) - s[i] + v,
    decreases s.len(),
{
    let t = s.update(i, v);
    if i == s.len() - 1 {
        assert(t.drop_last() =~= s.drop_last());
    } else {
        assert(t.drop_last() =~= s.drop_last().update(i, v));
        lemma_total_update(s.drop_last(), i, v);
    }
}

/// Counting pairs never lowers a counter, and raises the sum of the counters by at
/// most the number of pairs.
pub proof fn law_counts_grow_by_pairs(c: Seq<u32>, p: Seq<(u8, u8)>)
    requires
        c.len() >= 65536,
    ensures
        forall|k: int| 0 <= k < c.len() ==> #[trigger] accumulated(c, p)[k] >= c[k],
        total(accumulated(c, p)) <= total(c) + p.len(),
    decreases p.len(),
{
    if p.len() == 0 {
        assert(p =~= Seq::<(u8, u8)>::empty());
        lemma_accumulated_empty(c);
    } else {
        let r = p.drop_last();
        let q = p.last();
        assert(p =~= r.push(q));
        law_counts_grow_by_pairs(c, r);
        lemma_accumulated_push(c, r, q);
        let a = accumulated(c, r);
        let i = pair_index(q);
        assert(0 <= i < a.len());
        assert(saturate(a[i] + 1) <= a[i] + 1);
        lemma_total_update(a, i, saturate(a[i] + 1));
        assert(accumulated(c, p) == a.update(i, saturate(a[i] + 1)));
    }
}

/// A chunk given after a carried byte completes at most one pair per byte of the chunk.
pub proof fn law_pairs_at_most_bytes(mode: Mode, carry: Option<u8>, b: Seq<u8>)
    ensures
        pairs_of(mode, carry_seq(carry) + b).len() <= b.len(),
{
}

/// One stream step never lowers a counter and raises the sum of the counters by at
/// most the number of bytes given.
pub proof fn law_stream_step_bounds(mode: Mode, carry: Option<u8>, c: Seq<u32>, b: Seq<u8>)
    requires
        c.len() >= 65536,
    ensures
        ({
            let a = accumulated(c, pairs_of(mode, carry_seq(carry) + b));
            &&& forall|k: int| 0 <= k < c.len() ==> #[trigger] a[k] >= c[k]
            &&& total(a) <= total(c) + b.len()
        }),
{
    law_counts_grow_by_pairs(c, pairs_of(mode, carry_seq(carry) + b));
    law_pairs_at_most_bytes(mode, carry, b);
}

/// Before any byte, every one of the 65 536 counters is 0.
pub proof fn law_histogram_starts_at_zero(mode: Mode)
    ensures
        histogram(mode, Seq::empty()).len() == 65536,
        forall|k: int| 0 <= k < 65536 ==> #[trigger] histogram(mode, Seq::empty())[k] == 0,
{
    law_short_stream_counts_nothing(mode, Seq::empty());
}

/// Appending byte `z` to a stream `b` counts at most one new pair, `(b.last(), z)`,
/// in cell `b.last() * 256 + z` (saturating at `u32::MAX`): in overlapping mode
/// whenever `b` is not empty, in non-overlapping mode when `b` has odd length;
/// every other counter stays as it was.
pub proof fn law_histogram_append_byte(mode: Mode, b: Seq<u8>, z: u8)
    ensures
        ({
            let h = histogram(mode, b);
            let h2 = histogram(mode, b.push(z));
            let adds = match mode {
                Mode::Overlapping => b.len() > 0,
                Mode::NonOverlapping => b.len() % 2 == 1,
            };
            &&& h2.len() == 65536
            &&& forall|k: int|
                0 <= k < 65536 ==> #[trigger] h2[k] == if adds && k == b.last() as int * 256
                    + z as int {
                    if h[k] == u32::MAX {
                        u32::MAX
                    } else {
                        (h[k] + 1) as u32
                    }
                } else {
                    h[k]
                }
        }),
{
    let b2 = b.push(z);
    match mode {
        Mode::Overlapping => {
            if b.len() == 0 {
                assert(overlapping_pairs(b) =~= Seq::<(u8, u8)>::empty());
                assert(overlapping_pairs(b2) =~= Seq::<(u8, u8)>::empty());
            } else {
                assert(overlapping_pairs(b2) =~= overlapping_pairs(b).push((b.last(), z)));
                lemma_accumulated_push(zero_counts(), overlapping_pairs(b), (b.last(), z));
            }
        },
        Mode::NonOverlapping => {
            if b.len() % 2 == 0 {
                assert(non_overlapping_pairs(b2) =~= non_overlapping_pairs(b));
            } else {
                assert(non_overlapping_pairs(b2) =~= non_overlapping_pairs(b).push((b.last(), z)));
                lemma_accumulated_push(zero_counts(), non_overlapping_pairs(b), (b.last(), z));
            }
        },
    }
}

/// Feeds bytes into a digraph while preserving pair boundaries across chunks.
#[derive(Debug)]
pub struct StreamState {
    mode: Mode,
    overlapping_prev: Option<u8>,
    non_overlap_pending: Option<u8>,
}

impl StreamState {
    /// The byte kept from earlier chunks to pair with the next one.
    pub closed spec fn carry(&self) -> Option<u8> {
        match self.mode {
            Mode::Overlapping => self.overlapping_prev,
            Mode::NonOverlapping => self.non_overlap_pending,
        }
    }

    /// The pairing mode of this stream.
    pub closed spec fn stream_mode(&self) -> Mode {
        self.mode
    }

    /// The pairing mode of this stream.
    pub fn mode(&self) -> (m: Mode)
        ensures
            m == self.stream_mode(),
    {
        self.mode
    }

    /// A stream that has seen no byte yet.
    pub fn new(mode: Mode) -> (s: Self)
        ensures
            s.stream_mode() == mode,
            s.carry() is None,
    {
        Self { mode, overlapping_prev: None, non_overlap_pending: None }
    }

    /// Counts the pairs that `bytes` completes: those of the carried byte followed
    /// by `bytes`, in this stream's mode; then keeps the byte still waiting for a partner.
    pub fn push(&mut self, counts: &mut [u32], max_count: &mut u32, bytes: &[u8])
        requires
            old(counts)@.len() >= 65536,
        ensures
            final(self).stream_mode() == old(self).stream_mode(),
            final(counts)@ == accumulated(
                old(counts)@,
                pairs_of(old(self).stream_mode(), carry_seq(old(self).carry()) + bytes@),
            ),
            forall|k: int| 65536 <= k < old(counts)@.len() ==> final(counts)@[k] == old(counts)@[k],
            final(self).carry() == pending_of(old(self).stream_mode(), carry_seq(old(self).carry()) + bytes@),
            tracked_max(
                *old(max_count),
                *final(max_count),
                final(counts)@,
                pairs_of(old(self).stream_mode(), carry_seq(old(self).carry()) + bytes@),
            ),
            is_largest(*old(max_count), old(counts)@) ==> is_largest(
                *final(max_count),
                final(counts)@,
            ),
    {
        let ghost start = counts@;
        let ghost m0 = *max_count;
        let ghost mode = self.mode;
        let ghost whole = carry_seq(self.carry()) + bytes@;
        let mut b = bytes;
        let carried = match self.mode {
            Mode::Overlapping => self.overlapping_prev,
            Mode::NonOverlapping => self.non_overlap_pending,
        };
        match carried {
            Some(c) => {
                if b.len() == 0 {
                    proof {
                        assert(whole =~= seq![c]);
                        assert(pairs_of(mode, whole) =~= Seq::<(u8, u8)>::empty());
                        lemma_accumulated_empty(start);
                        lemma_tracked_max_empty(m0, start);
                        lemma_accumulated_cells(start, Seq::empty());
                    }
                    return;
                }
                let ghost q = (c, bytes@[0]);
                proof {
                    lemma_accumulated_empty(start);
                    lemma_accumulated_push(start, Seq::empty(), q);
                    assert(Seq::<(u8, u8)>::empty().push(q) =~= seq![q]);
                    lemma_tracked_max_empty(m0, start);
                    assert(whole =~= seq![c] + bytes@);
                }
                bump(counts, max_count, c, b[0]);
                let ghost mid = counts@;
                let ghost m1 = *max_count;
                proof {
                    lemma_tracked_max_push(m0, m0, start, Seq::empty(), q, mid[pair_index(q)]);
                }
                match self.mode {
                    Mode::Overlapping => {
                        accumulate_overlapping(counts, max_count, b);
                        proof {
                            lemma_overlapping_cons(c, bytes@);
                            law_accumulate_compose(start, seq![q], overlapping_pairs(bytes@));
                            lemma_tracked_max_compose(m0, m1, *max_count, mid, seq![q], overlapping_pairs(bytes@));
                        }
                        self.overlapping_prev = Some(b[b.len() - 1]);
                    },
                    Mode::NonOverlapping => {
                        b = &b[1..b.len()];
                        accumulate_non_overlapping(counts, max_count, b);
                        proof {
                            lemma_non_overlapping_cons(c, bytes@);
                            law_accumulate_compose(start, seq![q], non_overlapping_pairs(b@));
                            lemma_tracked_max_compose(m0, m1, *max_count, mid, seq![q], non_overlapping_pairs(b@));
                            if b@.len() > 0 {
                                assert(whole.last() == b@.last());
                            }
                        }
                        if b.len() % 2 == 1 {
                            self.non_overlap_pending = Some(b[b.len() - 1]);
                        } else {
                            self.non_overlap_pending = None;
                        }
                    },
                }
            },
            None => {
                proof {
                    assert(whole =~= bytes@);
                }
                match self.mode {
                    Mode::Overlapping => {
                        accumulate_overlapping(counts, max_count, b);
                        if b.len() > 0 {
                            self.overlapping_prev = Some(b[b.len() - 1]);
                        } else {
                            self.overlapping_prev = None;
                        }
                    },
                    Mode::NonOverlapping => {
                        accumulate_non_overlapping(counts, max_count, b);
                        if b.len() % 2 == 1 {
                            self.non_overlap_pending = Some(b[b.len() - 1]);
                        } else {
                            self.non_overlap_pending = None;
                        }
                    },
                }
            },
        }
        proof {
            lemma_accumulated_cells(start, pairs_of(mode, whole));
            if is_largest(m0, start) {
                lemma_tracked_max_largest(m0, *max_count, start, counts@, pairs_of(mode, whole));
            }
        }
    }
}

} // verus!
