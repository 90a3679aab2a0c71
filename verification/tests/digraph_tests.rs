use digraph::accumulate::{accumulate_non_overlapping, accumulate_overlapping, index, StreamState};
use digraph::{Digraph, DigraphBuilder, Mode, Scale};

#[test]
fn overlapping_pairs() {
    let d = Digraph::from_bytes_with_mode(&[10, 20, 10, 20], Mode::Overlapping);
    assert_eq!(d.get(10, 20), 2);
    assert_eq!(d.get(20, 10), 1);
}

#[test]
fn non_overlapping_pairs() {
    let d = Digraph::from_bytes_with_mode(&[1, 2, 3, 4, 5], Mode::NonOverlapping);
    assert_eq!(d.get(1, 2), 1);
    assert_eq!(d.get(3, 4), 1);
    assert_eq!(d.get(2, 3), 0);
}

#[test]
fn empty_and_singleton() {
    let d = Digraph::from_bytes(&[]);
    assert_eq!(d.max_count(), 0);
    let d = Digraph::from_bytes(&[7]);
    assert_eq!(d.max_count(), 0);
}

#[test]
fn builder_spans_chunks() {
    let mut b = DigraphBuilder::new(Mode::Overlapping);
    b.push_bytes(&[0, 1]);
    b.push_bytes(&[1, 2]);
    let d = b.finish();
    assert_eq!(d.get(0, 1), 1);
    assert_eq!(d.get(1, 1), 1);
    assert_eq!(d.get(1, 2), 1);
}

#[test]
fn builder_non_overlap_across_chunks() {
    let mut b = DigraphBuilder::new(Mode::NonOverlapping);
    b.push_bytes(&[1, 2, 3]);
    b.push_bytes(&[4, 5]);
    let d = b.finish();
    assert_eq!(d.get(1, 2), 1);
    assert_eq!(d.get(3, 4), 1);
    assert_eq!(d.get(2, 3), 0);
}

#[test]
fn add_bytes_independent() {
    let mut d = Digraph::empty();
    d.add_bytes_with_mode(&[1, 2], Mode::Overlapping);
    d.add_bytes_with_mode(&[2, 3], Mode::Overlapping);
    assert_eq!(d.get(1, 2), 1);
    assert_eq!(d.get(2, 3), 1);
}

#[test]
fn add_bytes_does_not_join_calls() {
    // Two separate additions never count the pair that spans them.
    let mut d = Digraph::empty();
    d.add_bytes(&[1, 2]);
    d.add_bytes(&[3, 4]);
    assert_eq!(d.get(2, 3), 0);
    assert_eq!(d.get(1, 2), 1);
    assert_eq!(d.get(3, 4), 1);
    assert_eq!(d.max_count(), 1);
}

#[test]
fn builder_matches_whole_stream_overlapping() {
    let data: Vec<u8> = (0..200u32).map(|i| (i * 7 % 13) as u8).collect();
    let whole = Digraph::from_bytes_with_mode(&data, Mode::Overlapping);
    let mut b = DigraphBuilder::new(Mode::Overlapping);
    b.push_bytes(&data[0..1]);
    b.push_bytes(&data[1..1]);
    b.push_bytes(&data[1..50]);
    b.push_bytes(&data[50..51]);
    b.push_bytes(&data[51..200]);
    assert_eq!(b.digraph_ref().counts(), whole.counts());
    assert_eq!(b.digraph_ref().max_count(), whole.max_count());
    let d = b.finish();
    assert_eq!(d, whole);
}

#[test]
fn builder_matches_whole_stream_non_overlapping() {
    let data: Vec<u8> = (0..201u32).map(|i| (i * 11 % 17) as u8).collect();
    let whole = Digraph::from_bytes_with_mode(&data, Mode::NonOverlapping);
    let mut b = DigraphBuilder::new(Mode::NonOverlapping);
    b.push_bytes(&data[0..3]);
    b.push_bytes(&data[3..3]);
    b.push_bytes(&data[3..4]);
    b.push_bytes(&data[4..101]);
    b.push_bytes(&data[101..201]);
    assert_eq!(b.finish(), whole);
}

#[test]
fn builder_mode_is_kept() {
    let b = DigraphBuilder::new(Mode::NonOverlapping);
    assert_eq!(b.mode(), Mode::NonOverlapping);
    assert_eq!(b.digraph_ref().max_count(), 0);
}

#[test]
fn non_overlapping_ignores_tail_byte() {
    let d = Digraph::from_bytes_with_mode(&[9, 10, 11], Mode::NonOverlapping);
    let e = Digraph::from_bytes_with_mode(&[9, 10], Mode::NonOverlapping);
    assert_eq!(d, e);
    assert_eq!(d.get(9, 10), 1);
    assert_eq!(d.get(10, 11), 0);
}

#[test]
fn counts_are_row_major() {
    let d = Digraph::from_bytes(&[3, 200]);
    assert_eq!(d.counts().len(), 65536);
    assert_eq!(d.counts()[3 * 256 + 200], 1);
    assert_eq!(index(3, 200), (3 << 8) | 200);
    assert_eq!(index(255, 255), 65535);
    assert_eq!(index(0, 0), 0);
}

#[test]
fn len_and_is_empty() {
    let d = Digraph::empty();
    assert_eq!(d.len(), 65536);
    assert!(!d.is_empty());
    assert_eq!(Digraph::default(), Digraph::empty());
}

#[test]
fn max_count_tracks_largest_cell() {
    let d = Digraph::from_bytes(&[5, 5, 5, 5, 1, 2]);
    assert_eq!(d.get(5, 5), 3);
    assert_eq!(d.max_count(), 3);
    let mut e = d.clone();
    e.refresh_max_count();
    assert_eq!(e, d);
}

#[test]
fn from_counts_checks_length() {
    assert!(Digraph::from_counts(vec![0; 10]).is_none());
    let mut counts = vec![0u32; 65536];
    counts[7] = 4;
    counts[300] = 9;
    let d = Digraph::from_counts(counts).unwrap();
    assert_eq!(d.max_count(), 9);
    assert_eq!(d.get(1, 44), 9);
    assert_eq!(d.get(0, 7), 4);
}

#[test]
fn nonzero_cells_in_row_major_order() {
    let d = Digraph::from_bytes(&[2, 1, 2, 1]);
    assert_eq!(d.nonzero_cells(), vec![(1, 2, 1), (2, 1, 2)]);
    assert!(Digraph::empty().nonzero_cells().is_empty());
}

#[test]
fn stream_state_carries_byte() {
    let mut counts = vec![0u32; 65536];
    let mut max = 0u32;
    let mut s = StreamState::new(Mode::Overlapping);
    assert_eq!(s.mode(), Mode::Overlapping);
    s.push(&mut counts, &mut max, &[4]);
    assert_eq!(max, 0);
    s.push(&mut counts, &mut max, &[]);
    s.push(&mut counts, &mut max, &[8]);
    assert_eq!(counts[4 * 256 + 8], 1);
    assert_eq!(max, 1);
}

#[test]
fn names_of_modes_and_scales() {
    assert_eq!(Mode::Overlapping.to_string(), "overlapping");
    assert_eq!(Mode::NonOverlapping.to_string(), "non-overlapping");
    assert_eq!(Scale::Log1p.to_string(), "log1p");
    assert_eq!(Scale::CantorDust.to_string(), "cantordust");
    assert_eq!(Scale::Linear.to_string(), "linear");
}

#[test]
fn counts_saturate_at_u32_max() {
    let mut counts = vec![0u32; 65536];
    counts[1 * 256 + 2] = u32::MAX;
    let mut d = Digraph::from_counts(counts).unwrap();
    assert_eq!(d.max_count(), u32::MAX);
    d.add_bytes(&[1, 2, 1, 2]);
    assert_eq!(d.get(1, 2), u32::MAX);
    assert_eq!(d.get(2, 1), 1);
    assert_eq!(d.max_count(), u32::MAX);
}

#[test]
fn accumulators_accept_longer_slices_and_any_max() {
    let mut counts = vec![0u32; 70000];
    counts[65536] = 77;
    counts[69999] = 3;
    let mut max = 5u32;
    accumulate_overlapping(&mut counts, &mut max, &[1, 2, 1, 2]);
    assert_eq!(counts[258], 2);
    assert_eq!(counts[2 * 256 + 1], 1);
    assert_eq!(counts[65536], 77);
    assert_eq!(counts[69999], 3);
    // The old largest value stays when the raised cells stay below it.
    assert_eq!(max, 5);
    let mut max = 1u32;
    accumulate_non_overlapping(&mut counts, &mut max, &[1, 2, 1, 2, 9]);
    assert_eq!(counts[258], 4);
    assert_eq!(max, 4);
    assert_eq!(counts[65536], 77);
}

#[test]
fn clone_keeps_counts_and_largest() {
    let d = Digraph::from_bytes(&[7, 7, 7]);
    let e = d.clone();
    assert_eq!(e.get(7, 7), 2);
    assert_eq!(e.max_count(), 2);
    assert_eq!(e, d);
}

#[test]
fn stream_state_chunks_match_whole_stream() {
    let data: Vec<u8> = (0..300u32).map(|i| (i * 5 % 19) as u8).collect();
    for mode in [Mode::Overlapping, Mode::NonOverlapping] {
        let whole = Digraph::from_bytes_with_mode(&data, mode);
        let mut counts = vec![0u32; 65536];
        let mut max = 0u32;
        let mut s = StreamState::new(mode);
        for (a, b) in [(0, 0), (0, 1), (1, 4), (4, 4), (4, 157), (157, 300)] {
            s.push(&mut counts, &mut max, &data[a..b]);
        }
        assert_eq!(&counts[..], whole.counts());
        assert_eq!(max, whole.max_count());
    }
}
