//! Tests for the partitioner, the worker aggregator, and the merge step.

use onebrc::aggmap::AggMap;
use onebrc::chunk::chunk_bounds;
use onebrc::output::render;
use onebrc::records::aggregate_range;

fn check_bounds(data: &[u8], workers: usize) -> Vec<usize> {
    let b = chunk_bounds(data, workers);
    assert!(!b.is_empty());
    assert_eq!(b[0], 0);
    assert_eq!(*b.last().unwrap(), data.len());
    assert!(b.len() - 1 <= workers);
    for i in 0..b.len() - 1 {
        assert!(b[i] < b[i + 1], "chunks must be non-empty and increasing");
    }
    for i in 1..b.len() - 1 {
        assert_eq!(data[b[i] - 1], b'\n', "interior boundary must follow a newline");
    }
    b
}

#[test]
fn bounds_cover_without_gaps() {
    let data = b"aa;1.0\nbb;2.0\ncc;3.0\ndd;4.0\nee;5.0\n";
    for workers in 1..8 {
        check_bounds(data, workers);
    }
}

#[test]
fn bounds_empty_buffer() {
    let b = chunk_bounds(b"", 4);
    assert_eq!(b, vec![0]);
}

#[test]
fn bounds_single_worker() {
    let data = b"aa;1.0\nbb;2.0\n";
    let b = check_bounds(data, 1);
    assert_eq!(b, vec![0, data.len()]);
}

#[test]
fn bounds_few_newlines() {
    // fewer records than workers: fewer, larger chunks come back
    let data = b"only-one;1.0";
    check_bounds(data, 6);
}

#[test]
fn aggregate_one_chunk() {
    let data = b"a;1.0\nb;2.0\na;3.0";
    let m = aggregate_range(data, 0, data.len()).unwrap();
    assert_eq!(render(&m), b"{a=1.0/2.0/3.0, b=2.0/2.0/2.0, }".to_vec());
}

#[test]
fn aggregate_middle_range() {
    let data = b"a;1.0\nb;2.0\nc;3.0\n";
    let m = aggregate_range(data, 6, 12).unwrap();
    assert_eq!(render(&m), b"{b=2.0/2.0/2.0, }".to_vec());
}

#[test]
fn merge_groups_matches_direct_fold() {
    // folding each group then merging equals folding all records in one group
    let all = b"a;1.0\nb;2.0\na;3.0\nc;-4.0\nb;0.5\na;-9.9";
    let direct = aggregate_range(all, 0, all.len()).unwrap();

    let g1 = b"a;1.0\nb;2.0";
    let g2 = b"a;3.0\nc;-4.0";
    let g3 = b"b;0.5\na;-9.9";
    let p1 = aggregate_range(g1, 0, g1.len()).unwrap();
    let p2 = aggregate_range(g2, 0, g2.len()).unwrap();
    let p3 = aggregate_range(g3, 0, g3.len()).unwrap();

    // merge in one order
    let mut m = AggMap::new();
    m.absorb(&p1);
    m.absorb(&p2);
    m.absorb(&p3);
    // and in another
    let mut m2 = AggMap::new();
    m2.absorb(&p3);
    m2.absorb(&p1);
    m2.absorb(&p2);

    let expected = render(&direct);
    assert_eq!(render(&m), expected);
    assert_eq!(render(&m2), expected);
}

#[test]
fn fold_updates_running_stats() {
    let mut m = AggMap::new();
    m.fold_value(b"k", 10);
    m.fold_value(b"k", -20);
    m.fold_value(b"k", 15);
    assert_eq!(m.entries.len(), 1);
    let e = &m.entries[0];
    assert_eq!(e.key, b"k".to_vec());
    assert_eq!(e.stats.min, -20);
    assert_eq!(e.stats.max, 15);
    assert_eq!(e.stats.sum, 5);
    assert_eq!(e.stats.count, 3);
}
