//! End-to-end tests of the aggregation pipeline.

use onebrc::pipeline::run;
use onebrc::RecordError;

#[test]
fn three_records_two_workers() {
    let data = b"station_a;10.0\nstation_b;-5.5\nstation_a;20.0\n";
    let out = run(data, 2).unwrap();
    assert_eq!(
        out,
        b"{station_a=10.0/15.0/20.0, station_b=-5.5/-5.5/-5.5, }".to_vec()
    );
}

#[test]
fn empty_file() {
    assert_eq!(run(b"", 4).unwrap(), b"{}".to_vec());
}

#[test]
fn single_record_no_trailing_newline() {
    assert_eq!(run(b"x;1.0", 1).unwrap(), b"{x=1.0/1.0/1.0, }".to_vec());
}

#[test]
fn malformed_value_fails() {
    assert_eq!(run(b"x;abc\n", 2), Err(RecordError::MalformedValue));
}

#[test]
fn missing_delimiter_fails() {
    assert_eq!(run(b"no delimiter here\n", 2), Err(RecordError::MissingDelimiter));
}

#[test]
fn empty_key_fails() {
    assert_eq!(run(b";1.0\n", 2), Err(RecordError::EmptyKey));
}

#[test]
fn first_error_wins() {
    // the missing delimiter comes before the malformed value
    assert_eq!(
        run(b"a;1.0\nbroken\nx;abc\n", 1),
        Err(RecordError::MissingDelimiter)
    );
}

#[test]
fn same_output_for_every_worker_count() {
    let data =
        b"m;3.4\nz;-0.1\na;12.9\nm;-7.0\na;0.0\nq;55.5\nz;0.1\nm;3.4\nq;-55.5\na;1.1";
    let expected = run(data, 1).unwrap();
    for workers in 2..10 {
        assert_eq!(run(data, workers).unwrap(), expected);
    }
}

#[test]
fn keys_sorted_lexicographically() {
    let data = b"pear;1.0\napple;2.0\nfig;3.0\n";
    let out = run(data, 3).unwrap();
    assert_eq!(
        out,
        b"{apple=2.0/2.0/2.0, fig=3.0/3.0/3.0, pear=1.0/1.0/1.0, }".to_vec()
    );
}

#[test]
fn average_rounds_to_one_digit() {
    // 1.0 and 2.1 average to 1.55, rounded away from zero to 1.6
    let out = run(b"k;1.0\nk;2.1\n", 1).unwrap();
    assert_eq!(out, b"{k=1.0/1.6/2.1, }".to_vec());
    // negative ties round away from zero as well
    let out = run(b"k;-1.0\nk;-2.1\n", 1).unwrap();
    assert_eq!(out, b"{k=-2.1/-1.6/-1.0, }".to_vec());
}

#[test]
fn more_workers_than_records() {
    let out = run(b"a;1.0\n", 64).unwrap();
    assert_eq!(out, b"{a=1.0/1.0/1.0, }".to_vec());
}
