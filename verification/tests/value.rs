//! Tests for the value parser and formatter.

use onebrc::value::{parse_value, push_tenths};
use onebrc::RecordError;

fn parsed(b: &[u8]) -> f32 {
    parse_value(b).unwrap() as f32 / 10.0
}

fn fmt(t: i64) -> Vec<u8> {
    let mut out = Vec::new();
    push_tenths(&mut out, t);
    out
}

#[test]
fn test_parse_f32() {
    assert_eq!(parsed(b"-0.1"), -0.1);
    assert_eq!(parsed(b"-50.2"), -50.2);
    assert_eq!(parsed(b"-66.9"), -66.9);
    assert_eq!(parsed(b"43.4"), 43.4);
    assert_eq!(parsed(b"92.2"), 92.2);
}

#[test]
fn parse_tenths_exact() {
    assert_eq!(parse_value(b"0.0"), Ok(0));
    assert_eq!(parse_value(b"10.0"), Ok(100));
    assert_eq!(parse_value(b"-5.5"), Ok(-55));
    assert_eq!(parse_value(b"007.5"), Ok(75));
    assert_eq!(parse_value(b"-0.0"), Ok(0));
}

#[test]
fn parse_rejects_bad_grammar() {
    assert_eq!(parse_value(b"abc"), Err(RecordError::MalformedValue));
    assert_eq!(parse_value(b""), Err(RecordError::MalformedValue));
    assert_eq!(parse_value(b"1"), Err(RecordError::MalformedValue));
    assert_eq!(parse_value(b"1."), Err(RecordError::MalformedValue));
    assert_eq!(parse_value(b".5"), Err(RecordError::MalformedValue));
    assert_eq!(parse_value(b"1.23"), Err(RecordError::MalformedValue));
    assert_eq!(parse_value(b"--1.0"), Err(RecordError::MalformedValue));
    assert_eq!(parse_value(b"1.0 "), Err(RecordError::MalformedValue));
    assert_eq!(parse_value(b"-"), Err(RecordError::MalformedValue));
}

#[test]
fn parse_rejects_overflow() {
    assert_eq!(
        parse_value(b"99999999999999999999999999.0"),
        Err(RecordError::MalformedValue)
    );
    // largest representable tenths value
    assert_eq!(parse_value(b"922337203685477580.7"), Ok(i64::MAX));
    assert_eq!(
        parse_value(b"922337203685477580.8"),
        Err(RecordError::MalformedValue)
    );
}

#[test]
fn format_tenths_exact() {
    assert_eq!(fmt(0), b"0.0".to_vec());
    assert_eq!(fmt(5), b"0.5".to_vec());
    assert_eq!(fmt(-5), b"-0.5".to_vec());
    assert_eq!(fmt(100), b"10.0".to_vec());
    assert_eq!(fmt(-502), b"-50.2".to_vec());
    assert_eq!(fmt(123456), b"12345.6".to_vec());
}

#[test]
fn parse_format_round_trip() {
    for s in [
        &b"0.0"[..],
        b"0.5",
        b"-0.5",
        b"10.0",
        b"-50.2",
        b"99.9",
        b"-99.9",
        b"12345.6",
    ] {
        let t = parse_value(s).unwrap();
        assert_eq!(fmt(t), s.to_vec());
    }
}
