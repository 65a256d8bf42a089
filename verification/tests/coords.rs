use pathfind::coord::{format_coord, parse_coord, Coord};

#[test]
fn plain_integers_parse() {
    let c = parse_coord(b"42").unwrap();
    assert_eq!(c.neg, false);
    assert_eq!(c.ipart, 42);
    assert_eq!(c.flen, 0);
    assert_eq!(c.trunc_i64(), 42);
    assert_eq!(c.round_i64(), 42);
}

#[test]
fn signed_decimals_truncate_toward_zero_and_round_away() {
    let c = parse_coord(b"-12.75").unwrap();
    assert!(c.neg);
    assert_eq!(c.trunc_i64(), -12);
    assert_eq!(c.round_i64(), -13);
    let d = parse_coord(b"2.5").unwrap();
    assert_eq!(d.trunc_i64(), 2);
    assert_eq!(d.round_i64(), 3);
    let e = parse_coord(b"-2.5").unwrap();
    assert_eq!(e.round_i64(), -3);
    let f = parse_coord(b"2.49").unwrap();
    assert_eq!(f.round_i64(), 2);
}

#[test]
fn exponents_shift_the_decimal_point() {
    assert_eq!(parse_coord(b"1.5e2").unwrap().trunc_i64(), 150);
    assert_eq!(parse_coord(b"25e-1").unwrap().trunc_i64(), 2);
    assert_eq!(parse_coord(b"25e-1").unwrap().round_i64(), 3);
    assert_eq!(parse_coord(b"1E3").unwrap().trunc_i64(), 1000);
    assert_eq!(parse_coord(b"5e-3").unwrap().trunc_i64(), 0);
}

#[test]
fn sparse_literal_forms_parse() {
    assert_eq!(parse_coord(b"+.5").unwrap().round_i64(), 1);
    assert_eq!(parse_coord(b"5.").unwrap().trunc_i64(), 5);
    assert_eq!(parse_coord(b".25").unwrap().trunc_i64(), 0);
    assert_eq!(parse_coord(b"-0").unwrap().trunc_i64(), 0);
}

#[test]
fn malformed_literals_are_rejected() {
    assert!(parse_coord(b"").is_none());
    assert!(parse_coord(b".").is_none());
    assert!(parse_coord(b"+").is_none());
    assert!(parse_coord(b"1.2.3").is_none());
    assert!(parse_coord(b"1e").is_none());
    assert!(parse_coord(b"1e+").is_none());
    assert!(parse_coord(b"1ee2").is_none());
    assert!(parse_coord(b"a1").is_none());
    assert!(parse_coord(b"1 ").is_none());
    assert!(parse_coord(b"--1").is_none());
}

#[test]
fn huge_magnitudes_saturate_the_integer_part() {
    let c = parse_coord(b"1e300").unwrap();
    assert_eq!(c.ipart, 1000000000000000);
    let d = parse_coord(b"99999999999999999999").unwrap();
    assert_eq!(d.ipart, 1000000000000000);
    let z = parse_coord(b"0e300").unwrap();
    assert_eq!(z.ipart, 0);
}

#[test]
fn formatting_writes_the_stored_decimal() {
    let c = Coord { neg: true, ipart: 12, fpart: 5, flen: 2 };
    assert_eq!(format_coord(&c), b"-12.05".to_vec());
    let d = Coord { neg: false, ipart: 7, fpart: 0, flen: 0 };
    assert_eq!(format_coord(&d), b"7".to_vec());
    let parsed = parse_coord(b"-12.05").unwrap();
    assert_eq!(parsed, c);
}
