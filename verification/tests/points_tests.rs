use elevation_api::points::{check_capacity, Point, PointParseError, Points, MAX_BATCH_POINTS};

/// Degrees to the library's fixed-point units (millionths).
fn m(x: f64) -> i64 {
    (x * 1_000_000.0).round() as i64
}

#[test]
fn test_points() {
    // Parsing of a well-formed tuple list of coordinates.
    let points = Points::from_str("(48.35,5.3),(48.43,5.23)").unwrap();
    assert_eq!(points.points[0].lat, m(48.35));
    assert_eq!(points.points[0].lon, m(5.3));
    assert_eq!(points.points[1].lat, m(48.43));
    assert_eq!(points.points[1].lon, m(5.23));
}

#[test]
fn test_points_parse_failure() {
    // Parsing a badly formed tuple of coordinates must fail.
    let points = Points::from_str("(48.2,54.2a");
    match points {
        Ok(pts) => panic!("Got coordinates from a bad tuple: {:?}", pts),
        Err(_) => println!("Failed to parse points as expected!"),
    }
}

#[test]
fn test_points_len() {
    let points = Points::from_str("(45.2,34.2),(32.4,-12.0)").unwrap();
    assert_eq!(points.len(), 2_usize);
}

#[test]
fn test_points_negative_and_plus_signs() {
    let points = Points::from_str("(-12.0,+3.5)").unwrap();
    assert_eq!(points.points[0].lat, m(-12.0));
    assert_eq!(points.points[0].lon, m(3.5));
}

#[test]
fn test_points_concatenated_tuples() {
    // Tuples may be concatenated without separators between them.
    let points = Points::from_str("(1.2,3.4)(5.6,7.8)").unwrap();
    assert_eq!(points.len(), 2);
    assert_eq!(points.points[1], Point { lat: m(5.6), lon: m(7.8) });
}

#[test]
fn test_points_empty_string() {
    let points = Points::from_str("").unwrap();
    assert_eq!(points.len(), 0);
}

#[test]
fn test_points_integer_scalars() {
    let points = Points::from_str("(58,104)").unwrap();
    assert_eq!(points.points[0].lat, 58_000_000);
    assert_eq!(points.points[0].lon, 104_000_000);
}

#[test]
fn test_points_bare_and_empty_fraction() {
    // "1." and ".5" are decimal numbers.
    let points = Points::from_str("(1.,.5)").unwrap();
    assert_eq!(points.points[0].lat, 1_000_000);
    assert_eq!(points.points[0].lon, 500_000);
}

#[test]
fn test_points_fraction_truncated_to_six_digits() {
    let points = Points::from_str("(0.1234567,0)").unwrap();
    assert_eq!(points.points[0].lat, 123_456);
}

#[test]
fn test_points_stray_delimiters_trimmed() {
    // Parens and commas are structural: stray ones at a segment's ends are
    // trimmed before the tuple is read.
    let points = Points::from_str("(,1,2)").unwrap();
    assert_eq!(points.points[0], Point { lat: 1_000_000, lon: 2_000_000 });
    let points = Points::from_str("(3,4),,").unwrap();
    assert_eq!(points.len(), 1);
    assert_eq!(points.points[0], Point { lat: 3_000_000, lon: 4_000_000 });
}

#[test]
fn test_points_wrong_tuple_arity() {
    assert_eq!(Points::from_str("(1,2,3)").unwrap_err(), PointParseError::BadTuple);
    assert_eq!(Points::from_str("(1)").unwrap_err(), PointParseError::BadTuple);
}

#[test]
fn test_points_bad_scalar() {
    assert_eq!(Points::from_str("(a,b)").unwrap_err(), PointParseError::BadScalar);
    assert_eq!(Points::from_str("(.,1)").unwrap_err(), PointParseError::BadScalar);
    assert_eq!(Points::from_str("(1.2.3,4)").unwrap_err(), PointParseError::BadScalar);
}

#[test]
fn test_points_exponent_notation() {
    // Exponents fold into the fixed-point value.
    let points = Points::from_str("(1e5,2)").unwrap();
    assert_eq!(points.points[0], Point { lat: 100_000_000_000, lon: 2_000_000 });
    let points = Points::from_str("(1.5e2,2E1)").unwrap();
    assert_eq!(points.points[0], Point { lat: m(150.0), lon: m(20.0) });
    let points = Points::from_str("(1.2345678e3,2e-3)").unwrap();
    assert_eq!(points.points[0].lat, 1_234_567_800);
    assert_eq!(points.points[0].lon, 2_000);
    let points = Points::from_str("(-4e+1,123456789e-9)").unwrap();
    assert_eq!(points.points[0].lat, m(-40.0));
    // 0.123456789 keeps six fractional digits, truncated toward zero.
    assert_eq!(points.points[0].lon, 123_456);
}

#[test]
fn test_points_exponent_rejections() {
    // An exponent field needs digits.
    assert_eq!(Points::from_str("(1e,2)").unwrap_err(), PointParseError::BadScalar);
    assert_eq!(Points::from_str("(1e+,2)").unwrap_err(), PointParseError::BadScalar);
    // Values outside the fixed-point range are rejected...
    assert_eq!(Points::from_str("(1e12,0)").unwrap_err(), PointParseError::BadScalar);
    assert_eq!(Points::from_str("(1000000000000,0)").unwrap_err(), PointParseError::BadScalar);
    assert_eq!(Points::from_str("(1e1000000,0)").unwrap_err(), PointParseError::BadScalar);
    // ...and so are exponents above a million, even on a zero mantissa.
    assert_eq!(Points::from_str("(0e1000001,0)").unwrap_err(), PointParseError::BadScalar);
    // The largest representable values still parse.
    let points = Points::from_str("(999999999999.999999,0e1000000)").unwrap();
    assert_eq!(points.points[0].lat, 999_999_999_999_999_999);
    assert_eq!(points.points[0].lon, 0);
}

#[test]
fn test_points_first_bad_segment_reported() {
    // The tuple shape is checked before its scalars, segment by segment.
    assert_eq!(Points::from_str("(1,2)(3,4,5)(a,b)").unwrap_err(), PointParseError::BadTuple);
    assert_eq!(Points::from_str("(1,2)(a,b)(3,4,5)").unwrap_err(), PointParseError::BadScalar);
}

#[test]
fn test_capacity_check_rejects_oversized_batch() {
    // A batch of 51 points never reaches the resolver.
    let mut pts = Vec::new();
    for i in 0..51 {
        pts.push(Point { lat: i, lon: i });
    }
    let points = Points { points: pts };
    let err = check_capacity(&points).unwrap_err();
    assert_eq!(err.requested, 51);
}

#[test]
fn test_capacity_check_accepts_full_batch() {
    assert_eq!(MAX_BATCH_POINTS, 50);
    let mut pts = Vec::new();
    for i in 0..50 {
        pts.push(Point { lat: i, lon: i });
    }
    let points = Points { points: pts };
    assert!(check_capacity(&points).is_ok());
    assert!(check_capacity(&Points { points: Vec::new() }).is_ok());
}
