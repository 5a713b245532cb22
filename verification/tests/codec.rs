use gepafer::{
    decode_polyline, encode_polyline, is_polyline, limits, scale_of, validate, zip_columns,
    CodecError, Coordinate, MAX_FACTOR,
};

const KNOWN_TEXT: &str = "_p~iF~ps|U_ulLnnqC_mqNvxq`@";

fn at(lat: i64, lon: i64) -> Coordinate {
    Coordinate { lat, lon }
}

fn known_path() -> Vec<Coordinate> {
    vec![at(3_850_000, -12_020_000), at(4_070_000, -12_095_000), at(4_325_200, -12_645_300)]
}

fn to_fixed(degrees: f64, scale: i64) -> i64 {
    (degrees * scale as f64).round() as i64
}

fn to_degrees(fixed: i64, scale: i64) -> f64 {
    fixed as f64 / scale as f64
}

#[test]
fn known_vector_decodes() {
    assert_eq!(decode_polyline(KNOWN_TEXT, 5), Ok(known_path()));
}

#[test]
fn known_vector_decodes_to_exact_degrees() {
    let scale = scale_of(5).unwrap();
    let path = decode_polyline(KNOWN_TEXT, 5).unwrap();
    let degrees: Vec<(f64, f64)> =
        path.iter().map(|c| (to_degrees(c.lat, scale), to_degrees(c.lon, scale))).collect();
    assert_eq!(degrees, vec![(38.5, -120.2), (40.7, -120.95), (43.252, -126.453)]);
}

#[test]
fn known_vector_encodes() {
    assert_eq!(encode_polyline(&known_path(), 5), Ok(String::from(KNOWN_TEXT)));
}

#[test]
fn known_vector_encodes_from_degrees() {
    let scale = scale_of(5).unwrap();
    let degrees = [(38.5, -120.2), (40.7, -120.95), (43.252, -126.453)];
    let path: Vec<Coordinate> =
        degrees.iter().map(|&(lat, lon)| at(to_fixed(lat, scale), to_fixed(lon, scale))).collect();
    assert_eq!(path, known_path());
    assert_eq!(encode_polyline(&path, 5), Ok(String::from(KNOWN_TEXT)));
}

#[test]
fn known_vector_at_another_precision() {
    let path = vec![
        at(38_500_000, -120_200_000),
        at(40_700_000, -120_950_000),
        at(43_252_000, -126_453_000),
    ];
    let text = "_izlhA~rlgdF_{geC~ywl@_kwzCn`{nI";
    assert_eq!(encode_polyline(&path, 6), Ok(String::from(text)));
    assert_eq!(decode_polyline(text, 6), Ok(path));
}

#[test]
fn empty_path_encodes_to_empty_text() {
    for factor in 0..=MAX_FACTOR {
        assert_eq!(encode_polyline(&[], factor), Ok(String::new()));
    }
}

#[test]
fn empty_text_decodes_to_empty_path() {
    for factor in 0..=MAX_FACTOR {
        assert_eq!(decode_polyline("", factor), Ok(Vec::new()));
    }
}

#[test]
fn round_trip_gives_the_path_back() {
    let paths = vec![
        vec![at(0, 0)],
        vec![at(1, -1), at(1, -1), at(0, 0)],
        known_path(),
        vec![at(-9_000_000, 18_000_000), at(9_000_000, -18_000_000), at(-3, 17_999_999)],
    ];
    for path in paths {
        let text = encode_polyline(&path, 5).unwrap();
        assert!(is_polyline(&text));
        assert_eq!(decode_polyline(&text, 5), Ok(path));
    }
}

#[test]
fn round_trip_from_degrees_stays_within_half_a_unit() {
    let degrees = [
        (38.5, -120.2),
        (40.7, -120.95),
        (43.252, -126.453),
        (-33.123456789, 151.987654321),
        (89.9999999, -179.9999999),
        (0.0000049, -0.0000051),
    ];
    for factor in [0u32, 1, 5, 6, 7, 10] {
        let scale = scale_of(factor).unwrap();
        let path: Vec<Coordinate> = degrees
            .iter()
            .map(|&(lat, lon)| at(to_fixed(lat, scale), to_fixed(lon, scale)))
            .collect();
        let text = encode_polyline(&path, factor).unwrap();
        let back = decode_polyline(&text, factor).unwrap();
        assert_eq!(back.len(), degrees.len());
        let tolerance = 0.5 / scale as f64 + 1e-12;
        for (c, &(lat, lon)) in back.iter().zip(degrees.iter()) {
            assert!((to_degrees(c.lat, scale) - lat).abs() <= tolerance);
            assert!((to_degrees(c.lon, scale) - lon).abs() <= tolerance);
        }
    }
}

#[test]
fn encoding_again_after_decoding_gives_the_same_text() {
    let path = vec![at(3_850_000, -12_020_000), at(-1, 1), at(9_000_000, 18_000_000), at(0, 0)];
    let first = encode_polyline(&path, 5).unwrap();
    let back = decode_polyline(&first, 5).unwrap();
    let second = encode_polyline(&back, 5).unwrap();
    assert_eq!(second, first);
}

#[test]
fn extremes_encode_and_decode() {
    let path = vec![at(9_000_000, 18_000_000), at(-9_000_000, -18_000_000)];
    let text = "_cidP_gsia@~fsia@~ngtcA";
    assert_eq!(encode_polyline(&path, 5), Ok(String::from(text)));
    assert_eq!(decode_polyline(text, 5), Ok(path));
}

#[test]
fn extremes_at_whole_degrees() {
    let path = vec![at(90, 180), at(-90, -180)];
    let text = "sDgJfJnU";
    assert_eq!(encode_polyline(&path, 0), Ok(String::from(text)));
    assert_eq!(decode_polyline(text, 0), Ok(path));
}

#[test]
fn extremes_at_the_largest_precision() {
    let lat = 900_000_000_000_000_000;
    let lon = 1_800_000_000_000_000_000;
    let path = vec![at(lat, lon), at(-lat, -lon)];
    let text = "___gzhymav}p@___ours|cm|bB~~~nurs|cm|bB~~~~kfhzh{yfE";
    assert_eq!(encode_polyline(&path, MAX_FACTOR), Ok(String::from(text)));
    assert_eq!(decode_polyline(text, MAX_FACTOR), Ok(path));
}

#[test]
fn encode_rejects_a_latitude_beyond_ninety_degrees() {
    assert_eq!(encode_polyline(&[at(9_100_000, 0)], 5), Err(CodecError::InvalidCoordinate(1)));
    assert_eq!(encode_polyline(&[at(9_000_001, 0)], 5), Err(CodecError::InvalidCoordinate(1)));
    assert_eq!(encode_polyline(&[at(-9_000_001, 0)], 5), Err(CodecError::InvalidCoordinate(1)));
}

#[test]
fn encode_rejects_a_longitude_beyond_one_hundred_and_eighty_degrees() {
    assert_eq!(encode_polyline(&[at(0, 18_000_001)], 5), Err(CodecError::InvalidCoordinate(1)));
    assert_eq!(encode_polyline(&[at(0, -18_000_001)], 5), Err(CodecError::InvalidCoordinate(1)));
    assert_eq!(encode_polyline(&[at(0, i64::MIN)], 5), Err(CodecError::InvalidCoordinate(1)));
    assert_eq!(
        encode_polyline(&[at(i64::MAX, i64::MAX)], 16),
        Err(CodecError::InvalidCoordinate(1))
    );
}

#[test]
fn encode_rejects_ninety_one_degrees_of_latitude() {
    let scale = scale_of(5).unwrap();
    let path = [at(to_fixed(91.0, scale), to_fixed(0.0, scale))];
    assert_eq!(encode_polyline(&path, 5), Err(CodecError::InvalidCoordinate(1)));
}

#[test]
fn encode_reports_the_first_invalid_position() {
    let path = vec![at(0, 0), at(1, 1), at(9_000_001, 0), at(0, 99_000_000), at(2, 2)];
    assert_eq!(encode_polyline(&path, 5), Err(CodecError::InvalidCoordinate(3)));
}

#[test]
fn validity_depends_on_the_precision_factor() {
    let path = vec![at(9_000_001, 0)];
    assert_eq!(encode_polyline(&path, 5), Err(CodecError::InvalidCoordinate(1)));
    assert!(encode_polyline(&path, 6).is_ok());
}

#[test]
fn decode_rejects_a_coordinate_off_the_globe() {
    // Latitude 91 degrees, longitude 0.
    assert_eq!(decode_polyline("_mljP?", 5), Err(CodecError::InvalidCoordinate(1)));
    // Longitude one unit beyond 180 degrees.
    assert_eq!(decode_polyline("?agsia@", 5), Err(CodecError::InvalidCoordinate(1)));
}

#[test]
fn decode_reports_the_position_of_the_coordinate_that_leaves_the_globe() {
    // (0, 0), then (1, 1), then a step of 90 degrees north.
    assert_eq!(decode_polyline("??AA_cidP@", 5), Err(CodecError::InvalidCoordinate(3)));
}

#[test]
fn decode_fails_on_a_dangling_group() {
    assert_eq!(decode_polyline("_", 5), Err(CodecError::TruncatedPolyline));
    assert_eq!(decode_polyline("~", 5), Err(CodecError::TruncatedPolyline));
    assert_eq!(decode_polyline("_p~iF~ps|", 5), Err(CodecError::TruncatedPolyline));
    assert_eq!(decode_polyline("_p~iF~ps|U_", 5), Err(CodecError::TruncatedPolyline));
}

#[test]
fn decode_fails_on_a_latitude_without_its_longitude() {
    assert_eq!(decode_polyline("?", 5), Err(CodecError::TruncatedPolyline));
    assert_eq!(decode_polyline("_p~iF", 5), Err(CodecError::TruncatedPolyline));
    assert_eq!(decode_polyline("_p~iF~ps|U_ulL", 5), Err(CodecError::TruncatedPolyline));
}

#[test]
fn decode_reports_an_invalid_coordinate_before_a_later_cut() {
    assert_eq!(decode_polyline("_mljP?_", 5), Err(CodecError::InvalidCoordinate(1)));
}

#[test]
fn decode_treats_an_overlong_group_as_off_the_globe() {
    assert_eq!(decode_polyline("~~~~~~~~~~~~O?", 5), Err(CodecError::InvalidCoordinate(1)));
    assert_eq!(decode_polyline("?_____________@", 16), Err(CodecError::InvalidCoordinate(1)));
    assert_eq!(decode_polyline("??~~~~~~~~~~~~N?", 16), Err(CodecError::InvalidCoordinate(2)));
    assert_eq!(decode_polyline("~~~~~~~~~~~~O", 5), Err(CodecError::TruncatedPolyline));
}

#[test]
fn decode_accepts_padding_groups() {
    assert_eq!(decode_polyline("_?_____?", 5), Ok(vec![at(0, 0)]));
    assert_eq!(decode_polyline("a_?`__________________?", 5), Ok(vec![at(1, -1)]));
}

#[test]
fn alphabet_runs_from_question_mark_to_tilde() {
    assert!(is_polyline(""));
    assert!(is_polyline(KNOWN_TEXT));
    assert!(is_polyline("?~"));
    assert!(!is_polyline(">"));
    assert!(!is_polyline("\u{7f}"));
    assert!(!is_polyline("_p~iF ~ps|U"));
    assert!(!is_polyline("_p~iF\u{e9}"));
    assert!(!is_polyline("\u{1f600}"));
}

#[test]
fn scale_is_a_power_of_ten() {
    assert_eq!(scale_of(0), Some(1));
    assert_eq!(scale_of(1), Some(10));
    assert_eq!(scale_of(5), Some(100_000));
    assert_eq!(scale_of(16), Some(10_000_000_000_000_000));
    assert_eq!(scale_of(17), None);
    assert_eq!(scale_of(u32::MAX), None);
}

#[test]
fn limits_are_ninety_and_one_hundred_and_eighty_degrees() {
    assert_eq!(limits(0), (90, 180));
    assert_eq!(limits(5), (9_000_000, 18_000_000));
    assert_eq!(limits(MAX_FACTOR), (900_000_000_000_000_000, 1_800_000_000_000_000_000));
}

#[test]
fn validate_accepts_the_globe_and_nothing_else() {
    assert_eq!(validate(at(0, 0), 1, 5), Ok(()));
    assert_eq!(validate(at(9_000_000, -18_000_000), 2, 5), Ok(()));
    assert_eq!(validate(at(-9_000_000, 18_000_000), 3, 5), Ok(()));
    assert_eq!(validate(at(9_000_001, 0), 4, 5), Err(CodecError::InvalidCoordinate(4)));
    assert_eq!(validate(at(0, -18_000_001), 7, 5), Err(CodecError::InvalidCoordinate(7)));
    assert_eq!(validate(at(91, 0), 1, 0), Err(CodecError::InvalidCoordinate(1)));
    assert_eq!(validate(at(91, 0), 1, 1), Ok(()));
}

#[test]
fn columns_of_equal_length_are_paired() {
    let lats: Vec<i64> = vec![3_850_000, 4_070_000, 4_325_200];
    let lons: Vec<i64> = vec![-12_020_000, -12_095_000, -12_645_300];
    let pairs = zip_columns(&lats, &lons).unwrap();
    assert_eq!(
        pairs,
        vec![(3_850_000, -12_020_000), (4_070_000, -12_095_000), (4_325_200, -12_645_300)]
    );
    let path: Vec<Coordinate> = pairs.iter().map(|&(lat, lon)| at(lat, lon)).collect();
    assert_eq!(encode_polyline(&path, 5), Ok(String::from(KNOWN_TEXT)));
}

#[test]
fn columns_of_degrees_are_paired() {
    let lats: Vec<f64> = vec![38.5, 40.7];
    let lons: Vec<f64> = vec![-120.2, -120.95];
    assert_eq!(zip_columns(&lats, &lons), Ok(vec![(38.5, -120.2), (40.7, -120.95)]));
    let none: Vec<f64> = Vec::new();
    assert_eq!(zip_columns(&none, &none), Ok(Vec::new()));
}

#[test]
fn columns_of_unequal_length_are_refused() {
    let lats: Vec<i64> = vec![1, 2, 3];
    let lons: Vec<i64> = vec![1, 2];
    assert_eq!(zip_columns(&lats, &lons), Err(CodecError::MismatchedLengths));
    assert_eq!(zip_columns(&lons, &lats), Err(CodecError::MismatchedLengths));
    assert_eq!(zip_columns(&Vec::<i64>::new(), &lats), Err(CodecError::MismatchedLengths));
}
