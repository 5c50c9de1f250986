use faster_geohash::alphabet::{symbol_of, value_of, ALPHABET};
use faster_geohash::angle::{Angle, BoundingBox, Coordinate, DEGREE, LAT_LIMIT, LON_LIMIT};
use faster_geohash::decoder::{decode, decode_bbox, decode_exact};
use faster_geohash::encoder::{encode, DEFAULT_PRECISION};
use faster_geohash::error::CodecError;

fn angle(degrees: f64) -> Angle {
    Angle::from_raw((degrees * (DEGREE as f64)).floor() as i64)
}

fn degrees(a: Angle) -> f64 {
    (a.raw() as f64) / (DEGREE as f64)
}

fn point(lat: f64, lon: f64) -> Coordinate {
    Coordinate::new(angle(lat), angle(lon))
}

const SAMPLE_POINTS: [(f64, f64); 10] = [
    (57.64911, 10.40744),
    (35.3003, -120.6623),
    (37.8324, 112.5584),
    (-33.8688, 151.2093),
    (0.1, -0.1),
    (-89.9, 179.9),
    (48.8584, 2.2945),
    (-0.000001, 0.000001),
    (89.999999, -179.999999),
    (12.5, 45.0),
];

const SAMPLE_HASHES: [&str; 10] = [
    "u4pruy",
    "9q60y60rhs",
    "ww8p1r4t8",
    "s",
    "zzzzzzzzzzzz",
    "000000000000",
    "7",
    "ezs42",
    "dqcjqcp84c6e",
    "6gkzwgjzn820",
];

#[test]
fn alphabet_is_the_geohash_base32() {
    assert_eq!(ALPHABET, "0123456789bcdefghjkmnpqrstuvwxyz");
    assert_eq!(ALPHABET.chars().count(), 32);
    for c in ['a', 'i', 'l', 'o'] {
        assert!(!ALPHABET.contains(c));
        assert_eq!(value_of(c), None);
    }
}

#[test]
fn alphabet_maps_values_and_symbols_both_ways() {
    for v in 0u8..32 {
        let s = symbol_of(v);
        assert_eq!(s.chars().count(), 1);
        let c = s.chars().next().unwrap();
        assert_eq!(ALPHABET.chars().nth(v as usize), Some(c));
        assert_eq!(value_of(c), Some(v));
    }
    assert_eq!(symbol_of(0), "0");
    assert_eq!(symbol_of(10), "b");
    assert_eq!(symbol_of(17), "j");
    assert_eq!(symbol_of(31), "z");
}

#[test]
fn alphabet_accepts_lower_case_only() {
    assert_eq!(value_of('b'), Some(10));
    assert_eq!(value_of('B'), None);
    assert_eq!(value_of('Z'), None);
    assert_eq!(value_of(' '), None);
    assert_eq!(value_of('!'), None);
    assert_eq!(value_of('é'), None);
}

#[test]
fn encode_reference_vector() {
    assert_eq!(encode(point(57.64911, 10.40744), 6).unwrap(), "u4pruy");
}

#[test]
fn encode_known_hashes() {
    assert_eq!(encode(point(35.3003, -120.6623), 5).unwrap(), "9q60y");
    assert_eq!(encode(point(35.3003, -120.6623), 10).unwrap(), "9q60y60rhs");
    assert_eq!(encode(point(37.8324, 112.5584), 9).unwrap(), "ww8p1r4t8");
    assert_eq!(encode(point(42.6, -5.6), 5).unwrap(), "ezs42");
}

#[test]
fn encode_default_precision_is_twelve() {
    assert_eq!(DEFAULT_PRECISION, 12);
    assert_eq!(
        encode(point(57.64911, 10.40744), DEFAULT_PRECISION).unwrap(),
        "u4pruydqqvj8"
    );
}

#[test]
fn encode_matches_outside_codec() {
    for (lat, lon) in SAMPLE_POINTS {
        for len in 1..=12usize {
            let ours = encode(point(lat, lon), len).unwrap();
            let theirs = geohash::encode(geohash::Coord { x: lon, y: lat }, len).unwrap();
            assert_eq!(ours, theirs, "lat {} lon {} len {}", lat, lon, len);
        }
    }
}

#[test]
fn encode_zero_precision_is_empty() {
    for (lat, lon) in SAMPLE_POINTS {
        assert_eq!(encode(point(lat, lon), 0).unwrap(), "");
    }
    assert_eq!(encode(point(90.0, 180.0), 0).unwrap(), "");
}

#[test]
fn encode_has_the_length_asked_for() {
    for (lat, lon) in SAMPLE_POINTS {
        for len in [0usize, 1, 2, 5, 12, 13, 22, 23, 40, 100] {
            let hash = encode(point(lat, lon), len).unwrap();
            assert_eq!(hash.chars().count(), len);
            assert_eq!(hash.is_empty(), len == 0);
        }
    }
}

#[test]
fn encode_uses_the_alphabet_only() {
    for (lat, lon) in SAMPLE_POINTS {
        let hash = encode(point(lat, lon), 64).unwrap();
        for c in hash.chars() {
            assert!(ALPHABET.contains(c));
            assert!(value_of(c).is_some());
        }
    }
}

#[test]
fn encode_is_deterministic() {
    for (lat, lon) in SAMPLE_POINTS {
        for len in [1usize, 6, 12, 30] {
            assert_eq!(encode(point(lat, lon), len), encode(point(lat, lon), len));
        }
    }
}

#[test]
fn encode_prefixes_agree() {
    for (lat, lon) in SAMPLE_POINTS {
        let long = encode(point(lat, lon), 30).unwrap();
        for len in 0..30usize {
            assert_eq!(encode(point(lat, lon), len).unwrap(), &long[..len]);
        }
    }
}

#[test]
fn encode_corners_of_the_domain() {
    assert_eq!(encode(point(-90.0, -180.0), 4).unwrap(), "0000");
    assert_eq!(encode(point(90.0, 180.0), 4).unwrap(), "zzzz");
    assert_eq!(encode(point(0.0, 0.0), 4).unwrap(), "s000");
    assert_eq!(encode(point(-90.0, 180.0), 2).unwrap(), "pb");
    assert_eq!(encode(point(90.0, -180.0), 2).unwrap(), "bp");
}

#[test]
fn encode_midpoint_belongs_to_the_upper_half() {
    let just_below = Coordinate::new(Angle::from_raw(-1), Angle::from_raw(-1));
    assert_eq!(encode(just_below, 1).unwrap(), "7");
    assert_eq!(encode(point(0.0, 0.0), 1).unwrap(), "s");
    assert_eq!(encode(Coordinate::new(Angle::from_raw(-1), Angle::from_raw(0)), 1).unwrap(), "k");
    assert_eq!(encode(Coordinate::new(Angle::from_raw(0), Angle::from_raw(-1)), 1).unwrap(), "e");
}

#[test]
fn encode_refuses_a_latitude_out_of_range() {
    let lat = Angle::from_raw(91 * DEGREE);
    let lon = Angle::from_raw(0);
    assert_eq!(
        encode(Coordinate::new(lat, lon), 6),
        Err(CodecError::InvalidCoordinate { lat, lon })
    );
    match encode(point(91.0, 0.0), 6) {
        Err(CodecError::InvalidCoordinate { lat, lon }) => {
            assert_eq!(degrees(lat), 91.0);
            assert_eq!(degrees(lon), 0.0);
        }
        other => panic!("unexpected result {:?}", other),
    }
}

#[test]
fn encode_refuses_every_axis_out_of_range() {
    for (lat, lon) in [(90.5, 0.0), (-90.5, 0.0), (0.0, 180.5), (0.0, -180.5), (100.0, 200.0)] {
        for len in [0usize, 1, 12] {
            assert_eq!(
                encode(point(lat, lon), len),
                Err(CodecError::InvalidCoordinate { lat: angle(lat), lon: angle(lon) })
            );
        }
    }
    let over = Coordinate::new(Angle::from_raw(LAT_LIMIT + 1), Angle::from_raw(0));
    assert!(encode(over, 3).is_err());
    let edge = Coordinate::new(Angle::from_raw(-LAT_LIMIT), Angle::from_raw(LON_LIMIT));
    assert!(encode(edge, 3).is_ok());
    let far = Coordinate::new(Angle::from_raw(i64::MIN), Angle::from_raw(i64::MAX));
    assert!(encode(far, 3).is_err());
}

#[test]
fn decode_matches_outside_codec() {
    for hash in SAMPLE_HASHES {
        let b = decode_bbox(hash).unwrap();
        let rect = geohash::decode_bbox(hash).unwrap();
        assert_eq!(degrees(b.lat_min), rect.min().y);
        assert_eq!(degrees(b.lon_min), rect.min().x);
        assert_eq!(degrees(b.lat_max), rect.max().y);
        assert_eq!(degrees(b.lon_max), rect.max().x);
        let (c, lat_err, lon_err) = decode(hash).unwrap();
        let (gc, glon_err, glat_err) = geohash::decode(hash).unwrap();
        assert_eq!(degrees(c.lat), gc.y);
        assert_eq!(degrees(c.lon), gc.x);
        assert_eq!(degrees(lat_err), glat_err);
        assert_eq!(degrees(lon_err), glon_err);
    }
}

#[test]
fn decode_exact_is_decode() {
    for hash in SAMPLE_HASHES {
        assert_eq!(decode_exact(hash), decode(hash));
    }
    for hash in ["", "u4pru!", "A"] {
        assert_eq!(decode_exact(hash), decode(hash));
    }
}

#[test]
fn decode_one_character() {
    let b = decode_bbox("s").unwrap();
    assert_eq!(
        b,
        BoundingBox {
            lat_min: angle(0.0),
            lat_max: angle(45.0),
            lon_min: angle(0.0),
            lon_max: angle(45.0),
        }
    );
    assert_eq!(b.min(), point(0.0, 0.0));
    assert_eq!(b.max(), point(45.0, 45.0));
    let (c, lat_err, lon_err) = decode("s").unwrap();
    assert_eq!(c, point(22.5, 22.5));
    assert_eq!(lat_err, angle(22.5));
    assert_eq!(lon_err, angle(22.5));
}

#[test]
fn decode_two_characters_have_uneven_margins() {
    let (c, lat_err, lon_err) = decode("ez").unwrap();
    assert_eq!(degrees(lat_err), 2.8125);
    assert_eq!(degrees(lon_err), 5.625);
    assert_eq!(degrees(c.lat), 42.1875);
    assert_eq!(degrees(c.lon), -5.625);
}

#[test]
fn decode_reference_vector_brackets_the_point() {
    let b = decode_bbox("u4pruy").unwrap();
    let (c, _, _) = decode("u4pruy").unwrap();
    assert!(b.lat_min.raw() <= c.lat.raw() && c.lat.raw() <= b.lat_max.raw());
    assert!(b.lon_min.raw() <= c.lon.raw() && c.lon.raw() <= b.lon_max.raw());
    let p = point(57.64911, 10.40744);
    assert!(b.lat_min.raw() <= p.lat.raw() && p.lat.raw() <= b.lat_max.raw());
    assert!(b.lon_min.raw() <= p.lon.raw() && p.lon.raw() <= b.lon_max.raw());
    assert!((degrees(c.lat) - 57.64911).abs() < 0.003);
    assert!((degrees(c.lon) - 10.40744).abs() < 0.006);
}

#[test]
fn decode_empty_is_refused() {
    assert_eq!(decode(""), Err(CodecError::EmptyInput));
    assert_eq!(decode_bbox(""), Err(CodecError::EmptyInput));
    assert_eq!(decode_exact(""), Err(CodecError::EmptyInput));
}

#[test]
fn decode_stray_character_is_reported_with_its_index() {
    let expected = CodecError::InvalidCharacter { character: '!', index: 5 };
    assert_eq!(decode("u4pru!"), Err(expected));
    assert_eq!(decode_bbox("u4pru!"), Err(expected));
    assert_eq!(decode_exact("u4pru!"), Err(expected));
}

#[test]
fn decode_reports_the_first_stray_character() {
    assert_eq!(
        decode_bbox("a4pru!"),
        Err(CodecError::InvalidCharacter { character: 'a', index: 0 })
    );
    assert_eq!(
        decode_bbox("u4 pru!"),
        Err(CodecError::InvalidCharacter { character: ' ', index: 2 })
    );
    assert_eq!(
        decode_bbox("9qé0"),
        Err(CodecError::InvalidCharacter { character: 'é', index: 2 })
    );
    assert_eq!(
        decode_bbox("9q€0l"),
        Err(CodecError::InvalidCharacter { character: '€', index: 2 })
    );
}

#[test]
fn decode_refuses_upper_case_and_blanks() {
    assert_eq!(
        decode_bbox("U4PRUY"),
        Err(CodecError::InvalidCharacter { character: 'U', index: 0 })
    );
    assert_eq!(
        decode_bbox("u4pRuy"),
        Err(CodecError::InvalidCharacter { character: 'R', index: 3 })
    );
    assert_eq!(decode_bbox(" "), Err(CodecError::InvalidCharacter { character: ' ', index: 0 }));
    assert_eq!(
        decode_bbox("u4pruy\n"),
        Err(CodecError::InvalidCharacter { character: '\n', index: 6 })
    );
}

#[test]
fn decode_box_of_a_prefix_contains_the_box() {
    for hash in SAMPLE_HASHES {
        let inner = decode_bbox(hash).unwrap();
        for len in 1..=hash.len() {
            let outer = decode_bbox(&hash[..len]).unwrap();
            assert!(outer.lat_min.raw() <= inner.lat_min.raw());
            assert!(inner.lat_max.raw() <= outer.lat_max.raw());
            assert!(outer.lon_min.raw() <= inner.lon_min.raw());
            assert!(inner.lon_max.raw() <= outer.lon_max.raw());
        }
    }
}

#[test]
fn decode_margins_are_half_the_box() {
    for hash in SAMPLE_HASHES {
        let b = decode_bbox(hash).unwrap();
        let (c, lat_err, lon_err) = decode(hash).unwrap();
        assert_eq!(2 * lat_err.raw(), b.lat_max.raw() - b.lat_min.raw());
        assert_eq!(2 * lon_err.raw(), b.lon_max.raw() - b.lon_min.raw());
        assert_eq!(c.lat.raw() - lat_err.raw(), b.lat_min.raw());
        assert_eq!(c.lat.raw() + lat_err.raw(), b.lat_max.raw());
        assert_eq!(c.lon.raw() - lon_err.raw(), b.lon_min.raw());
        assert_eq!(c.lon.raw() + lon_err.raw(), b.lon_max.raw());
    }
}

#[test]
fn decode_widths_follow_the_number_of_cuts() {
    let mut hash = String::new();
    for n in 1..=22u32 {
        hash.push('k');
        let b = decode_bbox(&hash).unwrap();
        let lon_cuts = (5 * n + 1) / 2;
        let lat_cuts = (5 * n) / 2;
        assert_eq!((b.lon_max.raw() - b.lon_min.raw()) as i128, (360 * (DEGREE as i128)) >> lon_cuts);
        assert_eq!((b.lat_max.raw() - b.lat_min.raw()) as i128, (180 * (DEGREE as i128)) >> lat_cuts);
    }
    let last = decode_bbox(&hash).unwrap();
    assert_eq!(last.lon_max.raw() - last.lon_min.raw(), 180);
    assert_eq!(last.lat_max.raw() - last.lat_min.raw(), 90);
}

#[test]
fn round_trip_stays_within_the_margins() {
    for (lat, lon) in SAMPLE_POINTS {
        let p = point(lat, lon);
        for len in [1usize, 2, 3, 6, 11, 12, 18, 22, 23, 30, 60] {
            let hash = encode(p, len).unwrap();
            let (c, lat_err, lon_err) = decode(&hash).unwrap();
            assert!((c.lat.raw() - p.lat.raw()).abs() <= lat_err.raw());
            assert!((c.lon.raw() - p.lon.raw()).abs() <= lon_err.raw());
            let b = decode_bbox(&hash).unwrap();
            assert!(b.lat_min.raw() <= p.lat.raw() && p.lat.raw() <= b.lat_max.raw());
            assert!(b.lon_min.raw() <= p.lon.raw() && p.lon.raw() <= b.lon_max.raw());
        }
    }
}

#[test]
fn round_trip_of_a_hash_gives_the_hash() {
    for hash in SAMPLE_HASHES {
        let (c, _, _) = decode(hash).unwrap();
        assert_eq!(encode(c, hash.len()).unwrap(), hash);
    }
}

#[test]
fn decode_long_hashes_stay_at_the_resolution() {
    let hash = encode(point(57.64911, 10.40744), 80).unwrap();
    let b = decode_bbox(&hash).unwrap();
    assert_eq!(b.lat_max.raw() - b.lat_min.raw(), 90);
    assert_eq!(b.lon_max.raw() - b.lon_min.raw(), 90);
    assert_eq!(b, decode_bbox(&hash[..23]).unwrap());
    let zeros = "0".repeat(40);
    let z = decode_bbox(&zeros).unwrap();
    assert_eq!(z.lat_min.raw(), -LAT_LIMIT);
    assert_eq!(z.lat_max.raw(), -LAT_LIMIT + 90);
    assert_eq!(z.lon_min.raw(), -LON_LIMIT);
    assert_eq!(z.lon_max.raw(), -LON_LIMIT + 90);
    assert_eq!(z, decode_bbox(&zeros[..23]).unwrap());
}

#[test]
fn bisector_starts_with_the_whole_domain() {
    let b = faster_geohash::bisect::Bisector::new().bounds();
    assert_eq!(b.lat_min.raw(), -LAT_LIMIT);
    assert_eq!(b.lat_max.raw(), LAT_LIMIT);
    assert_eq!(b.lon_min.raw(), -LON_LIMIT);
    assert_eq!(b.lon_max.raw(), LON_LIMIT);
}

#[test]
fn bisector_cuts_longitude_first_and_then_in_turn() {
    let start = faster_geohash::bisect::Bisector::new();
    let east = start.narrow(true).bounds();
    assert_eq!((degrees(east.lon_min), degrees(east.lon_max)), (0.0, 180.0));
    assert_eq!((degrees(east.lat_min), degrees(east.lat_max)), (-90.0, 90.0));
    let south_east = start.narrow(true).narrow(false).bounds();
    assert_eq!((degrees(south_east.lon_min), degrees(south_east.lon_max)), (0.0, 180.0));
    assert_eq!((degrees(south_east.lat_min), degrees(south_east.lat_max)), (-90.0, 0.0));
    let third = start.narrow(true).narrow(false).narrow(false).bounds();
    assert_eq!((degrees(third.lon_min), degrees(third.lon_max)), (0.0, 90.0));
}

#[test]
fn bisector_side_puts_the_midpoint_in_the_upper_half() {
    let start = faster_geohash::bisect::Bisector::new();
    assert!(start.side(point(0.0, 0.0)));
    assert!(!start.side(point(0.0, -0.5)));
    assert!(start.side(point(-50.0, 0.5)));
    let second = start.narrow(true);
    assert!(second.side(point(0.0, 10.0)));
    assert!(!second.side(point(-0.5, 10.0)));
}

#[test]
fn bisector_symbols_agree_in_both_directions() {
    let start = faster_geohash::bisect::Bisector::new();
    let p = point(57.64911, 10.40744);
    let (v, after) = start.locate_symbol(p);
    assert_eq!(v, 26);
    assert_eq!(symbol_of(v), "u");
    assert_eq!(after.bounds(), start.narrow_symbol(26).bounds());
    assert_eq!(after.bounds(), decode_bbox("u").unwrap());
    let (second, last) = after.locate_symbol(p);
    assert_eq!(second, 4);
    assert_eq!(last.bounds(), decode_bbox("u4").unwrap());
    assert_eq!(start.narrow_symbol(26 + 32).bounds(), start.narrow_symbol(26).bounds());
}

#[test]
fn decode_margins_are_half_the_box_at_any_length() {
    for symbol in ["0", "z", "k", "7", "s", "u"] {
        for len in [1usize, 12, 21, 22, 23, 24, 25, 40, 100] {
            let hash = symbol.repeat(len);
            let b = decode_bbox(&hash).unwrap();
            let (c, lat_err, lon_err) = decode(&hash).unwrap();
            assert!(lat_err.raw() > 0);
            assert!(lon_err.raw() > 0);
            assert_eq!(2 * lat_err.raw(), b.lat_max.raw() - b.lat_min.raw());
            assert_eq!(2 * lon_err.raw(), b.lon_max.raw() - b.lon_min.raw());
            assert_eq!(2 * c.lat.raw(), b.lat_min.raw() + b.lat_max.raw());
            assert_eq!(2 * c.lon.raw(), b.lon_min.raw() + b.lon_max.raw());
            assert_eq!(decode_exact(&hash), decode(&hash));
        }
    }
    let hash = "z".repeat(23);
    let b = decode_bbox(&hash).unwrap();
    let (c, lat_err, lon_err) = decode(&hash).unwrap();
    assert_eq!(b.lat_max.raw(), LAT_LIMIT);
    assert_eq!(b.lat_max.raw() - b.lat_min.raw(), 90);
    assert_eq!(lat_err.raw(), 45);
    assert_eq!(c.lat.raw(), LAT_LIMIT - 45);
    assert_eq!(b.lon_max.raw(), LON_LIMIT);
    assert_eq!(b.lon_max.raw() - b.lon_min.raw(), 90);
    assert_eq!(lon_err.raw(), 45);
    assert_eq!(c.lon.raw(), LON_LIMIT - 45);
}

#[test]
fn coordinate_orders_are_converted_explicitly() {
    let lat = angle(57.64911);
    let lon = angle(10.40744);
    let c = Coordinate::new(lat, lon);
    assert_eq!(c.lat, lat);
    assert_eq!(c.lon, lon);
    assert_eq!(Coordinate::from_xy(lon, lat), c);
    assert_eq!(c.xy(), (lon, lat));
    assert_ne!(Coordinate::from_xy(lat, lon), c);
    assert_eq!(encode(Coordinate::from_xy(lon, lat), 6).unwrap(), "u4pruy");
}

#[test]
fn coordinate_domain_is_closed() {
    assert!(point(90.0, 180.0).is_in_domain());
    assert!(point(-90.0, -180.0).is_in_domain());
    assert!(point(0.0, 0.0).is_in_domain());
    assert!(!Coordinate::new(Angle::from_raw(LAT_LIMIT + 1), Angle::from_raw(0)).is_in_domain());
    assert!(!Coordinate::new(Angle::from_raw(0), Angle::from_raw(-LON_LIMIT - 1)).is_in_domain());
    assert!(!point(90.0, 180.5).is_in_domain());
    assert_eq!(Angle::from_raw(DEGREE).raw(), 1i64 << 54);
    assert_eq!(LAT_LIMIT, 90 * DEGREE);
    assert_eq!(LON_LIMIT, 180 * DEGREE);
    assert_eq!(faster_geohash::angle::FRACTION_BITS, 54);
}
