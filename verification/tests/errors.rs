use faster_geohash::angle::{Angle, DEGREE};
use faster_geohash::error::CodecError;

fn fixed(degrees: f64) -> Angle {
    Angle::from_raw((degrees * (DEGREE as f64)).floor() as i64)
}

#[test]
fn message_of_a_coordinate_names_latitude_first() {
    let e = CodecError::InvalidCoordinate { lat: fixed(91.0), lon: fixed(0.0) };
    assert_eq!(e.message(), "invalid coordinate range: COORD(lat=91, lng=0)");
    let e = CodecError::InvalidCoordinate { lat: fixed(-12.5), lon: fixed(180.25) };
    assert_eq!(e.message(), "invalid coordinate range: COORD(lat=-12.5, lng=180.25)");
}

#[test]
fn message_of_a_character_names_it_and_its_index() {
    let e = CodecError::InvalidCharacter { character: '!', index: 5 };
    assert_eq!(e.message(), "invalid hash character: ! at index 5");
    let e = CodecError::InvalidCharacter { character: 'é', index: 120 };
    assert_eq!(e.message(), "invalid hash character: é at index 120");
    let e = CodecError::InvalidCharacter { character: 'a', index: 0 };
    assert_eq!(e.message(), "invalid hash character: a at index 0");
}

#[test]
fn message_of_an_empty_hash() {
    assert_eq!(CodecError::EmptyInput.message(), "empty hash: nothing to decode");
}

#[test]
fn message_of_a_margin() {
    let e = CodecError::NonPositiveMargin { margin: fixed(0.0) };
    assert_eq!(e.message(), "error margin is not positive: 0");
    let e = CodecError::NonPositiveMargin { margin: fixed(-0.5) };
    assert_eq!(e.message(), "error margin is not positive: -0.5");
}
