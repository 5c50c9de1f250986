use faster_geohash::angle::{Angle, Coordinate, DEGREE};
use faster_geohash::decoder::{decode, decode_bbox, decode_formatted};
use faster_geohash::encoder::encode;

fn fixed(degrees: f64) -> Angle {
    Angle::from_raw((degrees * (DEGREE as f64)).floor() as i64)
}

fn float(a: Angle) -> f64 {
    (a.raw() as f64) / (DEGREE as f64)
}

fn next(state: &mut u64) -> u64 {
    *state = state.wrapping_mul(6364136223846793005).wrapping_add(1442695040888963407);
    *state >> 11
}

fn unit(state: &mut u64) -> f64 {
    (next(state) as f64) / ((1u64 << 53) as f64)
}

fn float_precision(error: f64) -> usize {
    let v = (-error.log10()).round();
    (std::cmp::max(v as i64, 1) - 1) as usize
}

fn float_format(value: f64, precision: usize) -> String {
    let v = format!("{:.*}", precision, value);
    if v.contains('.') {
        v.trim_end_matches('0').trim_end_matches('.').to_string()
    } else {
        v
    }
}

#[test]
fn sweep_encode_against_outside_codec() {
    let mut state = 7u64;
    let mut differing = 0;
    for _ in 0..3000 {
        let lat = unit(&mut state) * 180.0 - 90.0;
        let lon = unit(&mut state) * 360.0 - 180.0;
        let len = 1 + (next(&mut state) % 12) as usize;
        let ours = encode(Coordinate::new(fixed(lat), fixed(lon)), len).unwrap();
        let theirs = geohash::encode(geohash::Coord { x: lon, y: lat }, len).unwrap();
        if ours != theirs {
            differing += 1;
        }
    }
    assert_eq!(differing, 0);
}

#[test]
fn sweep_decode_against_outside_codec() {
    let alphabet: Vec<char> = "0123456789bcdefghjkmnpqrstuvwxyz".chars().collect();
    let mut state = 11u64;
    for _ in 0..3000 {
        let len = 1 + (next(&mut state) % 12) as usize;
        let mut hash = String::new();
        for _ in 0..len {
            hash.push(alphabet[(next(&mut state) % 32) as usize]);
        }
        let b = decode_bbox(&hash).unwrap();
        let rect = geohash::decode_bbox(&hash).unwrap();
        assert_eq!(float(b.lat_min), rect.min().y);
        assert_eq!(float(b.lon_min), rect.min().x);
        assert_eq!(float(b.lat_max), rect.max().y);
        assert_eq!(float(b.lon_max), rect.max().x);
        let (c, lat_err, lon_err) = decode(&hash).unwrap();
        let (gc, glon_err, glat_err) = geohash::decode(&hash).unwrap();
        assert_eq!(float(c.lat), gc.y);
        assert_eq!(float(c.lon), gc.x);
        assert_eq!(float(lat_err), glat_err);
        assert_eq!(float(lon_err), glon_err);
        let lat = float_format(gc.y, float_precision(glat_err));
        let lon = float_format(gc.x, float_precision(glon_err));
        assert_eq!(decode_formatted(&hash), Ok((lat, lon)), "hash {}", hash);
        assert_eq!(encode(c, len).unwrap(), hash);
    }
}
