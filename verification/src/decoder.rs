//! Decoding: from a hash to its bounding box, its centre and its error margins.
use vstd::prelude::*;
use crate::alphabet::{all_symbols, in_alphabet, value_of};
use crate::angle::{Angle, BoundingBox, Cell, Coordinate};
use crate::bisect::{cell_of, half_width, lemma_walk_push, midpoint, walk_of, Bisector};
use crate::error::CodecError;
use crate::format::{format_spec, format_to_precision};
use crate::precision::{error_to_precision, precision_of};

verus! {

/// A hash that can be decoded: at least one character, all from the alphabet.
pub open spec fn is_geohash(s: Seq<char>) -> bool {
    s.len() > 0 && all_symbols(s)
}

/// Position `i` holds the first character of `s` that is not in the alphabet.
pub open spec fn first_stray(s: Seq<char>, i: int) -> bool {
    &&& 0 <= i < s.len()
    &&& !in_alphabet(s[i])
    &&& forall|j: int| 0 <= j < i ==> in_alphabet(#[trigger] s[j])
}

/// The error `e` is the one that decoding `s` reports: an empty hash is
/// refused as such, any other by its first stray character.
pub open spec fn rejects(s: Seq<char>, e: CodecError) -> bool {
    match e {
        CodecError::EmptyInput => s.len() == 0,
        CodecError::InvalidCharacter { character, index } => {
            &&& first_stray(s, index as int)
            &&& character == s[index as int]
        },
        _ => false,
    }
}

/// The centre of a cell: the midpoint of each range, latitude first.
pub open spec fn center(c: Cell) -> (int, int) {
    (midpoint(c.lat_lo, c.lat_hi), midpoint(c.lon_lo, c.lon_hi))
}

/// The error margins of a cell: half the width of each range, latitude
/// first.
pub open spec fn margins(c: Cell) -> (int, int) {
    (half_width(c.lat_lo, c.lat_hi), half_width(c.lon_lo, c.lon_hi))
}

/// The walk over all characters of a hash, or the reason to refuse it.
fn walk(hash: &str) -> (r: Result<Bisector, CodecError>)
    ensures
        r is Ok <==> is_geohash(hash@),
        match r {
            Ok(w) => w@ == walk_of(hash@),
            Err(e) => rejects(hash@, e),
        },
{
    let total = hash.unicode_len();
    if total == 0 {
        return Err(CodecError::EmptyInput);
    }
    let mut w = Bisector::new();
    let mut index: usize = 0;
    assert(hash@.take(0) =~= Seq::<char>::empty());
    for c in it: hash.chars()
        invariant
            it.seq() == hash@,
            total == hash@.len(),
            index == it.index(),
            w@ == walk_of(hash@.take(index as int)),
            all_symbols(hash@.take(index as int)),
    {
        match value_of(c) {
            None => {
                proof {
                    assert(c == hash@[index as int]);
                    assert forall|j: int| 0 <= j < index implies in_alphabet(#[trigger] hash@[j]) by {
                        assert(hash@.take(index as int)[j] == hash@[j]);
                    }
                }
                return Err(CodecError::InvalidCharacter { character: c, index });
            },
            Some(v) => {
                proof {
                    lemma_walk_push(hash@.take(index as int), c);
                    assert(hash@.take(index as int).push(c) =~= hash@.take(index + 1));
                }
                w = w.narrow_symbol(v);
                index = index + 1;
            },
        }
    }
    assert(hash@.take(index as int) =~= hash@);
    Ok(w)
}

/// Decodes a hash into the box that it names.
///
/// Every character is read as five bits, most significant first; each bit
/// halves one axis of the box, longitude first and then in turn, down to
/// the resolution of the angles. Both ranges of the box are of an even
/// width in units and not empty.
///
/// An empty hash is refused. So is a hash with a character that is not a
/// symbol of the alphabet, with that character and its position; only the
/// lower-case symbols are read, so an upper-case letter or a blank is
/// such a character.
pub fn decode_bbox(hash: &str) -> (r: Result<BoundingBox, CodecError>)
    ensures
        r is Ok <==> is_geohash(hash@),
        match r {
            Ok(b) => b@ == cell_of(hash@) && b@.wf(),
            Err(e) => rejects(hash@, e),
        },
{
    match walk(hash) {
        Ok(w) => Ok(w.bounds()),
        Err(e) => Err(e),
    }
}

/// Decodes a hash into the centre of its box and the error margins of
/// latitude and of longitude, in that order.
///
/// The centre is the exact middle of the box of [`decode_bbox`], and each
/// margin is exactly half the width of that box on its axis and is
/// positive, so the point that was encoded lies within the margins. This
/// holds at any length of hash: bits below the resolution of the angles
/// change nothing. Hashes are refused as by [`decode_bbox`].
pub fn decode(hash: &str) -> (r: Result<(Coordinate, Angle, Angle), CodecError>)
    ensures
        r is Ok <==> is_geohash(hash@),
        match r {
            Ok((c, lat_err, lon_err)) => {
                let cell = cell_of(hash@);
                &&& (c.lat@, c.lon@) == center(cell)
                &&& 2 * c.lat@ == cell.lat_lo + cell.lat_hi
                &&& 2 * c.lon@ == cell.lon_lo + cell.lon_hi
                &&& (lat_err@, lon_err@) == margins(cell)
                &&& 2 * lat_err@ == cell.lat_hi - cell.lat_lo
                &&& 2 * lon_err@ == cell.lon_hi - cell.lon_lo
                &&& lat_err@ > 0
                &&& lon_err@ > 0
            },
            Err(e) => rejects(hash@, e),
        },
{
    match walk(hash) {
        Ok(w) => {
            let b = w.bounds();
            let lat_err: i64 = (b.lat_max.raw - b.lat_min.raw) / 2;
            let lon_err: i64 = (b.lon_max.raw - b.lon_min.raw) / 2;
            Ok(
                (
                    Coordinate {
                        lat: Angle { raw: b.lat_min.raw + lat_err },
                        lon: Angle { raw: b.lon_min.raw + lon_err },
                    },
                    Angle { raw: lat_err },
                    Angle { raw: lon_err },
                ),
            )
        },
        Err(e) => Err(e),
    }
}

/// The same as [`decode`]: the centre with both error margins spelled out.
pub fn decode_exact(hash: &str) -> (r: Result<(Coordinate, Angle, Angle), CodecError>)
    ensures
        r is Ok <==> is_geohash(hash@),
        match r {
            Ok((c, lat_err, lon_err)) => {
                let cell = cell_of(hash@);
                &&& (c.lat@, c.lon@) == center(cell)
                &&& 2 * c.lat@ == cell.lat_lo + cell.lat_hi
                &&& 2 * c.lon@ == cell.lon_lo + cell.lon_hi
                &&& (lat_err@, lon_err@) == margins(cell)
                &&& 2 * lat_err@ == cell.lat_hi - cell.lat_lo
                &&& 2 * lon_err@ == cell.lon_hi - cell.lon_lo
                &&& lat_err@ > 0
                &&& lon_err@ > 0
            },
            Err(e) => rejects(hash@, e),
        },
{
    decode(hash)
}

/// Decodes a hash into the decimal texts of the latitude and the longitude
/// of its centre, in that order, each written with as many decimals as its
/// error margin makes meaningful.
///
/// Hashes are refused as by [`decode_bbox`], and for no other reason: the
/// margins of a box are positive, so each has a precision.
pub fn decode_formatted(hash: &str) -> (r: Result<(String, String), CodecError>)
    ensures
        r is Ok <==> is_geohash(hash@),
        match r {
            Ok((lat, lon)) => {
                let c = cell_of(hash@);
                &&& lat@ == format_spec(center(c).0, precision_of(margins(c).0))
                &&& lon@ == format_spec(center(c).1, precision_of(margins(c).1))
            },
            Err(e) => rejects(hash@, e),
        },
{
    let (point, lat_err, lon_err) = match decode(hash) {
        Ok(decoded) => decoded,
        Err(e) => {
            return Err(e);
        },
    };
    // A margin that is not positive would be refused here; no box has one.
    let lon_digits = match error_to_precision(lon_err) {
        Ok(d) => d,
        Err(e) => {
            return Err(e);
        },
    };
    let lat_digits = match error_to_precision(lat_err) {
        Ok(d) => d,
        Err(e) => {
            return Err(e);
        },
    };
    let lon = format_to_precision(point.lon, lon_digits);
    let lat = format_to_precision(point.lat, lat_digits);
    Ok((lat, lon))
}

} // verus!
