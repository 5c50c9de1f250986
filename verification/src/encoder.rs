//! Encoding: from a coordinate to the hash of a chosen length.
use vstd::prelude::*;
use crate::alphabet::{all_symbols, lemma_symbol_value, symbol, symbol_of};
use crate::angle::Coordinate;
use crate::bisect::{
    cell_of, hash_of, lemma_locate_symbol, lemma_walk_push, locate_symbol, walk_of, world, Bisector,
};
use crate::error::CodecError;

verus! {

/// The hash length to use when the caller has no preference.
pub const DEFAULT_PRECISION: usize = 12;

/// The hash of a point in the domain has the length asked for, is made of
/// symbols of the alphabet, and names a cell that holds the point.
pub proof fn lemma_hash_shape(lat: int, lon: int, n: nat)
    requires
        world().holds(lat, lon),
    ensures
        hash_of(lat, lon, n).len() == n,
        all_symbols(hash_of(lat, lon, n)),
        cell_of(hash_of(lat, lon, n)).holds(lat, lon),
    decreases n,
{
    if n > 0 {
        let prefix = hash_of(lat, lon, (n - 1) as nat);
        let v = locate_symbol(walk_of(prefix), lat, lon);
        lemma_hash_shape(lat, lon, (n - 1) as nat);
        lemma_locate_symbol(walk_of(prefix), lat, lon);
        lemma_symbol_value(v);
        lemma_walk_push(prefix, symbol(v));
    }
}

/// Encodes a coordinate as a hash of exactly `precision` characters.
///
/// Starting from the whole domain, each bit halves one axis, longitude
/// first and then in turn; the bit is set when the coordinate lies in the
/// upper half, midpoint included. Five bits make one character. A
/// precision of zero gives the empty string. Beyond the resolution of the
/// angles, which a hash of 22 characters uses up, a range is halved no
/// further and the bits tell the side of its midpoint.
///
/// A coordinate outside the domain is refused, and the error reports it
/// latitude first.
pub fn encode(coord: Coordinate, precision: usize) -> (r: Result<String, CodecError>)
    ensures
        r is Ok <==> coord.in_domain(),
        match r {
            Ok(hash) => {
                &&& hash@ == hash_of(coord.lat@, coord.lon@, precision as nat)
                &&& hash@.len() == precision
                &&& all_symbols(hash@)
                &&& cell_of(hash@).holds(coord.lat@, coord.lon@)
            },
            Err(e) => e == (CodecError::InvalidCoordinate { lat: coord.lat, lon: coord.lon }),
        },
{
    if !coord.is_in_domain() {
        return Err(CodecError::InvalidCoordinate { lat: coord.lat, lon: coord.lon });
    }
    let mut out = String::new();
    let mut w = Bisector::new();
    let mut i: usize = 0;
    while i < precision
        invariant
            i <= precision,
            out@ == hash_of(coord.lat@, coord.lon@, i as nat),
            w@ == walk_of(out@),
        decreases precision - i,
    {
        let (v, next) = w.locate_symbol(coord);
        proof {
            lemma_symbol_value(v as int);
            lemma_walk_push(out@, symbol(v as int));
            assert(out@ + seq![symbol(v as int)] =~= out@.push(symbol(v as int)));
        }
        out.append(symbol_of(v));
        w = next;
        i = i + 1;
    }
    proof {
        lemma_hash_shape(coord.lat@, coord.lon@, precision as nat);
    }
    Ok(out)
}

} // verus!
