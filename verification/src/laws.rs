//! Laws that relate the operations of the codec to one another.
use vstd::prelude::*;
use crate::alphabet::{all_symbols, in_alphabet, symbol_value};
use crate::angle::DEGREE;
use crate::bisect::{cell_of, hash_of, lemma_narrow_symbol, lemma_walk_wf, walk_of, world};
use crate::decimal::{
    decimal, digit_value, fraction_digits, lemma_fraction_shape, lemma_pow10_positive,
    lemma_read_fraction, lemma_read_stripped, lemma_read_whole, pow10, read_decimal, read_digits,
    strip_zeros, Reading,
};
use crate::decoder::{center, is_geohash, margins};
use crate::encoder::lemma_hash_shape;
use crate::format::{format_spec, magnitude, rounded, rounding_gap};
use crate::precision::{
    is_precision, lemma_coarse_margin, lemma_precision_exists, lemma_precision_unique, precision_of,
};
use crate::resolution::{lemma_last_symbol, EXACT_LEN};

verus! {

/// The distance between two integers.
pub open spec fn distance(a: int, b: int) -> int {
    if a <= b {
        b - a
    } else {
        a - b
    }
}

/// Round trip: the hash of a point in the domain, of any length from one
/// character up, decodes; and the centre that decoding gives differs from
/// the point, on each axis, by no more than the margin given with it.
pub proof fn law_round_trip(lat: int, lon: int, n: nat)
    requires
        world().holds(lat, lon),
        n >= 1,
    ensures
        is_geohash(hash_of(lat, lon, n)),
        ({
            let c = cell_of(hash_of(lat, lon, n));
            &&& c.holds(lat, lon)
            &&& distance(center(c).0, lat) <= margins(c).0
            &&& distance(center(c).1, lon) <= margins(c).1
        }),
{
    lemma_hash_shape(lat, lon, n);
    lemma_walk_wf(hash_of(lat, lon, n));
}

/// Determinism: the hash depends on nothing but the point and the length.
pub proof fn law_encode_deterministic(lat1: int, lon1: int, n1: nat, lat2: int, lon2: int, n2: nat)
    requires
        lat1 == lat2,
        lon1 == lon2,
        n1 == n2,
    ensures
        hash_of(lat1, lon1, n1) == hash_of(lat2, lon2, n2),
{
}

/// Length and alphabet: the hash of a point in the domain has exactly the
/// length asked for, so it is empty exactly for the length zero, and all
/// its characters are symbols of the alphabet.
pub proof fn law_hash_shape(lat: int, lon: int, n: nat)
    requires
        world().holds(lat, lon),
    ensures
        hash_of(lat, lon, n).len() == n,
        hash_of(lat, lon, n) == Seq::<char>::empty() <==> n == 0,
        all_symbols(hash_of(lat, lon, n)),
{
    lemma_hash_shape(lat, lon, n);
    if n == 0 {
        assert(hash_of(lat, lon, n) =~= Seq::<char>::empty());
    }
}

/// Monotonicity: the box of a prefix of a hash contains the box of the
/// hash; and a prefix of a hash that can be decoded can itself be decoded,
/// unless it is empty.
pub proof fn law_prefix_contains(short: Seq<char>, long: Seq<char>)
    requires
        short.is_prefix_of(long),
    ensures
        cell_of(short).contains(cell_of(long)),
        is_geohash(long) && short.len() > 0 ==> is_geohash(short),
    decreases long.len() - short.len(),
{
    if short.len() == long.len() {
        assert(short =~= long);
    } else {
        let front = long.drop_last();
        assert(short =~= front.subrange(0, short.len() as int));
        law_prefix_contains(short, front);
        lemma_walk_wf(front);
        lemma_narrow_symbol(walk_of(front), symbol_value(long.last()));
    }
    if is_geohash(long) && short.len() > 0 {
        assert forall|i: int| 0 <= i < short.len() implies in_alphabet(#[trigger] short[i]) by {
            assert(short[i] == long[i]);
        }
    }
}

/// Encoding inverts decoding: a point that lies in the box of a hash of
/// at most twenty-two characters, below the upper edges, has that hash, at
/// the length of the hash. So the hash of a point, up to that length, is
/// the only hash of its length whose box holds the point below its upper
/// edges. (The bits of a longer hash that lie below the resolution do not
/// change its box, so the box does not tell them.)
pub proof fn law_point_of_cell(hash: Seq<char>, lat: int, lon: int)
    requires
        all_symbols(hash),
        hash.len() <= EXACT_LEN,
        cell_of(hash).holds_below_top(lat, lon),
    ensures
        hash_of(lat, lon, hash.len()) == hash,
    decreases hash.len(),
{
    if hash.len() == 0 {
        assert(hash =~= Seq::<char>::empty());
    } else {
        let front = hash.drop_last();
        assert(in_alphabet(hash[hash.len() - 1]));
        assert forall|i: int| 0 <= i < front.len() implies in_alphabet(#[trigger] front[i]) by {
            assert(front[i] == hash[i]);
        }
        lemma_last_symbol(hash, lat, lon);
        law_point_of_cell(front, lat, lon);
        assert(front.push(hash.last()) =~= hash);
    }
}

/// The centre of the box of a hash of at most twenty-two characters has
/// that hash.
pub proof fn law_center_of_cell(hash: Seq<char>)
    requires
        all_symbols(hash),
        hash.len() <= EXACT_LEN,
    ensures
        hash_of(center(cell_of(hash)).0, center(cell_of(hash)).1, hash.len()) == hash,
{
    lemma_walk_wf(hash);
    law_point_of_cell(hash, center(cell_of(hash)).0, center(cell_of(hash)).1);
}

/// Margins and box: for every hash, of any length, the centre is the exact
/// middle of the box, each margin is exactly half the width of the box on
/// its axis and is positive, and the box reaches from the centre less the
/// margin to the centre plus the margin.
pub proof fn law_margins_match_box(hash: Seq<char>)
    ensures
        ({
            let c = cell_of(hash);
            &&& 2 * margins(c).0 == c.lat_hi - c.lat_lo
            &&& 2 * margins(c).1 == c.lon_hi - c.lon_lo
            &&& margins(c).0 > 0
            &&& margins(c).1 > 0
            &&& 2 * center(c).0 == c.lat_lo + c.lat_hi
            &&& 2 * center(c).1 == c.lon_lo + c.lon_hi
            &&& center(c).0 - margins(c).0 == c.lat_lo
            &&& center(c).0 + margins(c).0 == c.lat_hi
            &&& center(c).1 - margins(c).1 == c.lon_lo
            &&& center(c).1 + margins(c).1 == c.lon_hi
        }),
{
    lemma_walk_wf(hash);
}

/// Floor of the estimate: every positive margin has a precision, which is
/// a count of digits and so not negative; it is zero for every margin of
/// one degree or more.
pub proof fn law_precision_floor(margin: int)
    requires
        margin > 0,
    ensures
        is_precision(margin, precision_of(margin)),
        precision_of(margin) >= 0,
        margin >= DEGREE ==> precision_of(margin) == 0,
{
    lemma_precision_exists(margin);
    if margin >= DEGREE {
        lemma_coarse_margin(margin);
    }
}

/// Nearest decimal: an angle of `value` units, written with `d` decimals,
/// is written as the multiple of ten to the minus `d` that is nearest to
/// it: the two differ by half of ten to the minus `d` at most.
pub proof fn law_format_nearest(value: int, d: nat)
    ensures
        2 * rounding_gap(value, d) <= DEGREE,
{
    let n = magnitude(value) * pow10(d);
    let u = DEGREE as int;
    vstd::arithmetic::div_mod::lemma_fundamental_div_mod(n as int, u);
    let q = n as int / u;
    let r = n as int % u;
    assert(n == u * q + r);
    assert((q + 1) * u == u * q + u) by (nonlinear_arith);
    assert(q * u == u * q) by (nonlinear_arith);
}

/// Formatting under a margin: an angle written with the precision of a
/// positive margin is written as a number less than sixteen margins away
/// from it; and no more than one margin away if the margin is half a
/// degree or more, in which case the precision is zero. The margin is
/// brought to the scale of the gap, units times ten to the precision.
pub proof fn law_format_within_margin(value: int, margin: int)
    requires
        margin > 0,
    ensures
        ({
            let d = precision_of(margin);
            &&& rounding_gap(value, d) < 16 * (margin * pow10(d))
            &&& 2 * margin >= DEGREE ==> d == 0 && rounding_gap(value, d) <= margin * pow10(d)
        }),
{
    let d = precision_of(margin);
    let x = margin * pow10(d);
    let u = DEGREE as int;
    lemma_precision_exists(margin);
    law_format_nearest(value, d);
    lemma_pow10_positive(d);
    assert(x >= 0) by (nonlinear_arith)
        requires
            x == margin * pow10(d),
            margin > 0,
            pow10(d) > 0,
    ;
    if 32 * x <= u {
        assert((32 * x) * (32 * x) <= u * u) by (nonlinear_arith)
            requires
                0 <= 32 * x <= u,
        ;
        assert((32 * x) * (32 * x) == 1024 * (x * x)) by (nonlinear_arith);
    }
    if 2 * margin >= DEGREE {
        assert(pow10(0) == 1);
        assert(margin * 1 == margin);
        assert(1000 * (margin * margin) > u * u) by (nonlinear_arith)
            requires
                2 * margin >= u,
                u > 0,
        ;
        assert(is_precision(margin, 0));
        lemma_precision_unique(margin, 0);
    }
}

/// Reading back: the text of an angle written with `d` decimals carries a
/// minus sign exactly if the angle is negative, and what follows the sign
/// reads as the rounded number of steps of ten to the minus `d`, with the
/// zeros that were dropped put back.
pub proof fn law_format_reads_back(value: int, d: nat)
    ensures
        ({
            let (negative, reading) = read_decimal(format_spec(value, d));
            &&& negative == (value < 0)
            &&& reading.decimals <= d
            &&& reading.digits * pow10((d - reading.decimals) as nat) == rounded(value, d)
        }),
{
    let q = rounded(value, d);
    let p = pow10(d);
    let whole = decimal(q / p);
    let padded = fraction_digits(q % p, d);
    let fraction = strip_zeros(padded);
    let tail = if fraction.len() == 0 {
        Seq::<char>::empty()
    } else {
        seq!['.'] + fraction
    };
    let body = whole + tail;
    let point = whole.push('.');
    lemma_pow10_positive(d);
    lemma_read_whole(q / p);
    lemma_fraction_shape(q % p, d);
    assert(point.drop_last() =~= whole);
    assert(read_digits(point) == (Reading { digits: (q / p) as int, decimals: 0, fraction: true }));
    lemma_read_fraction(point, q % p, d);
    lemma_read_stripped(point, padded);
    vstd::arithmetic::div_mod::lemma_fundamental_div_mod(q as int, p as int);
    vstd::arithmetic::div_mod::lemma_mod_twice(q as int, p as int);
    assert((q / p) * p == p * (q / p)) by (nonlinear_arith);
    let full = read_digits(point + padded);
    assert(full.digits == q);
    if fraction.len() == 0 {
        assert(point + fraction =~= point);
        assert(body =~= whole);
    } else {
        assert(body =~= point + fraction);
    }
    assert(0 <= digit_value(whole[0]) < 10);
    if value < 0 {
        assert(format_spec(value, d) =~= seq!['-'] + body);
        assert(format_spec(value, d).drop_first() =~= body);
    } else {
        assert(format_spec(value, d) =~= body);
        assert(body[0] == whole[0]);
    }
}

} // verus!
