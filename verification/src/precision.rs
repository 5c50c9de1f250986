//! How many decimal digits of a decoded angle are meaningful.
use vstd::prelude::*;
use crate::angle::{Angle, DEGREE};
use crate::decimal::{lemma_pow10_positive, pow10};
use crate::error::CodecError;

verus! {

/// The square of [`DEGREE`], divided by one thousand and rounded down.
pub const RESOLVE_FLOOR: u128 = 324518553658426726783156020576;

/// A margin of `raw` units, taken times ten to the `d`, exceeds ten to the
/// power minus three halves of a degree; said of the squares, which are
/// whole numbers: `1000 * (raw * 10^d)^2 > DEGREE^2`.
pub open spec fn resolves(raw: int, d: nat) -> bool {
    1000 * ((raw * pow10(d)) * (raw * pow10(d))) > DEGREE * DEGREE
}

/// `d` is the least number of digits at which the margin resolves.
pub open spec fn is_precision(raw: int, d: nat) -> bool {
    &&& resolves(raw, d)
    &&& forall|k: nat| k < d ==> !#[trigger] resolves(raw, k)
}

/// The number of meaningful decimal digits under a margin of `raw` units.
///
/// For a positive margin `e` in degrees this is the least `d` with
/// `e * 10^d > 10^(-3/2)`, which is `max(round(-log10(e)), 1) - 1`: the
/// rounded logarithm is the `n` with `10^(-n - 1/2) < e < 10^(-n + 1/2)`.
pub open spec fn precision_of(raw: int) -> nat {
    choose|d: nat| is_precision(raw, d)
}

/// At most one number of digits is the precision of a margin.
pub proof fn lemma_precision_unique(raw: int, d: nat)
    requires
        is_precision(raw, d),
    ensures
        precision_of(raw) == d,
{
    let c = precision_of(raw);
    assert(is_precision(raw, c));
    if c < d {
        assert(!resolves(raw, c));
    }
    if d < c {
        assert(!resolves(raw, d));
    }
}

/// If a margin resolves at some number of digits, it has a precision.
proof fn lemma_least_exists(raw: int, top: nat)
    requires
        resolves(raw, top),
    ensures
        exists|d: nat| is_precision(raw, d),
    decreases top,
{
    if forall|k: nat| k < top ==> !#[trigger] resolves(raw, k) {
        assert(is_precision(raw, top));
    } else {
        let k = choose|k: nat| k < top && resolves(raw, k);
        lemma_least_exists(raw, k);
    }
}

/// Every positive margin has a precision, and it is at most seventeen.
pub proof fn lemma_precision_exists(raw: int)
    requires
        raw > 0,
    ensures
        is_precision(raw, precision_of(raw)),
        precision_of(raw) <= 17,
{
    reveal_with_fuel(pow10, 18);
    let p = pow10(17);
    assert(p == 100000000000000000);
    assert((raw * p) * (raw * p) >= p * p) by (nonlinear_arith)
        requires
            raw >= 1,
            p >= 1,
    ;
    assert(resolves(raw, 17));
    lemma_least_exists(raw, 17);
    if precision_of(raw) > 17 {
        assert(!resolves(raw, 17));
    }
}

/// A margin of one degree or more resolves without any digit.
pub proof fn lemma_coarse_margin(raw: int)
    requires
        raw >= DEGREE,
    ensures
        is_precision(raw, 0),
        precision_of(raw) == 0,
{
    assert(pow10(0) == 1);
    assert(raw * 1 == raw);
    assert(raw * raw >= DEGREE * DEGREE) by (nonlinear_arith)
        requires
            raw >= DEGREE,
            DEGREE > 0,
    ;
    lemma_precision_unique(raw, 0);
}

/// Estimates how many decimal digits are meaningful under an error margin.
///
/// The result is `max(round(-log10(e)), 1) - 1` for a margin of `e` degrees,
/// computed exactly in whole numbers; it is zero for every margin of a
/// degree or more. A margin that is not positive has no logarithm and is
/// refused.
pub fn error_to_precision(margin: Angle) -> (r: Result<usize, CodecError>)
    ensures
        r is Ok <==> margin@ > 0,
        match r {
            Ok(d) => is_precision(margin@, d as nat) && d == precision_of(margin@),
            Err(e) => e == (CodecError::NonPositiveMargin { margin }),
        },
        margin@ >= DEGREE ==> r == Ok::<usize, CodecError>(0),
{
    if margin.raw <= 0 {
        return Err(CodecError::NonPositiveMargin { margin });
    }
    let mut p: u128 = margin.raw as u128;
    let mut d: usize = 0;
    proof {
        assert(pow10(0) == 1);
        assert(p * p <= 0x7fff_ffff_ffff_ffff * 0x7fff_ffff_ffff_ffff) by (nonlinear_arith)
            requires
                0 <= p <= 0x7fff_ffff_ffff_ffff,
        ;
        if margin@ >= DEGREE {
            lemma_coarse_margin(margin@);
        }
    }
    while p * p <= RESOLVE_FLOOR
        invariant
            margin@ > 0,
            p == margin@ * pow10(d as nat),
            p * p <= 0x7fff_ffff_ffff_ffff * 0x7fff_ffff_ffff_ffff,
            p >= pow10(d as nat),
            forall|k: nat| k < d ==> !#[trigger] resolves(margin@, k),
        decreases RESOLVE_FLOOR - p,
    {
        proof {
            assert(!resolves(margin@, d as nat));
            assert(p <= RESOLVE_FLOOR) by (nonlinear_arith)
                requires
                    p * p <= RESOLVE_FLOOR,
                    p >= 0,
            ;
            assert(p < 0x4_0000_0000_0000) by (nonlinear_arith)
                requires
                    p * p <= RESOLVE_FLOOR,
                    p >= 0,
                    RESOLVE_FLOOR < 0x4_0000_0000_0000 * 0x4_0000_0000_0000,
            ;
            assert(margin@ * (10 * pow10(d as nat)) == 10 * (margin@ * pow10(d as nat)))
                by (nonlinear_arith);
            assert((10 * p) * (10 * p) <= 0x7fff_ffff_ffff_ffff * 0x7fff_ffff_ffff_ffff)
                by (nonlinear_arith)
                requires
                    0 <= p < 0x4_0000_0000_0000,
            ;
            lemma_pow10_fifty(d as nat);
            lemma_pow10_positive(d as nat);
            assert(pow10((d + 1) as nat) == 10 * pow10(d as nat));
        }
        p = p * 10;
        d = d + 1;
    }
    proof {
        assert(resolves(margin@, d as nat));
        lemma_precision_unique(margin@, d as nat);
    }
    Ok(d)
}

/// From fifty digits on, ten to the `d` is no less than two to the fifty.
proof fn lemma_pow10_fifty(d: nat)
    ensures
        d >= 50 ==> pow10(d) >= 0x4_0000_0000_0000,
    decreases d,
{
    reveal_with_fuel(pow10, 51);
    if d > 50 {
        lemma_pow10_fifty((d - 1) as nat);
    }
}

} // verus!
