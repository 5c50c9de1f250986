//! The decimal text of an angle, rounded to a number of decimals.
use vstd::prelude::*;
use vstd::arithmetic::div_mod::{
    lemma_breakdown, lemma_div_denominator, lemma_fundamental_div_mod,
    lemma_fundamental_div_mod_converse,
};
use crate::angle::{Angle, DEGREE, FRACTION_BITS};
use crate::decimal::{
    all_digits, decimal, digit, digits_text, digits_value, fraction_digits, lemma_digits_value_bound,
    lemma_fraction_digits, lemma_pow10_positive, pow10, push_decimal, push_digits, strip_zeros,
};

verus! {

/// The size of an angle of `raw` units, without its sign.
pub open spec fn magnitude(raw: int) -> nat {
    if raw < 0 {
        (-raw) as nat
    } else {
        raw as nat
    }
}

/// The whole number nearest to `n / u`; of two equally near, the even one.
pub open spec fn round_half_even(n: nat, u: nat) -> nat {
    let q = n / u;
    let r = n % u;
    if 2 * r > u || (2 * r == u && q % 2 == 1) {
        q + 1
    } else {
        q
    }
}

/// The size of an angle of `raw` units in steps of ten to the minus `d`
/// degrees, rounded to the nearest whole number of steps.
pub open spec fn rounded(raw: int, d: nat) -> nat {
    round_half_even(magnitude(raw) * pow10(d), DEGREE as nat)
}

/// How far the rounded number of steps is from the angle itself, in units
/// times ten to the `d`: the distance between `|raw| * 10^d` and
/// `rounded(raw, d) * DEGREE`. Divided by `10^d * DEGREE` it is the distance
/// in degrees between the angle and the number that is written for it.
pub open spec fn rounding_gap(raw: int, d: nat) -> int {
    let exact = magnitude(raw) * pow10(d);
    let written = rounded(raw, d) * DEGREE;
    if exact <= written {
        written - exact
    } else {
        exact - written
    }
}

/// The decimal text of an angle of `raw` units, rounded to `d` decimals and
/// written without the zeros that end its fraction: a minus sign if the
/// angle is negative, the whole part, and, if any decimal is left, a point
/// and the decimals.
pub open spec fn format_spec(raw: int, d: nat) -> Seq<char> {
    let q = rounded(raw, d);
    let sign = if raw < 0 {
        seq!['-']
    } else {
        Seq::<char>::empty()
    };
    let fraction = strip_zeros(fraction_digits(q % pow10(d), d));
    let tail = if fraction.len() == 0 {
        Seq::<char>::empty()
    } else {
        seq!['.'] + fraction
    };
    sign + decimal(q / pow10(d)) + tail
}

/// An angle is a whole number of units, so its decimals end: ten to the
/// power [`FRACTION_BITS`] times any magnitude is a whole multiple of
/// [`DEGREE`].
proof fn lemma_decimals_end(raw: int)
    ensures
        (magnitude(raw) * pow10(FRACTION_BITS as nat)) % (DEGREE as nat) == 0,
{
    let m = magnitude(raw) as int;
    let f: int = 55511151231257827021181583404541015625;
    reveal_with_fuel(pow10, 55);
    assert(pow10(54) == f * DEGREE);
    assert(m * (f * DEGREE) == (m * f) * DEGREE) by (nonlinear_arith);
    lemma_fundamental_div_mod_converse(m * pow10(54), DEGREE as int, m * f, 0);
}

/// Where the decimals have ended, one decimal more adds a zero to the
/// fraction, which is dropped again: the text stays as it is.
proof fn lemma_one_more_decimal(raw: int, d: nat)
    requires
        (magnitude(raw) * pow10(d)) % (DEGREE as nat) == 0,
    ensures
        (magnitude(raw) * pow10(d + 1)) % (DEGREE as nat) == 0,
        format_spec(raw, d + 1) == format_spec(raw, d),
{
    let m = magnitude(raw) as int;
    let u = DEGREE as int;
    let p = pow10(d) as int;
    let n = m * p;
    let q = n / u;
    lemma_pow10_positive(d);
    assert(pow10(d + 1) == 10 * p);
    assert(m * (10 * p) == 10 * n) by (nonlinear_arith)
        requires
            n == m * p,
    ;
    lemma_fundamental_div_mod(n, u);
    assert(n == u * q);
    assert(10 * n == (10 * q) * u + 0) by (nonlinear_arith)
        requires
            n == u * q,
    ;
    assert(0 <= n) by (nonlinear_arith)
        requires
            n == m * p,
            m >= 0,
            p > 0,
    ;
    assert(0 <= q) by (nonlinear_arith)
        requires
            n == u * q,
            n >= 0,
            u > 0,
    ;
    lemma_fundamental_div_mod_converse(10 * n, u, 10 * q, 0);
    assert(rounded(raw, d) == q);
    assert(rounded(raw, d + 1) == 10 * q);
    lemma_div_denominator(10 * q, 10, p);
    lemma_breakdown(10 * q, 10, p);
    assert((10 * q) / (10 * p) == q / p);
    assert((10 * q) % (10 * p) == 10 * (q % p));
    let low = (q % p) as nat;
    reveal_strlit("0123456789");
    assert(fraction_digits(10 * low, d + 1) == fraction_digits(low, d).push('0'));
    assert(fraction_digits(low, d).push('0').drop_last() =~= fraction_digits(low, d));
    assert(strip_zeros(fraction_digits(10 * low, d + 1)) == strip_zeros(fraction_digits(low, d)));
}

/// Asking for more decimals than an angle has changes nothing.
pub proof fn lemma_excess_decimals(raw: int, d: nat)
    requires
        d >= FRACTION_BITS,
    ensures
        (magnitude(raw) * pow10(d)) % (DEGREE as nat) == 0,
        format_spec(raw, d) == format_spec(raw, FRACTION_BITS as nat),
    decreases d,
{
    if d == FRACTION_BITS {
        lemma_decimals_end(raw);
    } else {
        lemma_excess_decimals(raw, (d - 1) as nat);
        lemma_one_more_decimal(raw, (d - 1) as nat);
    }
}

/// The weight of the digit at position `i` in a sequence of `n` digits
/// changes the value by the difference of the digits times that weight.
proof fn lemma_digit_update(s: Seq<u8>, i: int, x: u8)
    requires
        0 <= i < s.len(),
    ensures
        digits_value(s.update(i, x)) + s[i] * pow10((s.len() - 1 - i) as nat) == digits_value(s) + x
            * pow10((s.len() - 1 - i) as nat),
    decreases s.len(),
{
    let n = s.len();
    let t = s.update(i, x);
    if i == n - 1 {
        assert(t.drop_last() =~= s.drop_last());
        assert(pow10(0) == 1);
        assert(s[i] * 1 == s[i] as int);
        assert(x * 1 == x as int);
    } else {
        assert(t.drop_last() =~= s.drop_last().update(i, x));
        lemma_digit_update(s.drop_last(), i, x);
        let w = pow10((n - 2 - i) as nat);
        assert(pow10((n - 1 - i) as nat) == 10 * w);
        assert(s[i] * (10 * w) == 10 * (s[i] * w)) by (nonlinear_arith);
        assert(x * (10 * w) == 10 * (x * w)) by (nonlinear_arith);
    }
}

/// Long division: the whole part of `mag / DEGREE`, its first `precision`
/// decimals, and the remainder in units that is left after them.
fn expand(mag: u64, precision: usize) -> (r: (u64, Vec<u8>, u64))
    ensures
        r.0 <= 1024,
        r.1@.len() == precision,
        all_digits(r.1@),
        r.2 < DEGREE,
        mag * pow10(precision as nat) == (r.0 * pow10(precision as nat) + digits_value(r.1@))
            * DEGREE + r.2,
{
    let unit: u64 = DEGREE as u64;
    let whole: u64 = mag / unit;
    let mut rem: u64 = mag % unit;
    let mut digits: Vec<u8> = Vec::new();
    let mut k: usize = 0;
    proof {
        assert(pow10(0) == 1);
        assert(mag * 1 == mag as int);
        assert(whole * 1 == whole as int);
    }
    while k < precision
        invariant
            k <= precision,
            unit == DEGREE,
            whole <= 1024,
            digits.len() == k,
            all_digits(digits@),
            rem < unit,
            mag * pow10(k as nat) == (whole * pow10(k as nat) + digits_value(digits@)) * unit + rem,
        decreases precision - k,
    {
        let t: u64 = rem * 10;
        let next: u8 = (t / unit) as u8;
        proof {
            let p = pow10(k as nat);
            let v = digits_value(digits@);
            assert(pow10((k + 1) as nat) == 10 * p);
            assert(mag * (10 * p) == 10 * (mag * p)) by (nonlinear_arith);
            assert(whole * (10 * p) == 10 * (whole * p)) by (nonlinear_arith);
            assert(digits@.push(next).drop_last() =~= digits@);
            assert(digits_value(digits@.push(next)) == 10 * v + next);
            assert(t == (t / unit) * unit + t % unit) by {
                lemma_fundamental_div_mod(t as int, unit as int);
            }
            assert(10 * ((whole * p + v) * unit) == (10 * (whole * p) + 10 * v) * unit)
                by (nonlinear_arith);
            assert((10 * (whole * p) + (10 * v + next)) * unit == (10 * (whole * p) + 10 * v) * unit
                + next * unit) by (nonlinear_arith);
        }
        rem = t % unit;
        digits.push(next);
        k = k + 1;
    }
    (whole, digits, rem)
}

/// Adds one to the number that `whole` and the decimals `digits` denote
/// together, carrying through the nines; returns the new whole part.
fn bump(whole: u64, digits: &mut Vec<u8>) -> (r: u64)
    requires
        whole <= 1024,
        all_digits(old(digits)@),
    ensures
        final(digits)@.len() == old(digits)@.len(),
        all_digits(final(digits)@),
        r <= 1025,
        r * pow10(old(digits)@.len()) + digits_value(final(digits)@) == whole * pow10(
            old(digits)@.len(),
        ) + digits_value(old(digits)@) + 1,
{
    let k = digits.len();
    let ghost before = digits_value(digits@);
    let mut i: usize = k;
    proof {
        assert(pow10(0) == 1);
    }
    while i > 0 && digits[i - 1] == 9
        invariant
            i <= k,
            digits.len() == k,
            all_digits(digits@),
            digits_value(digits@) + pow10((k - i) as nat) == before + 1,
        decreases i,
    {
        proof {
            lemma_digit_update(digits@, i - 1, 0);
            let w = pow10((k - i) as nat);
            assert(pow10((k - i + 1) as nat) == 10 * w);
            assert(digits@[i - 1] * w == 9 * w);
            assert(0 * w == 0);
        }
        digits.set(i - 1, 0);
        i = i - 1;
    }
    if i > 0 {
        let bumped: u8 = digits[i - 1] + 1;
        proof {
            lemma_digit_update(digits@, i - 1, bumped);
            let w = pow10((k - i) as nat);
            assert(bumped * w == digits@[i - 1] * w + w) by (nonlinear_arith)
                requires
                    bumped == digits@[i - 1] + 1,
            ;
        }
        digits.set(i - 1, bumped);
        whole
    } else {
        proof {
            let scale = pow10(k as nat);
            assert((whole + 1) * scale == whole * scale + scale) by (nonlinear_arith);
        }
        whole + 1
    }
}

/// Drops the zeros at the end of a sequence of digits.
fn trim(digits: &mut Vec<u8>)
    requires
        all_digits(old(digits)@),
    ensures
        all_digits(final(digits)@),
        digits_text(final(digits)@) == strip_zeros(digits_text(old(digits)@)),
{
    while digits.len() > 0 && digits[digits.len() - 1] == 0
        invariant
            all_digits(digits@),
            strip_zeros(digits_text(digits@)) == strip_zeros(digits_text(old(digits)@)),
        decreases digits.len(),
    {
        proof {
            reveal_strlit("0123456789");
            assert(digits_text(digits@).last() == '0');
            assert(digits_text(digits@).drop_last() =~= digits_text(digits@.drop_last()));
        }
        digits.pop();
    }
    proof {
        reveal_strlit("0123456789");
        if digits.len() > 0 {
            assert(digits_text(digits@).last() == digit(digits@.last() as int));
            assert(digits_text(digits@).last() != '0');
        }
    }
}

/// Writes an angle with `precision` decimals, rounded to the nearest and,
/// of two equally near, to the even one, and then without the zeros that
/// end the fraction, and without the point if no decimal is left.
///
/// No angle has more than [`FRACTION_BITS`] decimals, so a greater
/// precision costs no more work than that one.
pub fn format_to_precision(value: Angle, precision: usize) -> (text: String)
    ensures
        text@ == format_spec(value@, precision as nat),
{
    let decimals: usize = if precision > FRACTION_BITS as usize {
        FRACTION_BITS as usize
    } else {
        precision
    };
    proof {
        if precision > FRACTION_BITS {
            lemma_excess_decimals(value@, precision as nat);
        }
    }
    let negative = value.raw < 0;
    let mag: u64 = if value.raw < 0 {
        ((-(value.raw + 1)) as u64) + 1
    } else {
        value.raw as u64
    };
    let (floor_whole, mut digits, rem) = expand(mag, decimals);
    let ghost scale = pow10(decimals as nat);
    let ghost floor = floor_whole * scale + digits_value(digits@);
    let odd = if decimals == 0 {
        floor_whole % 2 == 1
    } else {
        digits[decimals - 1] % 2 == 1
    };
    proof {
        lemma_fundamental_div_mod_converse(mag * scale, DEGREE as int, floor, rem as int);
        if decimals == 0 {
            assert(scale == 1);
            assert(floor_whole * scale == floor_whole) by (nonlinear_arith)
                requires
                    scale == 1,
            ;
        } else {
            let p = pow10((decimals - 1) as nat);
            assert(scale == 10 * p);
            assert(floor_whole * (10 * p) == 10 * (floor_whole * p)) by (nonlinear_arith);
        }
        assert((floor % 2 == 1) == odd);
    }
    let unit: u64 = DEGREE as u64;
    let whole = if 2 * rem > unit || (2 * rem == unit && odd) {
        bump(floor_whole, &mut digits)
    } else {
        floor_whole
    };
    proof {
        let q = rounded(value@, decimals as nat);
        lemma_digits_value_bound(digits@);
        assert(q == whole * scale + digits_value(digits@));
        lemma_fundamental_div_mod_converse(
            q as int,
            scale as int,
            whole as int,
            digits_value(digits@) as int,
        );
        lemma_fraction_digits(digits@);
    }
    trim(&mut digits);
    let mut out = String::new();
    if negative {
        proof {
            reveal_strlit("-");
        }
        out.append("-");
    }
    push_decimal(&mut out, whole);
    if digits.len() > 0 {
        proof {
            reveal_strlit(".");
        }
        out.append(".");
        push_digits(&mut out, &digits);
    }
    proof {
        assert(out@ =~= format_spec(value@, decimals as nat));
    }
    out
}

} // verus!
