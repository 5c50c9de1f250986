//! Decimal digits: the text of whole numbers and of fractions.
use vstd::prelude::*;

verus! {

/// The ten decimal digits in order.
pub const DIGITS: &'static str = "0123456789";

/// The character of the decimal digit `d`.
pub open spec fn digit(d: int) -> char
    recommends
        0 <= d < 10,
{
    DIGITS@[d]
}

/// Ten to the power `d`.
pub open spec fn pow10(d: nat) -> nat
    decreases d,
{
    if d == 0 {
        1
    } else {
        10 * pow10((d - 1) as nat)
    }
}

/// The decimal text of a whole number, without leading zeros.
pub open spec fn decimal(n: nat) -> Seq<char>
    decreases n,
{
    if n < 10 {
        seq![digit(n as int)]
    } else {
        decimal(n / 10).push(digit((n % 10) as int))
    }
}

/// The number that a sequence of digit values denotes, most significant first.
pub open spec fn digits_value(s: Seq<u8>) -> nat
    decreases s.len(),
{
    if s.len() == 0 {
        0
    } else {
        10 * digits_value(s.drop_last()) + s.last() as nat
    }
}

/// True when every element is a digit value, that is less than ten.
pub open spec fn all_digits(s: Seq<u8>) -> bool {
    forall|i: int| 0 <= i < s.len() ==> #[trigger] s[i] < 10
}

/// The characters of a sequence of digit values.
pub open spec fn digits_text(s: Seq<u8>) -> Seq<char> {
    Seq::new(s.len(), |i: int| digit(s[i] as int))
}

/// The last `d` decimal digits of `m`, padded with zeros on the left.
pub open spec fn fraction_digits(m: nat, d: nat) -> Seq<char>
    decreases d,
{
    if d == 0 {
        Seq::<char>::empty()
    } else {
        fraction_digits(m / 10, (d - 1) as nat).push(digit((m % 10) as int))
    }
}

/// The text without the zeros at its end.
pub open spec fn strip_zeros(s: Seq<char>) -> Seq<char>
    decreases s.len(),
{
    if s.len() > 0 && s.last() == '0' {
        strip_zeros(s.drop_last())
    } else {
        s
    }
}

/// Powers of ten are positive.
pub proof fn lemma_pow10_positive(d: nat)
    ensures
        pow10(d) > 0,
    decreases d,
{
    if d > 0 {
        lemma_pow10_positive((d - 1) as nat);
    }
}

/// A sequence of `n` digits denotes a number below ten to the `n`.
pub proof fn lemma_digits_value_bound(s: Seq<u8>)
    requires
        all_digits(s),
    ensures
        digits_value(s) < pow10(s.len()),
    decreases s.len(),
{
    if s.len() > 0 {
        lemma_digits_value_bound(s.drop_last());
    }
}

/// The padded digits of the number that a digit sequence denotes are that
/// sequence's own characters.
pub proof fn lemma_fraction_digits(s: Seq<u8>)
    requires
        all_digits(s),
    ensures
        fraction_digits(digits_value(s), s.len()) == digits_text(s),
    decreases s.len(),
{
    if s.len() > 0 {
        let front = s.drop_last();
        lemma_fraction_digits(front);
        let v = digits_value(s);
        assert(v / 10 == digits_value(front) && v % 10 == s.last() as nat);
        assert(digits_text(front).push(digit(s.last() as int)) =~= digits_text(s));
    } else {
        assert(digits_text(s) =~= Seq::<char>::empty());
    }
}

/// The character of a digit, as a one-character string.
pub fn digit_text(d: u8) -> (s: &'static str)
    requires
        d < 10,
    ensures
        s@ == seq![digit(d as int)],
{
    proof {
        reveal_strlit("0123456789");
    }
    let i: usize = d as usize;
    let s = DIGITS.substring_ascii(i, i + 1);
    assert(s@ =~= seq![digit(d as int)]);
    s
}

/// Appends the decimal text of `n`.
pub fn push_decimal(out: &mut String, n: u64)
    ensures
        final(out)@ == old(out)@ + decimal(n as nat),
    decreases n,
{
    if n >= 10 {
        push_decimal(out, n / 10);
    }
    out.append(digit_text((n % 10) as u8));
    proof {
        if n >= 10 {
            assert(old(out)@ + decimal((n / 10) as nat) + seq![digit((n % 10) as int)] =~= old(out)@
                + decimal(n as nat));
        } else {
            assert(old(out)@ + seq![digit((n % 10) as int)] =~= old(out)@ + decimal(n as nat));
        }
    }
}

/// Appends the characters of a sequence of digit values.
pub fn push_digits(out: &mut String, digits: &Vec<u8>)
    requires
        all_digits(digits@),
    ensures
        final(out)@ == old(out)@ + digits_text(digits@),
{
    let mut i: usize = 0;
    assert(old(out)@ + digits_text(digits@.take(0)) =~= old(out)@);
    while i < digits.len()
        invariant
            i <= digits.len(),
            all_digits(digits@),
            out@ == old(out)@ + digits_text(digits@.take(i as int)),
        decreases digits.len() - i,
    {
        out.append(digit_text(digits[i]));
        proof {
            assert(old(out)@ + digits_text(digits@.take(i as int)) + seq![digit(digits[i as int] as int)]
                =~= old(out)@ + digits_text(digits@.take(i + 1)));
        }
        i = i + 1;
    }
    assert(digits@.take(i as int) =~= digits@);
}

/// The value of a digit character: its distance from the character `0`.
pub open spec fn digit_value(c: char) -> int {
    c as int - '0' as int
}

/// True when every character is a decimal digit.
pub open spec fn all_digit_chars(s: Seq<char>) -> bool {
    forall|i: int| 0 <= i < s.len() ==> 0 <= #[trigger] digit_value(s[i]) < 10
}

/// What has been read of a decimal text: all digits so far as one whole
/// number, how many of them came after the point, and whether the point
/// has been passed. The text denotes `digits / 10^decimals`.
pub struct Reading {
    pub digits: int,
    pub decimals: nat,
    pub fraction: bool,
}

/// Reads an unsigned decimal text from left to right.
pub open spec fn read_digits(s: Seq<char>) -> Reading
    decreases s.len(),
{
    if s.len() == 0 {
        Reading { digits: 0, decimals: 0, fraction: false }
    } else {
        let r = read_digits(s.drop_last());
        if s.last() == '.' {
            Reading { fraction: true, ..r }
        } else {
            Reading {
                digits: 10 * r.digits + digit_value(s.last()),
                decimals: if r.fraction {
                    r.decimals + 1
                } else {
                    0
                },
                fraction: r.fraction,
            }
        }
    }
}

/// Reads a decimal text with an optional minus sign in front: whether it
/// is negative, and the reading of what follows the sign.
pub open spec fn read_decimal(s: Seq<char>) -> (bool, Reading) {
    if s.len() > 0 && s[0] == '-' {
        (true, read_digits(s.drop_first()))
    } else {
        (false, read_digits(s))
    }
}

/// Digit characters stand for their digits and are neither point nor sign.
pub proof fn lemma_digit_chars(d: int)
    requires
        0 <= d < 10,
    ensures
        digit_value(digit(d)) == d,
        digit(d) != '.',
        digit(d) != '-',
{
    reveal_strlit("0123456789");
}

/// The decimal text of a whole number is made of digits, is not empty, and
/// reads back as that number.
pub proof fn lemma_read_whole(n: nat)
    ensures
        decimal(n).len() > 0,
        all_digit_chars(decimal(n)),
        read_digits(decimal(n)) == (Reading { digits: n as int, decimals: 0, fraction: false }),
    decreases n,
{
    lemma_digit_chars((n % 10) as int);
    assert(decimal(n).last() == digit((n % 10) as int));
    if n >= 10 {
        lemma_read_whole(n / 10);
        let front = decimal(n / 10);
        assert(decimal(n).drop_last() =~= front);
    } else {
        assert(decimal(n).drop_last() =~= Seq::<char>::empty());
        assert(read_digits(Seq::<char>::empty()) == (Reading {
            digits: 0,
            decimals: 0,
            fraction: false,
        }));
    }
}

/// The padded decimals of a number are digits, as many as asked for.
pub proof fn lemma_fraction_shape(m: nat, d: nat)
    ensures
        fraction_digits(m, d).len() == d,
        all_digit_chars(fraction_digits(m, d)),
    decreases d,
{
    if d > 0 {
        lemma_fraction_shape(m / 10, (d - 1) as nat);
        lemma_digit_chars((m % 10) as int);
    }
}

/// Reading on through `d` padded decimals of `m` after the point appends
/// them to the digits read before.
pub proof fn lemma_read_fraction(a: Seq<char>, m: nat, d: nat)
    requires
        read_digits(a).fraction,
    ensures
        read_digits(a + fraction_digits(m, d)) == (Reading {
            digits: read_digits(a).digits * pow10(d) + m % pow10(d),
            decimals: read_digits(a).decimals + d,
            fraction: true,
        }),
    decreases d,
{
    let r = read_digits(a);
    if d == 0 {
        assert(a + fraction_digits(m, d) =~= a);
        assert(pow10(0) == 1);
        assert(r.digits * 1 == r.digits);
    } else {
        let p = pow10((d - 1) as nat);
        let front = fraction_digits(m / 10, (d - 1) as nat);
        lemma_read_fraction(a, m / 10, (d - 1) as nat);
        lemma_digit_chars((m % 10) as int);
        lemma_pow10_positive((d - 1) as nat);
        assert((a + fraction_digits(m, d)).drop_last() =~= a + front);
        assert(m % (10 * p) == 10 * ((m / 10) % p) + m % 10) by {
            vstd::arithmetic::div_mod::lemma_breakdown(m as int, 10, p as int);
        }
        assert(10 * (r.digits * p) == r.digits * (10 * p)) by (nonlinear_arith);
    }
}

/// Dropping the zeros at the end of the decimals changes what is read by
/// a power of ten only, so the text denotes the same number.
pub proof fn lemma_read_stripped(a: Seq<char>, t: Seq<char>)
    requires
        read_digits(a).fraction,
        all_digit_chars(t),
    ensures
        ({
            let full = read_digits(a + t);
            let kept = read_digits(a + strip_zeros(t));
            &&& kept.fraction
            &&& full.fraction
            &&& read_digits(a).decimals <= kept.decimals <= full.decimals
            &&& kept.digits * pow10((full.decimals - kept.decimals) as nat) == full.digits
            &&& all_digit_chars(strip_zeros(t))
        }),
    decreases t.len(),
{
    let full = read_digits(a + t);
    assert(pow10(0) == 1);
    if t.len() == 0 {
        assert(a + t =~= a);
        assert(full.digits * 1 == full.digits);
    } else {
        let front = t.drop_last();
        assert((a + t).drop_last() =~= a + front);
        assert(0 <= digit_value(t[t.len() - 1]) < 10);
        assert forall|i: int| 0 <= i < front.len() implies 0 <= #[trigger] digit_value(front[i])
            < 10 by {
            assert(front[i] == t[i]);
        }
        lemma_read_stripped(a, front);
        let before = read_digits(a + front);
        assert((a + t).last() == t.last());
        assert(t.last() != '.');
        assert(full.digits == 10 * before.digits + digit_value(t.last()));
        assert(full.decimals == before.decimals + 1);
        if t.last() == '0' {
            let kept = read_digits(a + strip_zeros(front));
            let e = (before.decimals - kept.decimals) as nat;
            assert(strip_zeros(t) == strip_zeros(front));
            assert(pow10(e + 1) == 10 * pow10(e));
            assert(kept.digits * (10 * pow10(e)) == 10 * (kept.digits * pow10(e)))
                by (nonlinear_arith);
        } else {
            assert(strip_zeros(t) == t);
            assert(full.digits * 1 == full.digits);
        }
    }
}

} // verus!
