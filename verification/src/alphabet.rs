//! The base-32 alphabet of geohash strings.
use vstd::prelude::*;

verus! {

/// The thirty-two symbols, in the order of their five-bit values.
///
/// Digits and lower-case letters, without `a`, `i`, `l` and `o`.
pub const ALPHABET: &'static str = "0123456789bcdefghjkmnpqrstuvwxyz";

/// The symbol that stands for the five-bit value `v`.
pub open spec fn symbol(v: int) -> char
    recommends
        0 <= v < 32,
{
    ALPHABET@[v]
}

/// True when `c` is one of the thirty-two symbols.
pub open spec fn in_alphabet(c: char) -> bool {
    exists|v: int| 0 <= v < 32 && symbol(v) == c
}

/// The five-bit value that `c` stands for; meaningful when `c` is in the alphabet.
pub open spec fn symbol_value(c: char) -> int {
    choose|v: int| 0 <= v < 32 && symbol(v) == c
}

/// True when every character of `s` is in the alphabet.
pub open spec fn all_symbols(s: Seq<char>) -> bool {
    forall|i: int| 0 <= i < s.len() ==> in_alphabet(#[trigger] s[i])
}

/// The alphabet has thirty-two symbols and no symbol stands for two values.
pub proof fn lemma_symbols_distinct()
    ensures
        ALPHABET@.len() == 32,
        forall|v: int, w: int| 0 <= v < 32 && 0 <= w < 32 && symbol(v) == symbol(w) ==> v == w,
{
    reveal_strlit("0123456789bcdefghjkmnpqrstuvwxyz");
}

/// Value and symbol are inverse to each other.
pub proof fn lemma_symbol_value(v: int)
    requires
        0 <= v < 32,
    ensures
        in_alphabet(symbol(v)),
        symbol_value(symbol(v)) == v,
{
    lemma_symbols_distinct();
}

/// The symbol of a five-bit value, as a one-character string.
pub fn symbol_of(v: u8) -> (s: &'static str)
    requires
        v < 32,
    ensures
        s@ == seq![symbol(v as int)],
{
    proof {
        reveal_strlit("0123456789bcdefghjkmnpqrstuvwxyz");
    }
    let i: usize = v as usize;
    let s = ALPHABET.substring_ascii(i, i + 1);
    assert(s@ =~= seq![symbol(v as int)]);
    s
}

/// The five-bit value of a symbol, or `None` for any other character.
///
/// Only the lower-case alphabet is accepted: `'B'` is not a symbol.
pub fn value_of(c: char) -> (r: Option<u8>)
    ensures
        r is Some <==> in_alphabet(c),
        r matches Some(v) ==> v < 32 && symbol(v as int) == c && v == symbol_value(c),
{
    proof {
        reveal_strlit("0123456789bcdefghjkmnpqrstuvwxyz");
        lemma_symbols_distinct();
    }
    let r: Option<u8> = match c {
        '0' => Some(0),
        '1' => Some(1),
        '2' => Some(2),
        '3' => Some(3),
        '4' => Some(4),
        '5' => Some(5),
        '6' => Some(6),
        '7' => Some(7),
        '8' => Some(8),
        '9' => Some(9),
        'b' => Some(10),
        'c' => Some(11),
        'd' => Some(12),
        'e' => Some(13),
        'f' => Some(14),
        'g' => Some(15),
        'h' => Some(16),
        'j' => Some(17),
        'k' => Some(18),
        'm' => Some(19),
        'n' => Some(20),
        'p' => Some(21),
        'q' => Some(22),
        'r' => Some(23),
        's' => Some(24),
        't' => Some(25),
        'u' => Some(26),
        'v' => Some(27),
        'w' => Some(28),
        'x' => Some(29),
        'y' => Some(30),
        'z' => Some(31),
        _ => None,
    };
    proof {
        match r {
            Some(v) => {
                assert(symbol(v as int) == c);
            },
            None => {
                assert forall|v: int| 0 <= v < 32 implies symbol(v) != c by {}
            },
        }
    }
    r
}

} // verus!
