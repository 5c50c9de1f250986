//! How far the fixed-point resolution carries: up to which hash length
//! every bit of a hash cuts its range, so that the box is the true
//! geohash cell.
use vstd::prelude::*;
use vstd::arithmetic::div_mod::{lemma_fundamental_div_mod, lemma_fundamental_div_mod_converse};
use vstd::arithmetic::power2::{lemma2_to64_rest, lemma_pow2_pos, lemma_pow2_unfold, pow2};
use crate::alphabet::symbol_value;
use crate::angle::{LAT_LIMIT, LON_LIMIT};
use crate::bisect::{
    can_cut, lemma_narrow, lemma_unpack, lemma_walk_wf, locate_symbol, narrow, narrow_symbol, side,
    walk_of, Walk,
};

verus! {

/// The longest hash of which every bit cuts its range: its 110 bits halve
/// each axis 55 times, which leaves a latitude range of 90 units and a
/// longitude range of 180 units. Of the bits of a longer hash, one more
/// cuts the longitude; the others find their ranges at the resolution and
/// change nothing.
pub const EXACT_LEN: usize = 22;

/// The number of longitude cuts among the bits of `n` characters.
pub open spec fn lon_cuts(n: nat) -> nat {
    (5 * n + 1) / 2
}

/// The number of latitude cuts among the bits of `n` characters.
pub open spec fn lat_cuts(n: nat) -> nat {
    (5 * n) / 2
}

/// The cell is a cell of the regular grid: its longitude range is
/// `45 * 2^a` units wide and its latitude range `45 * 2^b` units, and each
/// range starts a whole number of its own widths from the edge of the
/// domain.
pub open spec fn on_grid(w: Walk, a: nat, b: nat) -> bool {
    &&& w.cell.lon_hi - w.cell.lon_lo == 45 * pow2(a)
    &&& w.cell.lat_hi - w.cell.lat_lo == 45 * pow2(b)
    &&& (w.cell.lon_lo + LON_LIMIT) % (45 * pow2(a)) as int == 0
    &&& (w.cell.lat_lo + LAT_LIMIT) % (45 * pow2(b)) as int == 0
}

/// A range that starts on the grid of an even width starts on the grid of
/// half that width too, and so does its middle.
proof fn lemma_half_grid(x: int, h: int)
    requires
        h > 0,
        x % (2 * h) == 0,
    ensures
        x % h == 0,
        (x + h) % h == 0,
{
    let k = x / (2 * h);
    lemma_fundamental_div_mod(x, 2 * h);
    assert((2 * h) * k == (2 * k) * h) by (nonlinear_arith);
    assert((2 * k) * h + h == (2 * k + 1) * h) by (nonlinear_arith);
    lemma_fundamental_div_mod_converse(x, h, 2 * k, 0);
    lemma_fundamental_div_mod_converse(x + h, h, 2 * k + 1, 0);
}

/// A grid cell whose range in turn is at least `45 * 4` units wide can be
/// cut there, and the cut gives one of the two grid cells of half the
/// width.
proof fn lemma_cut_halves(w: Walk, upper: bool, a: nat, b: nat)
    requires
        on_grid(w, a, b),
        w.lon_turn ==> a >= 2,
        !w.lon_turn ==> b >= 2,
    ensures
        w.lon_turn ==> can_cut(w.cell.lon_lo, w.cell.lon_hi) && on_grid(
            narrow(w, upper),
            (a - 1) as nat,
            b,
        ),
        !w.lon_turn ==> can_cut(w.cell.lat_lo, w.cell.lat_hi) && on_grid(
            narrow(w, upper),
            a,
            (b - 1) as nat,
        ),
        narrow(w, upper).lon_turn == !w.lon_turn,
{
    reveal(narrow);
    if w.lon_turn {
        lemma_pow2_unfold(a);
        lemma_pow2_unfold((a - 1) as nat);
        lemma_pow2_pos((a - 1) as nat);
        lemma_half_grid(w.cell.lon_lo + LON_LIMIT, (45 * pow2((a - 1) as nat)) as int);
    } else {
        lemma_pow2_unfold(b);
        lemma_pow2_unfold((b - 1) as nat);
        lemma_pow2_pos((b - 1) as nat);
        lemma_half_grid(w.cell.lat_lo + LAT_LIMIT, (45 * pow2((b - 1) as nat)) as int);
    }
}

/// The five cuts of a symbol halve the axis of the first cut three times
/// and the other axis twice, if the ranges are wide enough for that.
proof fn lemma_symbol_halves(w: Walk, v: int, a: nat, b: nat)
    requires
        on_grid(w, a, b),
        w.lon_turn ==> a >= 4 && b >= 3,
        !w.lon_turn ==> a >= 3 && b >= 4,
    ensures
        w.lon_turn ==> on_grid(narrow_symbol(w, v), (a - 3) as nat, (b - 2) as nat),
        !w.lon_turn ==> on_grid(narrow_symbol(w, v), (a - 2) as nat, (b - 3) as nat),
{
    let w4 = narrow(w, (v / 16) % 2 == 1);
    let w3 = narrow(w4, (v / 8) % 2 == 1);
    let w2 = narrow(w3, (v / 4) % 2 == 1);
    let w1 = narrow(w2, (v / 2) % 2 == 1);
    if w.lon_turn {
        lemma_cut_halves(w, (v / 16) % 2 == 1, a, b);
        lemma_cut_halves(w4, (v / 8) % 2 == 1, (a - 1) as nat, b);
        lemma_cut_halves(w3, (v / 4) % 2 == 1, (a - 1) as nat, (b - 1) as nat);
        lemma_cut_halves(w2, (v / 2) % 2 == 1, (a - 2) as nat, (b - 1) as nat);
        lemma_cut_halves(w1, v % 2 == 1, (a - 2) as nat, (b - 2) as nat);
    } else {
        lemma_cut_halves(w, (v / 16) % 2 == 1, a, b);
        lemma_cut_halves(w4, (v / 8) % 2 == 1, a, (b - 1) as nat);
        lemma_cut_halves(w3, (v / 4) % 2 == 1, (a - 1) as nat, (b - 1) as nat);
        lemma_cut_halves(w2, (v / 2) % 2 == 1, (a - 1) as nat, (b - 2) as nat);
        lemma_cut_halves(w1, v % 2 == 1, (a - 2) as nat, (b - 2) as nat);
    }
}

/// The box of a hash of at most [`EXACT_LEN`] characters is the true
/// geohash cell: a cell of the grid that divides the domain's width by two
/// once per bit of its axis.
pub proof fn lemma_cell_on_grid(s: Seq<char>)
    requires
        s.len() <= EXACT_LEN,
    ensures
        on_grid(walk_of(s), (57 - lon_cuts(s.len())) as nat, (56 - lat_cuts(s.len())) as nat),
    decreases s.len(),
{
    if s.len() == 0 {
        lemma2_to64_rest();
    } else {
        let front = s.drop_last();
        let n = front.len();
        lemma_cell_on_grid(front);
        lemma_walk_wf(front);
        lemma_symbol_halves(
            walk_of(front),
            symbol_value(s.last()),
            (57 - lon_cuts(n)) as nat,
            (56 - lat_cuts(n)) as nat,
        );
    }
}

/// Where a range can be cut, a point that lies below the top of the cell
/// after the cut lay below the top of the cell before it, on the side that
/// the cut kept.
proof fn lemma_side_of_cut(w: Walk, upper: bool, lat: int, lon: int)
    requires
        w.cell.wf(),
        w.lon_turn ==> can_cut(w.cell.lon_lo, w.cell.lon_hi),
        !w.lon_turn ==> can_cut(w.cell.lat_lo, w.cell.lat_hi),
        narrow(w, upper).cell.holds_below_top(lat, lon),
    ensures
        w.cell.holds_below_top(lat, lon),
        side(w, lat, lon) == upper,
{
    reveal(narrow);
    reveal(side);
}

/// Where all five bits of a symbol cut their ranges, a point that lies
/// below the top of the cell after them lay below the top of the cell
/// before them, and the symbol located for it there is that symbol.
proof fn lemma_symbol_of_cuts(w: Walk, v: int, lat: int, lon: int, a: nat, b: nat)
    requires
        w.cell.wf(),
        on_grid(w, a, b),
        w.lon_turn ==> a >= 4 && b >= 3,
        !w.lon_turn ==> a >= 3 && b >= 4,
        0 <= v < 32,
        narrow_symbol(w, v).cell.holds_below_top(lat, lon),
    ensures
        w.cell.holds_below_top(lat, lon),
        locate_symbol(w, lat, lon) == v,
{
    let b4 = (v / 16) % 2 == 1;
    let b3 = (v / 8) % 2 == 1;
    let b2 = (v / 4) % 2 == 1;
    let b1 = (v / 2) % 2 == 1;
    let b0 = v % 2 == 1;
    let w4 = narrow(w, b4);
    let w3 = narrow(w4, b3);
    let w2 = narrow(w3, b2);
    let w1 = narrow(w2, b1);
    lemma_narrow(w, b4);
    lemma_narrow(w4, b3);
    lemma_narrow(w3, b2);
    lemma_narrow(w2, b1);
    if w.lon_turn {
        lemma_cut_halves(w, b4, a, b);
        lemma_cut_halves(w4, b3, (a - 1) as nat, b);
        lemma_cut_halves(w3, b2, (a - 1) as nat, (b - 1) as nat);
        lemma_cut_halves(w2, b1, (a - 2) as nat, (b - 1) as nat);
        lemma_cut_halves(w1, b0, (a - 2) as nat, (b - 2) as nat);
    } else {
        lemma_cut_halves(w, b4, a, b);
        lemma_cut_halves(w4, b3, a, (b - 1) as nat);
        lemma_cut_halves(w3, b2, (a - 1) as nat, (b - 1) as nat);
        lemma_cut_halves(w2, b1, (a - 1) as nat, (b - 2) as nat);
        lemma_cut_halves(w1, b0, (a - 2) as nat, (b - 2) as nat);
    }
    lemma_side_of_cut(w1, b0, lat, lon);
    lemma_side_of_cut(w2, b1, lat, lon);
    lemma_side_of_cut(w3, b2, lat, lon);
    lemma_side_of_cut(w4, b3, lat, lon);
    lemma_side_of_cut(w, b4, lat, lon);
    lemma_unpack(v);
}

/// A point that lies below the top of the box of a hash of at most
/// [`EXACT_LEN`] characters lay below the top of the box of the hash
/// without its last character, and the symbol located for it there is that
/// last character's value.
pub proof fn lemma_last_symbol(s: Seq<char>, lat: int, lon: int)
    requires
        0 < s.len() <= EXACT_LEN,
        0 <= symbol_value(s.last()) < 32,
        walk_of(s).cell.holds_below_top(lat, lon),
    ensures
        walk_of(s.drop_last()).cell.holds_below_top(lat, lon),
        locate_symbol(walk_of(s.drop_last()), lat, lon) == symbol_value(s.last()),
{
    let front = s.drop_last();
    let n = front.len();
    lemma_cell_on_grid(front);
    lemma_walk_wf(front);
    lemma_symbol_of_cuts(
        walk_of(front),
        symbol_value(s.last()),
        lat,
        lon,
        (57 - lon_cuts(n)) as nat,
        (56 - lat_cuts(n)) as nat,
    );
}

} // verus!
