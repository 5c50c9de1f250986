//! The bisection walk that encoding and decoding share.
//!
//! A walk starts with the whole coordinate domain and halves one axis per
//! bit: longitude on the first bit, latitude on the second, and so on in
//! turn. A set bit keeps the upper half, a clear bit the lower half.
//!
//! A range is halved only while its halves are still a whole even number
//! of units wide. When the resolution of the angles is reached on an axis,
//! the range of that axis stays as it is and further bits for it change
//! nothing. So every range of a walk has a middle and a half-width that
//! are whole numbers of units, at any length of hash.
use vstd::prelude::*;
use crate::alphabet::{symbol, symbol_value};
use crate::angle::{Angle, BoundingBox, Cell, Coordinate, LAT_LIMIT, LON_LIMIT};

verus! {

/// The middle of the range from `lo` to `hi`. It is exact for every range
/// of an even width, and every range of a walk has one.
pub open spec fn midpoint(lo: int, hi: int) -> int {
    lo + (hi - lo) / 2
}

/// Half the width of the range from `lo` to `hi`. It is exact for every
/// range of an even width, and every range of a walk has one.
pub open spec fn half_width(lo: int, hi: int) -> int {
    (hi - lo) / 2
}

/// The range from `lo` to `hi` can be cut: its halves are a whole even
/// number of units wide.
pub open spec fn can_cut(lo: int, hi: int) -> bool {
    (hi - lo) % 4 == 0
}

/// The state of a walk: the cell reached so far and the axis of the next cut.
pub struct Walk {
    pub cell: Cell,
    pub lon_turn: bool,
}

/// The whole coordinate domain.
pub open spec fn world() -> Cell {
    Cell {
        lat_lo: -(LAT_LIMIT as int),
        lat_hi: LAT_LIMIT as int,
        lon_lo: -(LON_LIMIT as int),
        lon_hi: LON_LIMIT as int,
    }
}

/// The walk before any bit: the whole domain, longitude next.
pub open spec fn start() -> Walk {
    Walk { cell: world(), lon_turn: true }
}

/// One cut: halves the axis whose turn it is, if its range can be cut, and
/// hands the turn over.
#[verifier::opaque]
pub open spec fn narrow(w: Walk, upper: bool) -> Walk {
    let c = w.cell;
    if w.lon_turn {
        let mid = midpoint(c.lon_lo, c.lon_hi);
        Walk {
            cell: if !can_cut(c.lon_lo, c.lon_hi) {
                c
            } else if upper {
                Cell { lon_lo: mid, ..c }
            } else {
                Cell { lon_hi: mid, ..c }
            },
            lon_turn: false,
        }
    } else {
        let mid = midpoint(c.lat_lo, c.lat_hi);
        Walk {
            cell: if !can_cut(c.lat_lo, c.lat_hi) {
                c
            } else if upper {
                Cell { lat_lo: mid, ..c }
            } else {
                Cell { lat_hi: mid, ..c }
            },
            lon_turn: true,
        }
    }
}

/// Five cuts, directed by the bits of `v` from the most significant down.
pub open spec fn narrow_symbol(w: Walk, v: int) -> Walk {
    let w4 = narrow(w, (v / 16) % 2 == 1);
    let w3 = narrow(w4, (v / 8) % 2 == 1);
    let w2 = narrow(w3, (v / 4) % 2 == 1);
    let w1 = narrow(w2, (v / 2) % 2 == 1);
    narrow(w1, v % 2 == 1)
}

/// The walk after all characters of `s`, each read as a five-bit value.
pub open spec fn walk_of(s: Seq<char>) -> Walk
    decreases s.len(),
{
    if s.len() == 0 {
        start()
    } else {
        narrow_symbol(walk_of(s.drop_last()), symbol_value(s.last()))
    }
}

/// The cell that the hash `s` names.
pub open spec fn cell_of(s: Seq<char>) -> Cell {
    walk_of(s).cell
}

/// The half in which the point lies at the next cut: `true` for the upper
/// half, which includes the midpoint itself.
#[verifier::opaque]
pub open spec fn side(w: Walk, lat: int, lon: int) -> bool {
    if w.lon_turn {
        lon >= midpoint(w.cell.lon_lo, w.cell.lon_hi)
    } else {
        lat >= midpoint(w.cell.lat_lo, w.cell.lat_hi)
    }
}

/// One or zero, for a set or a clear bit.
pub open spec fn bit_value(b: bool) -> int {
    if b {
        1
    } else {
        0
    }
}

/// The five-bit value with the given bits, most significant first.
pub open spec fn pack(b4: bool, b3: bool, b2: bool, b1: bool, b0: bool) -> int {
    16 * bit_value(b4) + 8 * bit_value(b3) + 4 * bit_value(b2) + 2 * bit_value(b1) + bit_value(b0)
}

/// The five-bit value whose cuts follow the point for five steps.
pub open spec fn locate_symbol(w: Walk, lat: int, lon: int) -> int {
    let b4 = side(w, lat, lon);
    let w4 = narrow(w, b4);
    let b3 = side(w4, lat, lon);
    let w3 = narrow(w4, b3);
    let b2 = side(w3, lat, lon);
    let w2 = narrow(w3, b2);
    let b1 = side(w2, lat, lon);
    let w1 = narrow(w2, b1);
    let b0 = side(w1, lat, lon);
    pack(b4, b3, b2, b1, b0)
}

/// The first `n` characters of the hash of the point (`lat`, `lon`): each
/// character is the symbol whose five cuts follow the point from the cell of
/// the characters before it.
pub open spec fn hash_of(lat: int, lon: int, n: nat) -> Seq<char>
    decreases n,
{
    if n == 0 {
        Seq::<char>::empty()
    } else {
        let prefix = hash_of(lat, lon, (n - 1) as nat);
        prefix.push(symbol(locate_symbol(walk_of(prefix), lat, lon)))
    }
}

/// Packing five bits gives a five-bit value from which each bit can be read back.
pub proof fn lemma_pack(b4: bool, b3: bool, b2: bool, b1: bool, b0: bool)
    ensures
        0 <= pack(b4, b3, b2, b1, b0) < 32,
        ((pack(b4, b3, b2, b1, b0) / 16) % 2 == 1) == b4,
        ((pack(b4, b3, b2, b1, b0) / 8) % 2 == 1) == b3,
        ((pack(b4, b3, b2, b1, b0) / 4) % 2 == 1) == b2,
        ((pack(b4, b3, b2, b1, b0) / 2) % 2 == 1) == b1,
        (pack(b4, b3, b2, b1, b0) % 2 == 1) == b0,
{
}

/// A cut keeps a well-formed cell well-formed and inside the cell before:
/// it halves a range or leaves it as it is.
pub proof fn lemma_narrow(w: Walk, upper: bool)
    requires
        w.cell.wf(),
    ensures
        narrow(w, upper).cell.wf(),
        w.cell.contains(narrow(w, upper).cell),
        narrow(w, upper).lon_turn == !w.lon_turn,
{
    reveal(narrow);
}

/// Five cuts keep a well-formed cell well-formed and inside the cell before.
pub proof fn lemma_narrow_symbol(w: Walk, v: int)
    requires
        w.cell.wf(),
    ensures
        narrow_symbol(w, v).cell.wf(),
        w.cell.contains(narrow_symbol(w, v).cell),
        narrow_symbol(w, v).lon_turn == !w.lon_turn,
{
    let w4 = narrow(w, (v / 16) % 2 == 1);
    let w3 = narrow(w4, (v / 8) % 2 == 1);
    let w2 = narrow(w3, (v / 4) % 2 == 1);
    let w1 = narrow(w2, (v / 2) % 2 == 1);
    lemma_narrow(w, (v / 16) % 2 == 1);
    lemma_narrow(w4, (v / 8) % 2 == 1);
    lemma_narrow(w3, (v / 4) % 2 == 1);
    lemma_narrow(w2, (v / 2) % 2 == 1);
    lemma_narrow(w1, v % 2 == 1);
}

/// A cut on the side of a point keeps the point in the cell.
pub proof fn lemma_narrow_holds(w: Walk, lat: int, lon: int)
    requires
        w.cell.holds(lat, lon),
    ensures
        narrow(w, side(w, lat, lon)).cell.holds(lat, lon),
{
    reveal(narrow);
    reveal(side);
}

/// The symbol located for a point is a five-bit value, and its five cuts
/// keep the point in the cell.
pub proof fn lemma_locate_symbol(w: Walk, lat: int, lon: int)
    requires
        w.cell.holds(lat, lon),
    ensures
        0 <= locate_symbol(w, lat, lon) < 32,
        narrow_symbol(w, locate_symbol(w, lat, lon)).cell.holds(lat, lon),
{
    let b4 = side(w, lat, lon);
    let w4 = narrow(w, b4);
    let b3 = side(w4, lat, lon);
    let w3 = narrow(w4, b3);
    let b2 = side(w3, lat, lon);
    let w2 = narrow(w3, b2);
    let b1 = side(w2, lat, lon);
    let w1 = narrow(w2, b1);
    let b0 = side(w1, lat, lon);
    let v = locate_symbol(w, lat, lon);
    lemma_narrow_holds(w, lat, lon);
    lemma_narrow_holds(w4, lat, lon);
    lemma_narrow_holds(w3, lat, lon);
    lemma_narrow_holds(w2, lat, lon);
    lemma_narrow_holds(w1, lat, lon);
    lemma_pack(b4, b3, b2, b1, b0);
}

/// The bits of a five-bit value, packed again, give the value.
pub proof fn lemma_unpack(v: int)
    requires
        0 <= v < 32,
    ensures
        pack((v / 16) % 2 == 1, (v / 8) % 2 == 1, (v / 4) % 2 == 1, (v / 2) % 2 == 1, v % 2 == 1)
            == v,
{
}

/// The cell of any string, of any length, is well-formed: it lies within
/// the domain, and both its ranges are of an even width and not empty. The
/// next cut after `n` characters is on longitude exactly when `n` is even.
pub proof fn lemma_walk_wf(s: Seq<char>)
    ensures
        walk_of(s).cell.wf(),
        walk_of(s).lon_turn == (s.len() % 2 == 0),
    decreases s.len(),
{
    if s.len() > 0 {
        lemma_walk_wf(s.drop_last());
        lemma_narrow_symbol(walk_of(s.drop_last()), symbol_value(s.last()));
    }
}

/// Appending one character narrows the walk by that character's value.
pub proof fn lemma_walk_push(s: Seq<char>, c: char)
    ensures
        walk_of(s.push(c)) == narrow_symbol(walk_of(s), symbol_value(c)),
{
    assert(s.push(c).drop_last() =~= s);
}

/// A walk in progress: the box reached so far and the axis of the next cut.
///
/// One value serves both directions. Decoding feeds it bits with
/// [`Bisector::narrow`]; encoding asks it with [`Bisector::side`] on which
/// side of the next cut a point lies and feeds that bit back.
#[derive(Clone, Copy, Debug)]
pub struct Bisector {
    bounds: BoundingBox,
    lon_turn: bool,
}

impl View for Bisector {
    type V = Walk;

    closed spec fn view(&self) -> Walk {
        Walk { cell: self.bounds@, lon_turn: self.lon_turn }
    }
}

impl Bisector {
    /// The box of a walk in progress lies within the domain, and both its
    /// ranges are of an even width and not empty.
    #[verifier::type_invariant]
    spec fn wf(self) -> bool {
        self.bounds@.wf()
    }

    /// The walk before any bit.
    pub fn new() -> (b: Bisector)
        ensures
            b@ == start(),
    {
        Bisector {
            bounds: BoundingBox {
                lat_min: Angle { raw: -LAT_LIMIT },
                lat_max: Angle { raw: LAT_LIMIT },
                lon_min: Angle { raw: -LON_LIMIT },
                lon_max: Angle { raw: LON_LIMIT },
            },
            lon_turn: true,
        }
    }

    /// The box reached so far.
    pub fn bounds(&self) -> (b: BoundingBox)
        ensures
            b@ == self@.cell,
            b@.wf(),
    {
        proof {
            use_type_invariant(self);
        }
        self.bounds
    }

    /// Decoding direction: consumes one bit and narrows the box by it, if
    /// the range of the axis in turn can still be cut.
    pub fn narrow(self, upper: bool) -> (b: Bisector)
        ensures
            b@ == narrow(self@, upper),
    {
        proof {
            use_type_invariant(self);
            reveal(narrow);
        }
        let bounds = self.bounds;
        if self.lon_turn {
            let lo: i64 = bounds.lon_min.raw;
            let hi: i64 = bounds.lon_max.raw;
            let width: i64 = hi - lo;
            if width % 4 != 0 {
                return Bisector { bounds, lon_turn: false };
            }
            let mid = Angle { raw: lo + width / 2 };
            if upper {
                Bisector {
                    bounds: BoundingBox {
                        lat_min: bounds.lat_min,
                        lat_max: bounds.lat_max,
                        lon_min: mid,
                        lon_max: bounds.lon_max,
                    },
                    lon_turn: false,
                }
            } else {
                Bisector {
                    bounds: BoundingBox {
                        lat_min: bounds.lat_min,
                        lat_max: bounds.lat_max,
                        lon_min: bounds.lon_min,
                        lon_max: mid,
                    },
                    lon_turn: false,
                }
            }
        } else {
            let lo: i64 = bounds.lat_min.raw;
            let hi: i64 = bounds.lat_max.raw;
            let width: i64 = hi - lo;
            if width % 4 != 0 {
                return Bisector { bounds, lon_turn: true };
            }
            let mid = Angle { raw: lo + width / 2 };
            if upper {
                Bisector {
                    bounds: BoundingBox {
                        lat_min: mid,
                        lat_max: bounds.lat_max,
                        lon_min: bounds.lon_min,
                        lon_max: bounds.lon_max,
                    },
                    lon_turn: true,
                }
            } else {
                Bisector {
                    bounds: BoundingBox {
                        lat_min: bounds.lat_min,
                        lat_max: mid,
                        lon_min: bounds.lon_min,
                        lon_max: bounds.lon_max,
                    },
                    lon_turn: true,
                }
            }
        }
    }

    /// Encoding direction: tells in which half the point lies at the next
    /// cut; the midpoint itself belongs to the upper half.
    pub fn side(&self, point: Coordinate) -> (upper: bool)
        ensures
            upper == side(self@, point.lat@, point.lon@),
    {
        proof {
            use_type_invariant(self);
            reveal(side);
        }
        if self.lon_turn {
            let lo: i64 = self.bounds.lon_min.raw;
            let hi: i64 = self.bounds.lon_max.raw;
            point.lon.raw >= lo + (hi - lo) / 2
        } else {
            let lo: i64 = self.bounds.lat_min.raw;
            let hi: i64 = self.bounds.lat_max.raw;
            point.lat.raw >= lo + (hi - lo) / 2
        }
    }

    /// Decoding direction: five cuts by the low five bits of `v`, the most
    /// significant of them first.
    pub fn narrow_symbol(self, v: u8) -> (b: Bisector)
        ensures
            b@ == narrow_symbol(self@, v as int),
    {
        let w4 = self.narrow((v / 16) % 2 == 1);
        let w3 = w4.narrow((v / 8) % 2 == 1);
        let w2 = w3.narrow((v / 4) % 2 == 1);
        let w1 = w2.narrow((v / 2) % 2 == 1);
        w1.narrow(v % 2 == 1)
    }

    /// Encoding direction: five cuts that follow the point, and the five-bit
    /// value that records them.
    pub fn locate_symbol(self, point: Coordinate) -> (r: (u8, Bisector))
        ensures
            r.0 < 32,
            r.0 == locate_symbol(self@, point.lat@, point.lon@),
            r.1@ == narrow_symbol(self@, r.0 as int),
    {
        let b4 = self.side(point);
        let w4 = self.narrow(b4);
        let b3 = w4.side(point);
        let w3 = w4.narrow(b3);
        let b2 = w3.side(point);
        let w2 = w3.narrow(b2);
        let b1 = w2.side(point);
        let w1 = w2.narrow(b1);
        let b0 = w1.side(point);
        let w0 = w1.narrow(b0);
        let v: u8 = 16 * (b4 as u8) + 8 * (b3 as u8) + 4 * (b2 as u8) + 2 * (b1 as u8) + (b0 as u8);
        proof {
            lemma_pack(b4, b3, b2, b1, b0);
        }
        (v, w0)
    }
}

} // verus!
