//! Fixed-point angles, coordinates and bounding boxes.
use vstd::prelude::*;

verus! {

/// Number of fractional bits of an [`Angle`].
pub const FRACTION_BITS: u32 = 54;

/// Raw value of one degree: two to the power [`FRACTION_BITS`].
pub const DEGREE: i64 = 18014398509481984;

/// Raw value of ninety degrees, the largest latitude.
pub const LAT_LIMIT: i64 = 1621295865853378560;

/// Raw value of one hundred and eighty degrees, the largest longitude.
pub const LON_LIMIT: i64 = 3242591731706757120;

/// An angle in degrees, held as a signed fixed-point number.
///
/// The angle is `raw / 2^54` degrees. Its view is the raw count as an
/// unbounded integer, and all contracts of this crate speak of that count.
#[derive(Clone, Copy, Debug, PartialEq, Eq, Structural)]
pub struct Angle {
    pub raw: i64,
}

impl View for Angle {
    type V = int;

    open spec fn view(&self) -> int {
        self.raw as int
    }
}

impl Angle {
    /// The angle of `raw` units of `2^-54` degrees.
    pub fn from_raw(raw: i64) -> (a: Angle)
        ensures
            a@ == raw,
    {
        Angle { raw }
    }

    /// The number of `2^-54` degree units in this angle.
    pub fn raw(&self) -> (raw: i64)
        ensures
            raw == self@,
    {
        self.raw
    }
}

/// A point on the Earth's surface, latitude first.
#[derive(Clone, Copy, Debug, PartialEq, Eq, Structural)]
pub struct Coordinate {
    pub lat: Angle,
    pub lon: Angle,
}

impl Coordinate {
    /// True when the latitude lies in [-90, 90] and the longitude in [-180, 180].
    pub open spec fn in_domain(&self) -> bool {
        &&& -LAT_LIMIT <= self.lat@ <= LAT_LIMIT
        &&& -LON_LIMIT <= self.lon@ <= LON_LIMIT
    }

    /// The coordinate at latitude `lat` and longitude `lon`.
    pub fn new(lat: Angle, lon: Angle) -> (c: Coordinate)
        ensures
            c.lat == lat,
            c.lon == lon,
    {
        Coordinate { lat, lon }
    }

    /// The coordinate of a point given as `x` and `y`, where `x` runs east
    /// and is the longitude and `y` runs north and is the latitude.
    pub fn from_xy(x: Angle, y: Angle) -> (c: Coordinate)
        ensures
            c.lat == y,
            c.lon == x,
    {
        Coordinate { lat: y, lon: x }
    }

    /// The point as `x` and `y`: the longitude first, then the latitude.
    pub fn xy(&self) -> (p: (Angle, Angle))
        ensures
            p.0 == self.lon,
            p.1 == self.lat,
    {
        (self.lon, self.lat)
    }

    /// Decides whether both axes lie within their domains.
    pub fn is_in_domain(&self) -> (ok: bool)
        ensures
            ok == self.in_domain(),
    {
        -LAT_LIMIT <= self.lat.raw && self.lat.raw <= LAT_LIMIT && -LON_LIMIT <= self.lon.raw
            && self.lon.raw <= LON_LIMIT
    }
}

/// A latitude range and a longitude range, as unbounded integers.
///
/// This is the mathematical value of a [`BoundingBox`].
pub struct Cell {
    pub lat_lo: int,
    pub lat_hi: int,
    pub lon_lo: int,
    pub lon_hi: int,
}

impl Cell {
    /// Both ranges lie within the coordinate domain, and each is a whole
    /// even number of units wide and not empty, so that its middle and its
    /// half-width are whole numbers of units.
    pub open spec fn wf(self) -> bool {
        &&& -LAT_LIMIT <= self.lat_lo < self.lat_hi <= LAT_LIMIT
        &&& -LON_LIMIT <= self.lon_lo < self.lon_hi <= LON_LIMIT
        &&& (self.lat_hi - self.lat_lo) % 2 == 0
        &&& (self.lon_hi - self.lon_lo) % 2 == 0
    }

    /// The point (`lat`, `lon`) lies in the cell, edges included.
    pub open spec fn holds(self, lat: int, lon: int) -> bool {
        &&& self.lat_lo <= lat <= self.lat_hi
        &&& self.lon_lo <= lon <= self.lon_hi
    }

    /// The point (`lat`, `lon`) lies in the cell, the lower edges included
    /// and the upper edges not.
    pub open spec fn holds_below_top(self, lat: int, lon: int) -> bool {
        &&& self.lat_lo <= lat < self.lat_hi
        &&& self.lon_lo <= lon < self.lon_hi
    }

    /// Every point of `inner` lies in this cell.
    pub open spec fn contains(self, inner: Cell) -> bool {
        &&& self.lat_lo <= inner.lat_lo
        &&& inner.lat_hi <= self.lat_hi
        &&& self.lon_lo <= inner.lon_lo
        &&& inner.lon_hi <= self.lon_hi
    }
}

/// An axis-aligned rectangle of latitudes and longitudes.
///
/// The boxes that decoding gives are well-formed in the sense of
/// [`Cell::wf`]: within the domain, and of an even width and not empty on
/// both axes.
#[derive(Clone, Copy, Debug, PartialEq, Eq, Structural)]
pub struct BoundingBox {
    pub lat_min: Angle,
    pub lat_max: Angle,
    pub lon_min: Angle,
    pub lon_max: Angle,
}

impl View for BoundingBox {
    type V = Cell;

    open spec fn view(&self) -> Cell {
        Cell {
            lat_lo: self.lat_min@,
            lat_hi: self.lat_max@,
            lon_lo: self.lon_min@,
            lon_hi: self.lon_max@,
        }
    }
}

impl BoundingBox {
    /// The south-west corner: the smallest latitude and longitude.
    pub fn min(&self) -> (c: Coordinate)
        ensures
            c.lat == self.lat_min,
            c.lon == self.lon_min,
    {
        Coordinate { lat: self.lat_min, lon: self.lon_min }
    }

    /// The north-east corner: the largest latitude and longitude.
    pub fn max(&self) -> (c: Coordinate)
        ensures
            c.lat == self.lat_max,
            c.lon == self.lon_max,
    {
        Coordinate { lat: self.lat_max, lon: self.lon_max }
    }
}

} // verus!
