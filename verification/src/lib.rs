//! A geohash codec over exact fixed-point angles.
//!
//! A geohash names a rectangle of the Earth's surface by a short base-32
//! string. Every character contributes five bits; the bits alternately halve
//! the longitude and the latitude range, starting with longitude, and a set
//! bit keeps the upper half.
//!
//! * [`encode`] turns a coordinate into the hash of a chosen length.
//! * [`decode_bbox`] turns a hash into the box that it names, and
//!   [`decode`] (or [`decode_exact`]) into the centre of that box with the
//!   error margin of each axis.
//! * [`error_to_precision`] tells how many decimals of a decoded angle are
//!   meaningful under its margin, [`format_to_precision`] writes an angle
//!   with that many decimals, and [`decode_formatted`] does both for the
//!   centre of a hash.
//!
//! Angles are signed fixed-point numbers with 54 fractional bits (see
//! [`Angle`]), so every midpoint, bound and margin is computed in whole
//! numbers. The resolution carries 55 cuts per axis, which is a hash of 22
//! characters. A hash may be longer: a bit that finds its range at the
//! resolution leaves the box as it is, so at any length the centre is the
//! exact middle of the box and each margin exactly half its width.
//!
//! All coordinates are given latitude first. Only the lower-case alphabet
//! is read: an upper-case letter, a blank or any other character in a hash
//! is refused with its position.
pub mod alphabet;
pub mod angle;
pub mod bisect;
pub mod decimal;
pub mod decoder;
pub mod encoder;
pub mod error;
pub mod format;
pub mod laws;
pub mod precision;
pub mod resolution;

pub use crate::angle::{Angle, BoundingBox, Coordinate};
pub use crate::decoder::{decode, decode_bbox, decode_exact, decode_formatted};
pub use crate::encoder::{encode, DEFAULT_PRECISION};
pub use crate::error::CodecError;
pub use crate::format::format_to_precision;
pub use crate::precision::error_to_precision;
