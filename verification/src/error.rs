//! The ways in which an operation of the codec can fail.
use vstd::prelude::*;
use crate::angle::{Angle, FRACTION_BITS};
use crate::decimal::{decimal, push_decimal};
use crate::format::{format_spec, format_to_precision};

verus! {

/// Why an operation was refused.
#[derive(Clone, Copy, Debug, PartialEq, Eq, Structural)]
pub enum CodecError {
    /// The latitude or the longitude to encode lies outside its domain.
    /// Both are reported, latitude first.
    InvalidCoordinate { lat: Angle, lon: Angle },
    /// The character at position `index` of the hash, counted in characters
    /// from zero, is not in the alphabet.
    InvalidCharacter { character: char, index: usize },
    /// The hash to decode has no characters.
    EmptyInput,
    /// An error margin that is zero or negative has no decimal precision.
    /// The margins that decoding gives are positive, so this is the answer
    /// to a margin of the caller's own only.
    NonPositiveMargin { margin: Angle },
}

/// The exact decimal text of an angle: all its decimals, of which there are
/// at most as many as fractional bits.
pub open spec fn exact_text(a: Angle) -> Seq<char> {
    format_spec(a@, FRACTION_BITS as nat)
}

/// `String::push` of the standard library: the string afterwards is the
/// string before with the one character added at its end.
#[verifier::external_body]
fn push_char(out: &mut String, c: char)
    ensures
        final(out)@ == old(out)@.push(c),
{
    out.push(c);
}

impl CodecError {
    /// The text of [`CodecError::message`].
    pub open spec fn message_spec(self) -> Seq<char> {
        match self {
            CodecError::InvalidCoordinate { lat, lon } => {
                "invalid coordinate range: COORD(lat="@ + exact_text(lat) + ", lng="@ + exact_text(
                    lon,
                ) + ")"@
            },
            CodecError::InvalidCharacter { character, index } => {
                "invalid hash character: "@.push(character) + " at index "@ + decimal(index as nat)
            },
            CodecError::EmptyInput => "empty hash: nothing to decode"@,
            CodecError::NonPositiveMargin { margin } => {
                "error margin is not positive: "@ + exact_text(margin)
            },
        }
    }

    /// A sentence for the user that names the input that was refused. A
    /// coordinate is written latitude first, whatever order the caller or
    /// the codec may use elsewhere.
    pub fn message(&self) -> (text: String)
        ensures
            text@ == self.message_spec(),
    {
        let mut out = String::new();
        match *self {
            CodecError::InvalidCoordinate { lat, lon } => {
                out.append("invalid coordinate range: COORD(lat=");
                out.append(format_to_precision(lat, FRACTION_BITS as usize).as_str());
                out.append(", lng=");
                out.append(format_to_precision(lon, FRACTION_BITS as usize).as_str());
                out.append(")");
            },
            CodecError::InvalidCharacter { character, index } => {
                out.append("invalid hash character: ");
                push_char(&mut out, character);
                out.append(" at index ");
                push_decimal(&mut out, index as u64);
            },
            CodecError::EmptyInput => {
                out.append("empty hash: nothing to decode");
            },
            CodecError::NonPositiveMargin { margin } => {
                out.append("error margin is not positive: ");
                out.append(format_to_precision(margin, FRACTION_BITS as usize).as_str());
            },
        }
        assert(out@ =~= self.message_spec());
        out
    }
}

} // verus!
