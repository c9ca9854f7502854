use vstd::prelude::*;
use vstd::string::StringSliceAdditionalSpecFns;

verus! {

/// Why a text is no colour.
#[derive(Clone, Copy, PartialEq, Eq, Structural, Debug)]
pub enum ColourError {
    /// The text is not seven bytes long.
    WrongLength,
    /// A channel is not written as a number to base 16.
    WrongDigit,
}

/// The value of a digit to base 16, written as `0` to `9`, `a` to `f` or
/// `A` to `F`.
pub open spec fn digit_value(b: u8) -> Option<u8> {
    if 48 <= b <= 57 {
        Some((b - 48) as u8)
    } else if 97 <= b <= 102 {
        Some((b - 87) as u8)
    } else if 65 <= b <= 70 {
        Some((b - 55) as u8)
    } else {
        None
    }
}

/// The value of a channel written in two bytes: two digits to base 16, or
/// a plus sign and one digit.
pub open spec fn channel_value(high: u8, low: u8) -> Option<u8> {
    match (digit_value(high), digit_value(low)) {
        (Some(h), Some(l)) => Some((16 * h + l) as u8),
        (None, Some(l)) => if high == 43 {
            Some(l)
        } else {
            None
        },
        _ => None,
    }
}

/// The red, green and blue channel of a colour written as `#RRGGBB`. The
/// first byte is not looked at.
pub open spec fn colour_of(bytes: Seq<u8>) -> Result<(u8, u8, u8), ColourError> {
    if bytes.len() != 7 {
        Err(ColourError::WrongLength)
    } else {
        match (
            channel_value(bytes[1], bytes[2]),
            channel_value(bytes[3], bytes[4]),
            channel_value(bytes[5], bytes[6]),
        ) {
            (Some(r), Some(g), Some(b)) => Ok((r, g, b)),
            _ => Err(ColourError::WrongDigit),
        }
    }
}

fn digit(b: u8) -> (value: Option<u8>)
    ensures
        value == digit_value(b),
{
    if 48 <= b && b <= 57 {
        Some(b - 48)
    } else if 97 <= b && b <= 102 {
        Some(b - 87)
    } else if 65 <= b && b <= 70 {
        Some(b - 55)
    } else {
        None
    }
}

fn channel(high: u8, low: u8) -> (value: Option<u8>)
    ensures
        value == channel_value(high, low),
{
    match (digit(high), digit(low)) {
        (Some(h), Some(l)) => Some(16 * h + l),
        (None, Some(l)) => if high == 43 {
            Some(l)
        } else {
            None
        },
        _ => None,
    }
}

/// The channels of the colour that `hex` writes as `#RRGGBB`, each from 0
/// to 255.
pub fn hex_to_rgb(hex: &str) -> (out: Result<(u8, u8, u8), ColourError>)
    ensures
        out == colour_of(hex.spec_bytes()),
{
    let bytes = hex.as_bytes();
    if bytes.len() != 7 {
        return Err(ColourError::WrongLength);
    }
    match (channel(bytes[1], bytes[2]), channel(bytes[3], bytes[4]), channel(bytes[5], bytes[6])) {
        (Some(r), Some(g), Some(b)) => Ok((r, g, b)),
        _ => Err(ColourError::WrongDigit),
    }
}

} // verus!
