//! Colours written as text: a mark and six hexadecimal digits, two for each
//! of red, green and blue.

use vstd::prelude::*;
use vstd::string::StringSliceAdditionalSpecFns;

verus! {

/// The value of a hexadecimal digit, in either case.
pub open spec fn hex_digit(byte: u8) -> Option<int> {
    if 48 <= byte <= 57 {
        Some(byte - 48)
    } else if 97 <= byte <= 102 {
        Some(byte - 87)
    } else if 65 <= byte <= 70 {
        Some(byte - 55)
    } else {
        None
    }
}

/// The value of the two digits at `at` and after it.
pub open spec fn hex_pair(bytes: Seq<u8>, at: int) -> Option<int> {
    if hex_digit(bytes[at]).is_some() && hex_digit(bytes[at + 1]).is_some() {
        Some(16 * hex_digit(bytes[at]).unwrap() + hex_digit(bytes[at + 1]).unwrap())
    } else {
        None
    }
}

/// The colour that the text names, opaque: the first byte is the mark and
/// is not looked at, the six bytes after it are the digits, and what
/// follows them is not looked at either.
pub open spec fn hex_color(bytes: Seq<u8>) -> Option<(u8, u8, u8, u8)> {
    if bytes.len() >= 7 && hex_pair(bytes, 1).is_some() && hex_pair(bytes, 3).is_some() && hex_pair(
        bytes,
        5,
    ).is_some() {
        Some(
            (
                hex_pair(bytes, 1).unwrap() as u8,
                hex_pair(bytes, 3).unwrap() as u8,
                hex_pair(bytes, 5).unwrap() as u8,
                255u8,
            ),
        )
    } else {
        None
    }
}

fn digit(byte: u8) -> (value: Option<u8>)
    ensures
        value.is_some() == hex_digit(byte).is_some(),
        value matches Some(v) ==> v == hex_digit(byte).unwrap() && v < 16,
{
    if 48 <= byte && byte <= 57 {
        Some(byte - 48)
    } else if 97 <= byte && byte <= 102 {
        Some(byte - 87)
    } else if 65 <= byte && byte <= 70 {
        Some(byte - 55)
    } else {
        None
    }
}

fn pair(bytes: &[u8], at: usize) -> (value: Option<u8>)
    requires
        at + 1 < bytes.len(),
    ensures
        value.is_some() == hex_pair(bytes@, at as int).is_some(),
        value matches Some(v) ==> v == hex_pair(bytes@, at as int).unwrap(),
{
    match (digit(bytes[at]), digit(bytes[at + 1])) {
        (Some(high), Some(low)) => Some(16 * high + low),
        _ => None,
    }
}

/// Reads a colour such as `#313639` as red, green, blue and opacity, or
/// returns `None` where the text is too short or a digit is none.
pub fn hex(text: &str) -> (color: Option<(u8, u8, u8, u8)>)
    ensures
        color == hex_color(text.spec_bytes()),
{
    let bytes = text.as_bytes();
    if bytes.len() < 7 {
        return None;
    }
    match (pair(bytes, 1), pair(bytes, 3), pair(bytes, 5)) {
        (Some(red), Some(green), Some(blue)) => Some((red, green, blue, 255)),
        _ => None,
    }
}

} // verus!
