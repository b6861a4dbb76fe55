//! The reasons for which a file cannot be rotated.

use vstd::prelude::*;
use vstd::utf8::valid_utf8;

use crate::atom::{array_string_from_type, type_bytes, type_bytes_of, utf8_error_text};

verus! {

/// Why the rotation matrix of a file could not be found or recognised.
/// Box types are four-character codes read as big-endian integers.
#[derive(Debug, Clone, Copy, PartialEq, Eq)]
pub enum RotateError {
    /// A box header ran past the end of the file.
    UnexpectedEof,
    /// A box type (the four bytes given) is not valid UTF-8.
    InvalidAtomType(u32),
    /// A box declared a size smaller than its own 8-byte header.
    InvalidBoxSize(u64),
    /// The file does not start with an `ftyp` box.
    FtypNotFound,
    /// No box of the given type where exactly one was expected.
    NoBox(u32),
    /// Several boxes of the given type where exactly one was expected.
    MultipleBoxes(u32),
    /// The data of a box ended before the bytes that were to be read.
    PrematureEof,
    /// No track has a video handler.
    NoVideoTrack,
    /// More than one track has a video handler.
    MultipleVideoTracks,
    /// The matrix is not one of the four rotation matrices.
    UnknownMatrix,
}

/// What `String::from_utf8_lossy` gives on `bytes`.
pub uninterp spec fn lossy_text(bytes: Seq<u8>) -> Seq<char>;

/// Calls `String::from_utf8_lossy`, which decodes UTF-8 bytes into text and
/// puts U+FFFD in place of each invalid sequence. Bytes below 0x80 are ASCII
/// and decode each to the character of that code.
#[verifier::external_body]
fn utf8_lossy(bytes: [u8; 4]) -> (r: String)
    ensures
        r@ == lossy_text(bytes@),
        (forall|i: int| 0 <= i < 4 ==> bytes@[i] < 0x80) ==> r@ == bytes@.map_values(|b: u8| b as char),
{
    String::from_utf8_lossy(&bytes).into_owned()
}

/// Box type `t` is four ASCII characters.
pub open spec fn ascii_type(t: u32) -> bool {
    forall|i: int| 0 <= i < 4 ==> #[trigger] type_bytes(t)[i] < 0x80
}

/// The text of box type `t`: its four characters when they are ASCII, else
/// what lossy UTF-8 decoding makes of its bytes.
pub open spec fn type_text(t: u32) -> Seq<char> {
    if ascii_type(t) {
        type_bytes(t).map_values(|b: u8| b as char)
    } else {
        lossy_text(type_bytes(t))
    }
}

/// The text of the decimal digit `d`.
pub open spec fn digit_text(d: nat) -> Seq<char> {
    if d == 0 {
        "0"@
    } else if d == 1 {
        "1"@
    } else if d == 2 {
        "2"@
    } else if d == 3 {
        "3"@
    } else if d == 4 {
        "4"@
    } else if d == 5 {
        "5"@
    } else if d == 6 {
        "6"@
    } else if d == 7 {
        "7"@
    } else if d == 8 {
        "8"@
    } else {
        "9"@
    }
}

/// `n` written in decimal, without leading zeros.
pub open spec fn decimal_text(n: nat) -> Seq<char>
    decreases n,
{
    if n < 10 {
        digit_text(n)
    } else {
        decimal_text(n / 10) + digit_text(n % 10)
    }
}

/// The message that reports error `e`. A box type that is valid UTF-8 never
/// gives `InvalidAtomType`; for one, the message names the type.
pub open spec fn error_message(e: RotateError) -> Seq<char> {
    match e {
        RotateError::UnexpectedEof => "failed to fill whole buffer"@,
        RotateError::InvalidAtomType(t) => if valid_utf8(type_bytes(t)) {
            "Invalid box type "@ + type_text(t)
        } else {
            utf8_error_text(type_bytes(t))
        },
        RotateError::InvalidBoxSize(size) => "Invalid box size "@ + decimal_text(size as nat) + " < 8"@,
        RotateError::FtypNotFound => "ftyp box not found"@,
        RotateError::NoBox(t) => "No "@ + type_text(t) + " box found"@,
        RotateError::MultipleBoxes(t) => "Multiple "@ + type_text(t) + " boxes found"@,
        RotateError::PrematureEof => "Premature EOF"@,
        RotateError::NoVideoTrack => "No video track found"@,
        RotateError::MultipleVideoTracks => "Multiple video tracks found"@,
        RotateError::UnknownMatrix => "n/a"@,
    }
}

fn digit_str(d: u64) -> (s: &'static str)
    requires
        d < 10,
    ensures
        s@ == digit_text(d as nat),
{
    if d == 0 {
        "0"
    } else if d == 1 {
        "1"
    } else if d == 2 {
        "2"
    } else if d == 3 {
        "3"
    } else if d == 4 {
        "4"
    } else if d == 5 {
        "5"
    } else if d == 6 {
        "6"
    } else if d == 7 {
        "7"
    } else if d == 8 {
        "8"
    } else {
        "9"
    }
}

/// Appends `n` in decimal to `s`.
fn push_decimal(s: &mut String, n: u64)
    ensures
        final(s)@ == old(s)@ + decimal_text(n as nat),
    decreases n,
{
    if n >= 10 {
        push_decimal(s, n / 10);
        s.append(digit_str(n % 10));
        assert(final(s)@ =~= old(s)@ + decimal_text(n as nat));
    } else {
        s.append(digit_str(n));
    }
}

/// The text of box type `t`.
pub fn box_type_text(t: u32) -> (r: String)
    ensures
        r@ == type_text(t),
{
    utf8_lossy(type_bytes_of(t))
}

impl RotateError {
    /// The message that reports this error.
    pub fn message(&self) -> (r: String)
        ensures
            r@ == error_message(*self),
    {
        match *self {
            RotateError::UnexpectedEof => String::from_str("failed to fill whole buffer"),
            RotateError::InvalidAtomType(t) => match array_string_from_type(type_bytes_of(t)) {
                Err(text) => text,
                Ok(()) => {
                    let mut s = String::from_str("Invalid box type ");
                    let name = box_type_text(t);
                    s.append(name.as_str());
                    s
                },
            },
            RotateError::InvalidBoxSize(size) => {
                let mut s = String::from_str("Invalid box size ");
                push_decimal(&mut s, size);
                s.append(" < 8");
                s
            },
            RotateError::FtypNotFound => String::from_str("ftyp box not found"),
            RotateError::NoBox(t) => {
                let mut s = String::from_str("No ");
                let name = box_type_text(t);
                s.append(name.as_str());
                s.append(" box found");
                s
            },
            RotateError::MultipleBoxes(t) => {
                let mut s = String::from_str("Multiple ");
                let name = box_type_text(t);
                s.append(name.as_str());
                s.append(" boxes found");
                s
            },
            RotateError::PrematureEof => String::from_str("Premature EOF"),
            RotateError::NoVideoTrack => String::from_str("No video track found"),
            RotateError::MultipleVideoTracks => String::from_str("Multiple video tracks found"),
            RotateError::UnknownMatrix => String::from_str("n/a"),
        }
    }
}

} // verus!
