use mp4_rotator::atom::{HDLR, MDIA, MOOV, TKHD};
use mp4_rotator::error::{box_type_text, RotateError};

#[test]
fn messages_of_each_error() {
    assert_eq!(RotateError::UnexpectedEof.message(), "failed to fill whole buffer");
    assert_eq!(RotateError::FtypNotFound.message(), "ftyp box not found");
    assert_eq!(RotateError::PrematureEof.message(), "Premature EOF");
    assert_eq!(RotateError::NoVideoTrack.message(), "No video track found");
    assert_eq!(RotateError::MultipleVideoTracks.message(), "Multiple video tracks found");
    assert_eq!(RotateError::UnknownMatrix.message(), "n/a");
}

#[test]
fn messages_name_the_box_type() {
    assert_eq!(RotateError::NoBox(MOOV).message(), "No moov box found");
    assert_eq!(RotateError::NoBox(TKHD).message(), "No tkhd box found");
    assert_eq!(RotateError::MultipleBoxes(MDIA).message(), "Multiple mdia boxes found");
    assert_eq!(RotateError::MultipleBoxes(HDLR).message(), "Multiple hdlr boxes found");
    assert_eq!(box_type_text(u32::from_be_bytes(*b"vide")), "vide");
}

#[test]
fn box_size_message_in_decimal() {
    assert_eq!(RotateError::InvalidBoxSize(0).message(), "Invalid box size 0 < 8");
    assert_eq!(RotateError::InvalidBoxSize(7).message(), "Invalid box size 7 < 8");
    assert_eq!(RotateError::InvalidBoxSize(1234567).message(), "Invalid box size 1234567 < 8");
    assert_eq!(
        RotateError::InvalidBoxSize(u64::MAX).message(),
        format!("Invalid box size {} < 8", u64::MAX)
    );
}

#[test]
fn invalid_box_type_message_is_the_utf8_error() {
    let bytes = [0xffu8, b'o', b'o', b'v'];
    let expected = std::str::from_utf8(&bytes).unwrap_err().to_string();
    assert_eq!(RotateError::InvalidAtomType(u32::from_be_bytes(bytes)).message(), expected);
    let cut = [b'a', b'b', 0xe2, 0x82];
    let expected = std::str::from_utf8(&cut).unwrap_err().to_string();
    assert_eq!(RotateError::InvalidAtomType(u32::from_be_bytes(cut)).message(), expected);
}

#[test]
fn type_text_replaces_invalid_bytes() {
    assert_eq!(box_type_text(u32::from_be_bytes([0xff, b'a', b'b', b'c'])), "\u{fffd}abc");
}
