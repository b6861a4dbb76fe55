use mp4_rotator::error::RotateError;
use mp4_rotator::matrix::{next_rotation_index, rotation_matrix, rotation_matrix_index, rotation_matrix_to_str};

const NO_ROTATION: [u8; 36] = [
    0, 0x01, 0, 0, 0, 0, 0, 0, 0, 0, 0, 0, 0, 0, 0, 0, 0, 0x01, 0, 0, 0, 0, 0, 0, 0, 0, 0, 0, 0, 0, 0, 0, 0x40, 0, 0, 0,
];
const ROTATION_90: [u8; 36] = [
    0, 0, 0, 0, 0, 0x01, 0, 0, 0, 0, 0, 0, 0xFF, 0xFF, 0, 0, 0, 0, 0, 0, 0, 0, 0, 0, 0, 0, 0, 0, 0, 0, 0, 0, 0x40, 0, 0, 0,
];
const ROTATION_180: [u8; 36] = [
    0xFF, 0xFF, 0, 0, 0, 0, 0, 0, 0, 0, 0, 0, 0, 0, 0, 0, 0xFF, 0xFF, 0, 0, 0, 0, 0, 0, 0, 0, 0, 0, 0, 0, 0, 0, 0x40, 0, 0, 0,
];
const ROTATION_270: [u8; 36] = [
    0, 0, 0, 0, 0xFF, 0xFF, 0, 0, 0, 0, 0, 0, 0, 0x01, 0, 0, 0, 0, 0, 0, 0, 0, 0, 0, 0, 0, 0, 0, 0, 0, 0, 0, 0x40, 0, 0, 0,
];

#[test]
fn matrices_are_the_track_header_matrices() {
    assert_eq!(rotation_matrix(0), NO_ROTATION.to_vec());
    assert_eq!(rotation_matrix(1), ROTATION_90.to_vec());
    assert_eq!(rotation_matrix(2), ROTATION_180.to_vec());
    assert_eq!(rotation_matrix(3), ROTATION_270.to_vec());
}

#[test]
fn matrix_index_of_each_matrix() {
    assert_eq!(rotation_matrix_index(&NO_ROTATION), Ok(0));
    assert_eq!(rotation_matrix_index(&ROTATION_90), Ok(1));
    assert_eq!(rotation_matrix_index(&ROTATION_180), Ok(2));
    assert_eq!(rotation_matrix_index(&ROTATION_270), Ok(3));
}

#[test]
fn matrix_index_rejects_other_bytes() {
    let mut m = NO_ROTATION;
    m[35] = 1;
    assert_eq!(rotation_matrix_index(&m), Err(RotateError::UnknownMatrix));
    assert_eq!(rotation_matrix_index(&NO_ROTATION[..35]), Err(RotateError::UnknownMatrix));
    assert_eq!(rotation_matrix_index(&[]), Err(RotateError::UnknownMatrix));
}

#[test]
fn matrix_to_str_gives_degrees() {
    assert_eq!(rotation_matrix_to_str(&NO_ROTATION).unwrap(), "0°");
    assert_eq!(rotation_matrix_to_str(&ROTATION_90).unwrap(), "90°");
    assert_eq!(rotation_matrix_to_str(&ROTATION_180).unwrap(), "180°");
    assert_eq!(rotation_matrix_to_str(&ROTATION_270).unwrap(), "270°");
    assert_eq!(rotation_matrix_to_str(&[1, 2, 3]), Err(RotateError::UnknownMatrix));
}

#[test]
fn next_index_turns_a_quarter_clockwise_by_default() {
    assert_eq!(next_rotation_index(0, None), 1);
    assert_eq!(next_rotation_index(1, None), 2);
    assert_eq!(next_rotation_index(2, None), 3);
    assert_eq!(next_rotation_index(3, None), 0);
}

#[test]
fn next_index_follows_the_rotation_asked_for() {
    assert_eq!(next_rotation_index(3, Some(0)), 0);
    assert_eq!(next_rotation_index(0, Some(90)), 1);
    assert_eq!(next_rotation_index(0, Some(180)), 2);
    assert_eq!(next_rotation_index(1, Some(270)), 3);
    assert_eq!(next_rotation_index(2, Some(180)), 2);
    assert_eq!(next_rotation_index(2, Some(359)), 3);
    assert_eq!(next_rotation_index(2, Some(720)), 8);
}

#[test]
fn four_default_turns_come_back() {
    for start in 0..4 {
        let mut i = start;
        for _ in 0..4 {
            i = next_rotation_index(i, None);
        }
        assert_eq!(i, start);
    }
}
