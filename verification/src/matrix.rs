//! The four rotation matrices of a track header and the choice of the next one.

use vstd::prelude::*;

use crate::error::RotateError;

verus! {

/// The 36 bytes of the track-header matrix for rotation `index * 90` degrees
/// (clockwise), for `index` in `0..4`.
pub open spec fn spec_rotation_matrix(index: int) -> Seq<u8> {
    if index == 0 {
        seq![0x00u8, 0x01, 0, 0, 0, 0, 0, 0, 0, 0, 0, 0, 0, 0, 0, 0, 0, 0x01, 0, 0, 0, 0, 0, 0, 0, 0, 0, 0, 0, 0, 0, 0, 0x40, 0, 0, 0]
    } else if index == 1 {
        seq![0x00u8, 0, 0, 0, 0, 0x01, 0, 0, 0, 0, 0, 0, 0xFF, 0xFF, 0, 0, 0, 0, 0, 0, 0, 0, 0, 0, 0, 0, 0, 0, 0, 0, 0, 0, 0x40, 0, 0, 0]
    } else if index == 2 {
        seq![0xFFu8, 0xFF, 0, 0, 0, 0, 0, 0, 0, 0, 0, 0, 0, 0, 0, 0, 0xFF, 0xFF, 0, 0, 0, 0, 0, 0, 0, 0, 0, 0, 0, 0, 0, 0, 0x40, 0, 0, 0]
    } else {
        seq![0x00u8, 0, 0, 0, 0xFF, 0xFF, 0, 0, 0, 0, 0, 0, 0, 0x01, 0, 0, 0, 0, 0, 0, 0, 0, 0, 0, 0, 0, 0, 0, 0, 0, 0, 0, 0x40, 0, 0, 0]
    }
}

/// The track-header matrix for rotation `index * 90` degrees.
pub fn rotation_matrix(index: usize) -> (m: Vec<u8>)
    requires
        index < 4,
    ensures
        m@ == spec_rotation_matrix(index as int),
{
    if index == 0 {
        vec![0x00u8, 0x01, 0, 0, 0, 0, 0, 0, 0, 0, 0, 0, 0, 0, 0, 0, 0, 0x01, 0, 0, 0, 0, 0, 0, 0, 0, 0, 0, 0, 0, 0, 0, 0x40, 0, 0, 0]
    } else if index == 1 {
        vec![0x00u8, 0, 0, 0, 0, 0x01, 0, 0, 0, 0, 0, 0, 0xFF, 0xFF, 0, 0, 0, 0, 0, 0, 0, 0, 0, 0, 0, 0, 0, 0, 0, 0, 0, 0, 0x40, 0, 0, 0]
    } else if index == 2 {
        vec![0xFFu8, 0xFF, 0, 0, 0, 0, 0, 0, 0, 0, 0, 0, 0, 0, 0, 0, 0xFF, 0xFF, 0, 0, 0, 0, 0, 0, 0, 0, 0, 0, 0, 0, 0, 0, 0x40, 0, 0, 0]
    } else {
        vec![0x00u8, 0, 0, 0, 0xFF, 0xFF, 0, 0, 0, 0, 0, 0, 0, 0x01, 0, 0, 0, 0, 0, 0, 0, 0, 0, 0, 0, 0, 0, 0, 0, 0, 0, 0, 0x40, 0, 0, 0]
    }
}

/// The index `i` in `0..4` whose matrix is `m`, if any.
pub open spec fn spec_matrix_index(m: Seq<u8>) -> Option<int> {
    if m == spec_rotation_matrix(0) {
        Some(0)
    } else if m == spec_rotation_matrix(1) {
        Some(1)
    } else if m == spec_rotation_matrix(2) {
        Some(2)
    } else if m == spec_rotation_matrix(3) {
        Some(3)
    } else {
        None
    }
}

/// A rotation that may be asked for: none, or a number of degrees below 360
/// (which selects the matrix of `degrees / 90` quarter turns).
pub open spec fn valid_rotation(rotation: Option<u32>) -> bool {
    rotation matches Some(r) ==> r < 360
}

/// The index of the matrix that replaces matrix `current`: one quarter turn
/// further clockwise when no rotation is given, else the one asked for.
pub open spec fn spec_next_index(current: int, rotation: Option<u32>) -> int {
    match rotation {
        None => (current + 1) % 4,
        Some(r) => r as int / 90,
    }
}

/// The text `"<degrees>°"` for the rotation of matrix `index`.
pub open spec fn degrees_text(index: int) -> Seq<char> {
    if index == 0 {
        seq!['0', '°']
    } else if index == 1 {
        seq!['9', '0', '°']
    } else if index == 2 {
        seq!['1', '8', '0', '°']
    } else {
        seq!['2', '7', '0', '°']
    }
}

fn bytes_equal(a: &[u8], b: &[u8]) -> (r: bool)
    ensures
        r == (a@ == b@),
{
    if a.len() != b.len() {
        return false;
    }
    let mut i: usize = 0;
    while i < a.len()
        invariant
            a.len() == b.len(),
            i <= a.len(),
            forall|j: int| 0 <= j < i ==> a@[j] == b@[j],
        decreases a.len() - i,
    {
        if a[i] != b[i] {
            return false;
        }
        i += 1;
    }
    assert(a@ =~= b@);
    true
}

/// The index of `matrix` among the four rotation matrices, or
/// `UnknownMatrix` when it is none of them.
pub fn rotation_matrix_index(matrix: &[u8]) -> (r: Result<usize, RotateError>)
    ensures
        match spec_matrix_index(matrix@) {
            Some(i) => r == Ok::<usize, RotateError>(i as usize),
            None => r == Err::<usize, RotateError>(RotateError::UnknownMatrix),
        },
{
    let mut i: usize = 0;
    while i < 4
        invariant
            i <= 4,
            forall|j: int| 0 <= j < i ==> matrix@ != spec_rotation_matrix(j),
        decreases 4 - i,
    {
        let m = rotation_matrix(i);
        if bytes_equal(m.as_slice(), matrix) {
            return Ok(i);
        }
        i += 1;
    }
    Err(RotateError::UnknownMatrix)
}

/// The rotation of `matrix` as text, such as `"90°"`, or `UnknownMatrix`
/// when it is none of the four rotation matrices.
pub fn rotation_matrix_to_str(matrix: &[u8]) -> (r: Result<String, RotateError>)
    ensures
        match spec_matrix_index(matrix@) {
            Some(i) => r matches Ok(s) && s@ == degrees_text(i),
            None => r == Err::<String, RotateError>(RotateError::UnknownMatrix),
        },
{
    let index = rotation_matrix_index(matrix)?;
    if index == 0 {
        let s = String::from_str("0°");
        proof {
            reveal_strlit("0°");
        }
        Ok(s)
    } else if index == 1 {
        let s = String::from_str("90°");
        proof {
            reveal_strlit("90°");
        }
        Ok(s)
    } else if index == 2 {
        let s = String::from_str("180°");
        proof {
            reveal_strlit("180°");
        }
        Ok(s)
    } else {
        let s = String::from_str("270°");
        proof {
            reveal_strlit("270°");
        }
        Ok(s)
    }
}

/// The index of the matrix that replaces matrix `current`, given the
/// rotation asked for (if any). A rotation of 360 degrees or more gives an
/// index past the four matrices.
pub fn next_rotation_index(current: usize, rotation: Option<u32>) -> (next: usize)
    requires
        current < 4,
    ensures
        next == spec_next_index(current as int, rotation),
        valid_rotation(rotation) ==> next < 4,
        rotation is None ==> next == (current + 1) % 4,
        rotation matches Some(r) ==> next == r / 90,
{
    match rotation {
        None => (current + 1) % 4,
        Some(r) => (r / 90) as usize,
    }
}

/// Reading back the index of a rotation matrix gives that index: the four
/// matrices are distinct.
pub proof fn lemma_matrix_index_round_trip(index: int)
    requires
        0 <= index < 4,
    ensures
        spec_matrix_index(spec_rotation_matrix(index)) == Some(index),
{
    let m0 = spec_rotation_matrix(0);
    let m1 = spec_rotation_matrix(1);
    let m2 = spec_rotation_matrix(2);
    let m3 = spec_rotation_matrix(3);
    assert(m0[1] != m1[1]);
    assert(m0[0] != m2[0]);
    assert(m0[1] != m3[1]);
    assert(m1[0] != m2[0]);
    assert(m1[5] != m3[5]);
    assert(m2[0] != m3[0]);
}

/// Without a rotation asked for, each run turns the video a quarter turn
/// clockwise, so four runs bring it back to where it was.
pub proof fn lemma_default_rotation_cycles(current: int)
    requires
        0 <= current < 4,
    ensures
        spec_next_index(current, None) * 90 == (current * 90 + 90) % 360,
        spec_next_index(
            spec_next_index(spec_next_index(spec_next_index(current, None), None), None),
            None,
        ) == current,
{
}

/// A rotation asked for does not depend on the current one: asking twice
/// for the same rotation leaves the second run nothing to change.
pub proof fn lemma_forced_rotation_settles(current: int, rotation: u32)
    requires
        0 <= current < 4,
        rotation < 360,
    ensures
        0 <= spec_next_index(current, Some(rotation)) < 4,
        spec_next_index(spec_next_index(current, Some(rotation)), Some(rotation))
            == spec_next_index(current, Some(rotation)),
{
}

/// Byte `k` of the matrix is not the same in all four rotation matrices.
pub open spec fn matrix_byte_varies(k: int) -> bool {
    &&& 0 <= k < 36
    &&& !(spec_rotation_matrix(0)[k] == spec_rotation_matrix(1)[k]
        && spec_rotation_matrix(1)[k] == spec_rotation_matrix(2)[k]
        && spec_rotation_matrix(2)[k] == spec_rotation_matrix(3)[k])
}

/// Where the four rotation matrices agree, any two of them hold the same
/// byte.
pub proof fn lemma_shared_matrix_byte(a: int, b: int, k: int)
    requires
        0 <= a < 4,
        0 <= b < 4,
        0 <= k < 36,
        !matrix_byte_varies(k),
    ensures
        spec_rotation_matrix(a)[k] == spec_rotation_matrix(b)[k],
{
}

/// A rotation asked for picks its matrix by the angle alone, whatever the
/// current matrix: `degrees / 90` quarter turns; without one, the matrix one
/// quarter turn further clockwise.
pub proof fn lemma_next_index_by_angle(current: int, degrees: u32)
    requires
        0 <= current < 4,
    ensures
        spec_next_index(current, Some(degrees)) == degrees / 90,
        spec_next_index(current, Some(degrees)) * 90 <= degrees < spec_next_index(current, Some(degrees)) * 90 + 90,
        forall|other: int| 0 <= other < 4 ==> spec_next_index(other, Some(degrees)) == spec_next_index(current, Some(degrees)),
        spec_next_index(current, None) == (current + 1) % 4,
{
}

/// Each rotation matrix takes 36 bytes.
pub proof fn lemma_rotation_matrix_len(index: int)
    ensures
        spec_rotation_matrix(index).len() == 36,
{
    if index == 0 {
        assert(spec_rotation_matrix(0).len() == 36);
    } else if index == 1 {
        assert(spec_rotation_matrix(1).len() == 36);
    } else if index == 2 {
        assert(spec_rotation_matrix(2).len() == 36);
    } else {
        assert(spec_rotation_matrix(3).len() == 36);
    }
}

} // verus!
