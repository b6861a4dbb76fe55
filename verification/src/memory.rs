//! Rotation of a file held in memory: the search driven by reads of a
//! byte buffer, and the write of the new matrix into it.

use vstd::prelude::*;

use crate::error::RotateError;
use crate::matrix::{lemma_rotation_matrix_len, rotation_matrix, spec_rotation_matrix, valid_rotation};
use crate::search::{plan_result_view, Plan, Search};
use crate::rewrite::{spec_rotated, spec_write};
use crate::walk::{lemma_plan_matches_file, plan_matches_file, spec_plan, spec_read, valid_file};

verus! {

/// The bytes of `file` that reading at most `len` bytes at `pos` gives.
pub fn read_slice(file: &[u8], pos: u64, len: u64) -> (r: Vec<u8>)
    ensures
        r@ == spec_read(file@, pos as int, len as int),
{
    let mut r: Vec<u8> = Vec::new();
    if pos as u128 >= file.len() as u128 {
        return r;
    }
    let start = pos as usize;
    let end: usize = if pos as u128 + len as u128 <= file.len() as u128 {
        (pos + len) as usize
    } else {
        file.len()
    };
    let mut i = start;
    while i < end
        invariant
            start <= i <= end <= file.len(),
            r@ == file@.subrange(start as int, i as int),
        decreases end - i,
    {
        r.push(file[i]);
        i += 1;
        assert(r@ =~= file@.subrange(start as int, i as int));
    }
    r
}

/// Searches `file`, held in memory, for the matrix of its video track: the
/// result is `spec_plan` of the file.
pub fn plan_rotation(file: &[u8], rotation: Option<u32>) -> (r: Result<Plan, RotateError>)
    ensures
        plan_result_view(r) == spec_plan(file@, rotation),
{
    let n = file.len();
    assert(n as int <= u64::MAX);
    assert(valid_file(file@));
    let mut search = Search::new(file.len() as u64, rotation);
    loop
        invariant
            valid_file(file@),
            search.wf(),
            search.ready(),
            search.outcome(file@) == spec_plan(file@, rotation),
        ensures
            search.wf(),
            search.is_finished(),
            search.outcome(file@) == spec_plan(file@, rotation),
        decreases search.measure().0, search.measure().1, search.measure().2, search.measure().3,
    {
        match search.next_read() {
            None => break,
            Some((pos, len)) => {
                let bytes = read_slice(file, pos, len);
                let ghost before = search;
                assert(spec_read(file@, before.read_request().unwrap().0, before.read_request().unwrap().1)
                    == bytes@);
                search.feed(bytes.as_slice());
                assert(search.outcome(file@) == before.outcome(file@));
            },
        }
    }
    let r = search.finish();
    assert(search.outcome(file@) == plan_result_view(r));
    r
}

/// Rotates `file`, held in memory: finds the matrix of its video track and
/// writes over it the matrix of the rotation asked for (a quarter turn
/// further clockwise when none is), unless it is already that one. A
/// rotation of 360 degrees or more names no matrix, so it is taken only for
/// a file whose search fails.
pub fn rotate_buffer(file: &mut Vec<u8>, rotation: Option<u32>) -> (r: Result<Plan, RotateError>)
    requires
        valid_rotation(rotation) || spec_plan(old(file)@, rotation) is Err,
    ensures
        plan_result_view(r) == spec_plan(old(file)@, rotation),
        final(file)@ == spec_rotated(old(file)@, rotation),
{
    let plan = match plan_rotation(file.as_slice(), rotation) {
        Ok(p) => p,
        Err(e) => {
            return Err(e);
        },
    };
    proof {
        lemma_plan_matches_file(file@, rotation);
        assert(spec_plan(file@, rotation) == Ok::<_, RotateError>(plan@));
        assert(plan_matches_file(plan@, file@, rotation));
    }
    if plan.next != plan.current {
        let m = rotation_matrix(plan.next);
        proof {
            lemma_rotation_matrix_len(plan.next as int);
        }
        let n = file.len();
        assert(plan.matrix_pos + 36 <= n);
        let pos = plan.matrix_pos as usize;
        let ghost old_file = file@;
        let mut j: usize = 0;
        while j < 36
            invariant
                j <= 36,
                m@ == spec_rotation_matrix(plan.next as int),
                m@.len() == 36,
                pos + 36 <= n,
                n == old_file.len(),
                file@.len() == old_file.len(),
                forall|i: int| 0 <= i < pos ==> file@[i] == old_file[i],
                forall|i: int| pos + 36 <= i < old_file.len() ==> file@[i] == old_file[i],
                forall|i: int| pos <= i < pos + j ==> file@[i] == m@[i - pos],
                forall|i: int| pos + j <= i < pos + 36 ==> file@[i] == old_file[i],
            decreases 36 - j,
        {
            file.set(pos + j, m[j]);
            j += 1;
        }
        assert(file@ =~= spec_write(old_file, pos as int, m@));
    }
    Ok(plan)
}

} // verus!
