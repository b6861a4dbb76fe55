//! What rotating a file changes in it, and what the search finds in the
//! rotated file: the rotation asked for.

use vstd::prelude::*;
use vstd::utf8::valid_utf8;

use crate::atom::{be_u32, be_u64, of_type, spec_find_atom, Atom, FTYP, HDLR, MDAT, MDIA, MOOV, TRAK, VIDE};
use crate::matrix::{
    lemma_matrix_index_round_trip, lemma_rotation_matrix_len, lemma_shared_matrix_byte, matrix_byte_varies,
    spec_next_index, spec_rotation_matrix, valid_rotation,
};
use crate::walk::{
    lemma_plan_matches_file, lemma_spec_plan_unfold, list_atoms, list_children, list_from_extended,
    list_from_size, locate, scan_traks, spec_plan, spec_read, trak_handler, TrackInfo,
};

verus! {

/// `file` with `bytes` written over it from offset `pos`.
pub open spec fn spec_write(file: Seq<u8>, pos: int, bytes: Seq<u8>) -> Seq<u8> {
    file.subrange(0, pos) + bytes + file.subrange(pos + bytes.len(), file.len() as int)
}

/// What rotating `file` for `rotation` leaves in it: the file with the new
/// matrix written over the old one when they differ, the file unchanged
/// when they are the same or when the search fails.
pub open spec fn spec_rotated(file: Seq<u8>, rotation: Option<u32>) -> Seq<u8> {
    match spec_plan(file, rotation) {
        Ok(p) => if p.next != p.current {
            spec_write(file, p.matrix_pos, spec_rotation_matrix(p.next))
        } else {
            file
        },
        Err(_) => file,
    }
}

/// The offsets, in a file whose matrix starts at `pos`, of the matrix bytes
/// that are not the same in all four rotation matrices.
pub open spec fn varying_bytes(pos: int) -> Set<int> {
    Set::new(|i: int| matrix_byte_varies(i - pos))
}

/// Reading `len` bytes at `pos` touches no offset in `d`.
pub open spec fn read_misses(pos: int, len: int, d: Set<int>) -> bool {
    forall|i: int| pos <= i < pos + len ==> !#[trigger] d.contains(i)
}

/// `f` and `g` hold the same bytes but at the offsets in `d`.
pub open spec fn agree_outside(f: Seq<u8>, g: Seq<u8>, d: Set<int>) -> bool {
    &&& f.len() == g.len()
    &&& forall|i: int| 0 <= i < f.len() && !d.contains(i) ==> #[trigger] f[i] == g[i]
}

proof fn lemma_read_agrees(f: Seq<u8>, g: Seq<u8>, d: Set<int>, pos: int, len: int)
    requires
        agree_outside(f, g, d),
        read_misses(pos, len, d),
        len >= 0,
    ensures
        spec_read(f, pos, len) == spec_read(g, pos, len),
{
    if 0 <= pos < f.len() {
        let e = if pos + len <= f.len() { pos + len } else { f.len() as int };
        assert(f.subrange(pos, e) =~= g.subrange(pos, e)) by {
            assert forall|i: int| 0 <= i < e - pos implies f.subrange(pos, e)[i] == g.subrange(pos, e)[i] by {
                assert(!d.contains(pos + i));
                assert(f[pos + i] == g[pos + i]);
            }
        }
    }
}

/// The reads that `list_atoms` makes from `pos` to `end` touch no offset in
/// `d`.
pub open spec fn list_misses(file: Seq<u8>, pos: int, end: int, d: Set<int>) -> bool
    decreases end - pos, 2int,
{
    if pos >= end {
        true
    } else {
        read_misses(pos, 8, d) && {
            let h = spec_read(file, pos, 8);
            if h.len() < 8 || !valid_utf8(h.subrange(4, 8)) {
                true
            } else if be_u32(h.subrange(4, 8)) == MDAT && be_u32(h) == 1 {
                extended_misses(file, pos, MDAT, end, d)
            } else {
                size_misses(file, pos, be_u32(h), end, d)
            }
        }
    }
}

/// The reads that `list_from_extended` makes touch no offset in `d`.
pub open spec fn extended_misses(file: Seq<u8>, start: int, t: u32, end: int, d: Set<int>) -> bool
    decreases end - start, 1int,
{
    read_misses(start + 8, 8, d) && {
        let e = spec_read(file, start + 8, 8);
        e.len() < 8 || size_misses(file, start, be_u64(e), end, d)
    }
}

/// The reads that `list_from_size` makes touch no offset in `d`.
pub open spec fn size_misses(file: Seq<u8>, start: int, size: int, end: int, d: Set<int>) -> bool
    decreases end - start, 0int,
{
    size < 8 || start + size >= end || list_misses(file, start + size, end, d)
}

proof fn lemma_list_frame(f: Seq<u8>, g: Seq<u8>, pos: int, end: int, d: Set<int>)
    requires
        agree_outside(f, g, d),
        list_misses(f, pos, end, d),
    ensures
        list_atoms(f, pos, end) == list_atoms(g, pos, end),
        list_misses(g, pos, end, d),
    decreases end - pos, 2int,
{
    if pos < end {
        lemma_read_agrees(f, g, d, pos, 8);
        let h = spec_read(f, pos, 8);
        if h.len() >= 8 && valid_utf8(h.subrange(4, 8)) {
            if be_u32(h.subrange(4, 8)) == MDAT && be_u32(h) == 1 {
                lemma_extended_frame(f, g, pos, MDAT, end, d);
            } else {
                lemma_size_frame(f, g, pos, be_u32(h), be_u32(h.subrange(4, 8)) as u32, end, d);
            }
        }
    }
}

proof fn lemma_extended_frame(f: Seq<u8>, g: Seq<u8>, start: int, t: u32, end: int, d: Set<int>)
    requires
        agree_outside(f, g, d),
        extended_misses(f, start, t, end, d),
    ensures
        list_from_extended(f, start, t, end) == list_from_extended(g, start, t, end),
        extended_misses(g, start, t, end, d),
    decreases end - start, 1int,
{
    lemma_read_agrees(f, g, d, start + 8, 8);
    let e = spec_read(f, start + 8, 8);
    if e.len() >= 8 {
        lemma_size_frame(f, g, start, be_u64(e), t, end, d);
    }
}

proof fn lemma_size_frame(f: Seq<u8>, g: Seq<u8>, start: int, size: int, t: u32, end: int, d: Set<int>)
    requires
        agree_outside(f, g, d),
        size_misses(f, start, size, end, d),
    ensures
        list_from_size(f, start, size, t, end) == list_from_size(g, start, size, t, end),
        size_misses(g, start, size, end, d),
    decreases end - start, 0int,
{
    if size >= 8 && start + size < end {
        lemma_list_frame(f, g, start + size, end, d);
    }
}

/// The reads that listing the boxes inside `a` makes touch no offset in
/// `d`.
pub open spec fn children_misses(file: Seq<u8>, a: Atom, d: Set<int>) -> bool {
    list_misses(file, a.start + 8, a.start + a.size, d)
}

/// The reads that finding the handler subtype of the track in `trak` makes
/// touch no offset in `d`.
pub open spec fn handler_misses(file: Seq<u8>, trak: Atom, d: Set<int>) -> bool {
    children_misses(file, trak, d) && match list_children(file, trak) {
        Ok(children) => match spec_find_atom(children, MDIA) {
            Ok(mdia) => children_misses(file, mdia, d) && match list_children(file, mdia) {
                Ok(inner) => match spec_find_atom(inner, HDLR) {
                    Ok(hdlr) => read_misses(hdlr.start + 16, 4, d),
                    Err(_) => true,
                },
                Err(_) => true,
            },
            Err(_) => true,
        },
        Err(_) => true,
    }
}

proof fn lemma_children_frame(f: Seq<u8>, g: Seq<u8>, a: Atom, d: Set<int>)
    requires
        agree_outside(f, g, d),
        children_misses(f, a, d),
    ensures
        list_children(f, a) == list_children(g, a),
        children_misses(g, a, d),
{
    lemma_list_frame(f, g, a.start + 8, a.start + a.size, d);
}

proof fn lemma_handler_frame(f: Seq<u8>, g: Seq<u8>, trak: Atom, d: Set<int>)
    requires
        agree_outside(f, g, d),
        handler_misses(f, trak, d),
    ensures
        trak_handler(f, trak) == trak_handler(g, trak),
        handler_misses(g, trak, d),
{
    lemma_children_frame(f, g, trak, d);
    if let Ok(children) = list_children(f, trak) {
        if let Ok(mdia) = spec_find_atom(children, MDIA) {
            lemma_children_frame(f, g, mdia, d);
            if let Ok(inner) = list_children(f, mdia) {
                if let Ok(hdlr) = spec_find_atom(inner, HDLR) {
                    lemma_read_agrees(f, g, d, hdlr.start + 16, 4);
                }
            }
        }
    }
}

/// The reads that `scan_traks` makes from track `k` on touch no offset in
/// `d` (the matrix read left out).
pub open spec fn scan_misses(file: Seq<u8>, traks: Seq<Atom>, k: nat, video: Seq<Atom>, d: Set<int>) -> bool
    decreases traks.len() - k,
{
    if k >= traks.len() {
        video.len() != 1 || children_misses(file, video[0], d)
    } else {
        handler_misses(file, traks[k as int], d) && match trak_handler(file, traks[k as int]) {
            Ok(h) => scan_misses(
                file,
                traks,
                k + 1,
                if h == VIDE { video.push(traks[k as int]) } else { video },
                d,
            ),
            Err(_) => true,
        }
    }
}

proof fn lemma_scan_frame(
    f: Seq<u8>,
    g: Seq<u8>,
    traks: Seq<Atom>,
    k: nat,
    tracks: Seq<TrackInfo>,
    video: Seq<Atom>,
    moov_start: int,
    d: Set<int>,
)
    requires
        agree_outside(f, g, d),
        scan_misses(f, traks, k, video, d),
    ensures
        scan_traks(f, traks, k, tracks, video, moov_start) == scan_traks(g, traks, k, tracks, video, moov_start),
        scan_misses(g, traks, k, video, d),
    decreases traks.len() - k,
{
    if k >= traks.len() {
        if video.len() == 1 {
            lemma_children_frame(f, g, video[0], d);
        }
    } else {
        let trak = traks[k as int];
        lemma_handler_frame(f, g, trak, d);
        if let Ok(h) = trak_handler(f, trak) {
            lemma_scan_frame(
                f,
                g,
                traks,
                k + 1,
                tracks.push(TrackInfo { start: trak.start, handler: h }),
                if h == VIDE { video.push(trak) } else { video },
                moov_start,
                d,
            );
        }
    }
}

/// The reads that the search makes on `file` before it reads the matrix
/// touch no offset in `d`.
#[verifier::opaque]
pub open spec fn locate_misses(file: Seq<u8>, d: Set<int>) -> bool {
    list_misses(file, 0, file.len() as int, d) && match list_atoms(file, 0, file.len() as int) {
        Ok(top) => if top.len() == 0 || top[0].atom_type != FTYP {
            true
        } else {
            match spec_find_atom(top, MOOV) {
                Ok(moov) => children_misses(file, moov, d) && match list_children(file, moov) {
                    Ok(children) => scan_misses(file, of_type(children, TRAK), 0, seq![], d),
                    Err(_) => true,
                },
                Err(_) => true,
            }
        },
        Err(_) => true,
    }
}

/// Where the search reads no offset in `d` before the matrix, files that
/// differ only there have their matrix at the same place.
pub proof fn lemma_locate_frame(f: Seq<u8>, g: Seq<u8>, d: Set<int>)
    requires
        agree_outside(f, g, d),
        locate_misses(f, d),
    ensures
        locate(f) == locate(g),
        locate_misses(g, d),
{
    reveal(locate);
    reveal(locate_misses);
    lemma_list_frame(f, g, 0, f.len() as int, d);
    if let Ok(top) = list_atoms(f, 0, f.len() as int) {
        if top.len() > 0 && top[0].atom_type == FTYP {
            if let Ok(moov) = spec_find_atom(top, MOOV) {
                lemma_children_frame(f, g, moov, d);
                if let Ok(children) = list_children(f, moov) {
                    lemma_scan_frame(f, g, of_type(children, TRAK), 0, seq![], seq![], moov.start as int, d);
                }
            }
        }
    }
}

/// Rotating a file and searching it again finds the rotation that was asked
/// for, with the matrix at the same place, reached through the same boxes,
/// wherever the search, before it reads the matrix, reads no matrix byte at
/// which the four rotation matrices differ. The search on the rotated file
/// still reads no such byte before the matrix.
pub proof fn lemma_rotation_reads_back(file: Seq<u8>, rotation: Option<u32>, later: Option<u32>)
    requires
        valid_rotation(rotation),
        spec_plan(file, rotation) is Ok,
        locate_misses(file, varying_bytes(spec_plan(file, rotation)->Ok_0.matrix_pos)),
    ensures
        ({
            let p = spec_plan(file, rotation)->Ok_0;
            let rotated = spec_rotated(file, rotation);
            &&& spec_plan(rotated, later) is Ok
            &&& spec_plan(rotated, later)->Ok_0.current == p.next
            &&& spec_plan(rotated, later)->Ok_0.matrix_pos == p.matrix_pos
            &&& spec_plan(rotated, later)->Ok_0.tkhd_start == p.tkhd_start
            &&& spec_plan(rotated, later)->Ok_0.video_start == p.video_start
            &&& spec_plan(rotated, later)->Ok_0.moov_start == p.moov_start
            &&& spec_plan(rotated, later)->Ok_0.tracks == p.tracks
            &&& locate_misses(rotated, varying_bytes(p.matrix_pos))
        }),
{
    lemma_spec_plan_unfold(file, rotation);
    lemma_plan_matches_file(file, rotation);
    let p = spec_plan(file, rotation)->Ok_0;
    let loc = locate(file)->Ok_0;
    let lo = p.matrix_pos;
    let hi = p.matrix_pos + 36;
    if p.next == p.current {
        lemma_spec_plan_unfold(file, later);
        lemma_matrix_index_round_trip(p.current);
        assert(spec_read(file, lo, 36) =~= file.subrange(lo, hi));
    } else {
        let m = spec_rotation_matrix(p.next);
        lemma_rotation_matrix_len(p.next);
        let g = spec_write(file, lo, m);
        let d = varying_bytes(lo);
        let cur = spec_rotation_matrix(p.current);
        assert(g.len() == file.len());
        assert forall|i: int| 0 <= i < file.len() && !d.contains(i) implies #[trigger] file[i] == g[i] by {
            if i < lo {
                assert(g[i] == file.subrange(0, lo)[i]);
            } else if i >= hi {
                assert(g[i] == file.subrange(hi, file.len() as int)[i - hi]);
            } else {
                assert(!matrix_byte_varies(i - lo));
                assert(g[i] == m[i - lo]);
                assert(file[i] == file.subrange(lo, hi)[i - lo]);
                assert(file[i] == cur[i - lo]);
                lemma_shared_matrix_byte(p.current, p.next, i - lo);
            }
        }
        lemma_locate_frame(file, g, d);
        lemma_spec_plan_unfold(g, later);
        assert(spec_read(g, lo, 36) =~= m);
        lemma_matrix_index_round_trip(p.next);
    }
}

/// `f` written at `pos` with `a`, then with `b` of the same length, is `f`
/// written with `b`; and writing back what stands there changes nothing.
pub proof fn lemma_write_over(f: Seq<u8>, pos: int, a: Seq<u8>, b: Seq<u8>)
    requires
        0 <= pos,
        pos + a.len() <= f.len(),
        a.len() == b.len(),
    ensures
        spec_write(spec_write(f, pos, a), pos, b) == spec_write(f, pos, b),
        spec_write(f, pos, f.subrange(pos, pos + a.len())) == f,
{
    assert(spec_write(spec_write(f, pos, a), pos, b) =~= spec_write(f, pos, b));
    assert(spec_write(f, pos, f.subrange(pos, pos + a.len())) =~= f);
}

/// `n` runs for `rotation`, each on the file that the one before left,
/// each find a rotation matrix, and all find it at offset `pos`.
pub open spec fn runs_find_matrix_at(file: Seq<u8>, rotation: Option<u32>, n: nat, pos: int) -> bool
    decreases n,
{
    n == 0 || (spec_plan(file, rotation) matches Ok(p) && p.matrix_pos == pos && runs_find_matrix_at(
        spec_rotated(file, rotation),
        rotation,
        (n - 1) as nat,
        pos,
    ))
}

/// A run that finds the matrix writes the matrix it is to write over it,
/// also when that is the one already there.
proof fn lemma_run_writes_next(file: Seq<u8>, rotation: Option<u32>)
    requires
        valid_rotation(rotation),
        spec_plan(file, rotation) is Ok,
    ensures
        ({
            let p = spec_plan(file, rotation)->Ok_0;
            &&& 0 <= p.current < 4
            &&& 0 <= p.next < 4
            &&& p.next == spec_next_index(p.current, rotation)
            &&& 0 <= p.matrix_pos
            &&& p.matrix_pos + 36 <= file.len()
            &&& file.subrange(p.matrix_pos, p.matrix_pos + 36) == spec_rotation_matrix(p.current)
            &&& spec_rotated(file, rotation) == spec_write(file, p.matrix_pos, spec_rotation_matrix(p.next))
        }),
{
    lemma_plan_matches_file(file, rotation);
    let p = spec_plan(file, rotation)->Ok_0;
    lemma_rotation_matrix_len(p.current);
    if p.next == p.current {
        lemma_write_over(file, p.matrix_pos, spec_rotation_matrix(p.current), spec_rotation_matrix(p.current));
    }
}

/// A run on `f` with rotation matrix `index` written at `pos` finds, where
/// it finds its matrix at `pos`, that matrix.
proof fn lemma_run_after_write(f: Seq<u8>, pos: int, index: int, rotation: Option<u32>)
    requires
        0 <= index < 4,
        0 <= pos,
        pos + 36 <= f.len(),
        spec_plan(spec_write(f, pos, spec_rotation_matrix(index)), rotation) matches Ok(q) && q.matrix_pos == pos,
    ensures
        spec_plan(spec_write(f, pos, spec_rotation_matrix(index)), rotation)->Ok_0.current == index,
{
    let g = spec_write(f, pos, spec_rotation_matrix(index));
    lemma_rotation_matrix_len(index);
    lemma_plan_matches_file(g, rotation);
    let q = spec_plan(g, rotation)->Ok_0;
    assert(g.subrange(pos, pos + 36) =~= spec_rotation_matrix(index));
    lemma_matrix_index_round_trip(index);
    lemma_matrix_index_round_trip(q.current);
}

/// Asking twice for the same rotation: the second run finds the matrix
/// already as asked and leaves the file as the first run left it, wherever
/// both runs find the matrix at the same place.
pub proof fn lemma_forced_rotation_idempotent(file: Seq<u8>, degrees: u32, pos: int)
    requires
        degrees < 360,
        runs_find_matrix_at(file, Some(degrees), 2, pos),
    ensures
        spec_rotated(spec_rotated(file, Some(degrees)), Some(degrees)) == spec_rotated(file, Some(degrees)),
{
    let r = Some(degrees);
    let p = spec_plan(file, r)->Ok_0;
    let g = spec_rotated(file, r);
    lemma_run_writes_next(file, r);
    assert(p.matrix_pos == pos);
    assert(runs_find_matrix_at(g, r, 1, pos));
    assert(g == spec_write(file, pos, spec_rotation_matrix(p.next)));
    lemma_run_after_write(file, pos, p.next, r);
    lemma_run_writes_next(g, r);
    let q = spec_plan(g, r)->Ok_0;
    assert(q.current == p.next);
    assert(q.next == q.current);
}

/// Without a rotation asked for, four runs turn the video full circle and
/// give back the file as it was, wherever all four find the matrix at the
/// same place.
pub proof fn lemma_four_quarter_turns(file: Seq<u8>, pos: int)
    requires
        runs_find_matrix_at(file, None, 4, pos),
    ensures
        spec_rotated(spec_rotated(spec_rotated(spec_rotated(file, None), None), None), None) == file,
{
    let f1 = spec_rotated(file, None);
    let f2 = spec_rotated(f1, None);
    let f3 = spec_rotated(f2, None);
    assert(runs_find_matrix_at(f1, None, 3, pos));
    assert(runs_find_matrix_at(f2, None, 2, pos));
    assert(runs_find_matrix_at(f3, None, 1, pos));
    let c = spec_plan(file, None)->Ok_0.current;
    lemma_run_writes_next(file, None);
    assert(f1 == spec_write(file, pos, spec_rotation_matrix((c + 1) % 4)));
    lemma_run_after_write(file, pos, (c + 1) % 4, None);
    lemma_run_writes_next(f1, None);
    assert(f2 == spec_write(f1, pos, spec_rotation_matrix((c + 2) % 4)));
    lemma_run_after_write(f1, pos, (c + 2) % 4, None);
    lemma_run_writes_next(f2, None);
    assert(f3 == spec_write(f2, pos, spec_rotation_matrix((c + 3) % 4)));
    lemma_run_after_write(f2, pos, (c + 3) % 4, None);
    lemma_run_writes_next(f3, None);
    assert(spec_rotated(f3, None) == spec_write(f3, pos, spec_rotation_matrix(c)));
    let m0 = spec_rotation_matrix(c);
    let m1 = spec_rotation_matrix((c + 1) % 4);
    let m2 = spec_rotation_matrix((c + 2) % 4);
    let m3 = spec_rotation_matrix((c + 3) % 4);
    lemma_rotation_matrix_len(c);
    lemma_rotation_matrix_len((c + 1) % 4);
    lemma_rotation_matrix_len((c + 2) % 4);
    lemma_rotation_matrix_len((c + 3) % 4);
    assert(spec_plan(f3, None)->Ok_0.next == c);
    lemma_write_over(file, pos, m1, m2);
    lemma_write_over(file, pos, m2, m3);
    lemma_write_over(file, pos, m3, m0);
    lemma_write_over(file, pos, m0, m0);
}

/// Where the search of a file, before it reads the matrix, reads no matrix
/// byte at which the four rotation matrices differ, every later run for any
/// rotation finds the matrix at the same place: `n` runs do.
pub proof fn lemma_runs_stay_when_reads_miss(file: Seq<u8>, rotation: Option<u32>, n: nat)
    requires
        valid_rotation(rotation),
        spec_plan(file, rotation) is Ok,
        locate_misses(file, varying_bytes(spec_plan(file, rotation)->Ok_0.matrix_pos)),
    ensures
        runs_find_matrix_at(file, rotation, n, spec_plan(file, rotation)->Ok_0.matrix_pos),
    decreases n,
{
    if n > 0 {
        let g = spec_rotated(file, rotation);
        lemma_rotation_reads_back(file, rotation, rotation);
        lemma_runs_stay_when_reads_miss(g, rotation, (n - 1) as nat);
    }
}

} // verus!
