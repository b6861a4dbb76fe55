//! What a file yields when its boxes are walked down to the matrix of the
//! video track: the specification that the search of `search.rs` meets.

use vstd::prelude::*;
use vstd::utf8::valid_utf8;

use crate::atom::{be_u32, be_u64, of_type, spec_find_atom, Atom, FTYP, HDLR, MDAT, MDIA, MOOV, TKHD, TRAK, VIDE};
use crate::error::RotateError;
use crate::matrix::{spec_matrix_index, spec_next_index, spec_rotation_matrix, valid_rotation};

verus! {

/// The bytes that reading at most `len` bytes at offset `pos` of `file`
/// gives: fewer near the end of the file, none past it.
pub open spec fn spec_read(file: Seq<u8>, pos: int, len: int) -> Seq<u8> {
    if pos < 0 || pos >= file.len() {
        seq![]
    } else if pos + len <= file.len() {
        file.subrange(pos, pos + len)
    } else {
        file.subrange(pos, file.len() as int)
    }
}

/// A file whose offsets fit in 64 bits.
pub open spec fn valid_file(file: Seq<u8>) -> bool {
    file.len() <= u64::MAX
}

/// The boxes that follow one another from offset `pos` until offset `end`:
/// each starts with an 8-byte header, a big-endian 32-bit size (header
/// included) and a four-byte type; an `mdat` box of size 1 takes its size
/// from the 64 bits after the header. The last box may reach past `end`.
pub open spec fn list_atoms(file: Seq<u8>, pos: int, end: int) -> Result<Seq<Atom>, RotateError>
    decreases end - pos, 2int,
{
    if pos >= end {
        Ok(seq![])
    } else {
        let h = spec_read(file, pos, 8);
        if h.len() < 8 {
            Err(RotateError::UnexpectedEof)
        } else {
            let t = be_u32(h.subrange(4, 8));
            if !valid_utf8(h.subrange(4, 8)) {
                Err(RotateError::InvalidAtomType(t as u32))
            } else if t == MDAT && be_u32(h) == 1 {
                list_from_extended(file, pos, t as u32, end)
            } else {
                list_from_size(file, pos, be_u32(h), t as u32, end)
            }
        }
    }
}

/// `list_atoms` once the header of an `mdat` box at `start` has announced a
/// 64-bit size, which is read next.
pub open spec fn list_from_extended(file: Seq<u8>, start: int, t: u32, end: int) -> Result<
    Seq<Atom>,
    RotateError,
>
    decreases end - start, 1int,
{
    let e = spec_read(file, start + 8, 8);
    if e.len() < 8 {
        Err(RotateError::UnexpectedEof)
    } else {
        list_from_size(file, start, be_u64(e), t, end)
    }
}

/// `list_atoms` once the box at `start` is known to take `size` bytes.
pub open spec fn list_from_size(file: Seq<u8>, start: int, size: int, t: u32, end: int) -> Result<
    Seq<Atom>,
    RotateError,
>
    decreases end - start, 0int,
{
    if size < 8 {
        Err(RotateError::InvalidBoxSize(size as u64))
    } else {
        let a = Atom { start: start as u64, size: size as u64, atom_type: t };
        if start + size >= end {
            Ok(seq![a])
        } else {
            match list_atoms(file, start + size, end) {
                Ok(rest) => Ok(seq![a] + rest),
                Err(e) => Err(e),
            }
        }
    }
}

/// The boxes directly inside box `a`.
pub open spec fn list_children(file: Seq<u8>, a: Atom) -> Result<Seq<Atom>, RotateError> {
    list_atoms(file, a.start + 8, a.start + a.size)
}

/// The four bytes at `pos`, read as a big-endian number, or `PrematureEof`
/// when the file ends before them.
pub open spec fn handler_type_at(file: Seq<u8>, pos: int) -> Result<u32, RotateError> {
    let b = spec_read(file, pos, 4);
    if b.len() < 4 {
        Err(RotateError::PrematureEof)
    } else {
        Ok(be_u32(b) as u32)
    }
}

/// A track as the search saw it: where its `trak` box starts and the subtype
/// of its handler.
#[derive(Debug, Clone, Copy, PartialEq, Eq)]
pub struct TrackInfo {
    pub start: u64,
    pub handler: u32,
}

/// Where the search finds the matrix: the boxes it went through on the way.
pub ghost struct Location {
    pub moov_start: int,
    pub tracks: Seq<TrackInfo>,
    pub video_start: int,
    pub tkhd_start: int,
}

/// What the search finds: the boxes it went through and the matrix of the
/// one video track, with the index of the matrix that is to replace it.
pub ghost struct SpecPlan {
    pub moov_start: int,
    pub tracks: Seq<TrackInfo>,
    pub video_start: int,
    pub tkhd_start: int,
    pub matrix_pos: int,
    pub current: int,
    pub next: int,
}

/// Where the matrix of the video track of `file` is: the top-level boxes
/// must start with `ftyp` and hold one `moov`, whose `trak` boxes each lead
/// through one `mdia` to one `hdlr` naming the track's kind; exactly one
/// track must be a video track, with one `tkhd` box.
#[verifier::opaque]
pub open spec fn locate(file: Seq<u8>) -> Result<Location, RotateError> {
    after_top(list_atoms(file, 0, file.len() as int), file)
}

/// The result of the whole search on `file` for `rotation`: the 36 bytes
/// 48 bytes into the `tkhd` box of the video track, which must be one of the
/// four rotation matrices, and the one that is to replace them.
#[verifier::opaque]
pub open spec fn spec_plan(file: Seq<u8>, rotation: Option<u32>) -> Result<SpecPlan, RotateError> {
    finish_plan(locate(file), file, rotation)
}

/// `spec_plan` is the matrix read where `locate` finds it.
pub proof fn lemma_spec_plan_unfold(file: Seq<u8>, rotation: Option<u32>)
    ensures
        spec_plan(file, rotation) == finish_plan(locate(file), file, rotation),
{
    reveal(spec_plan);
}

/// The search once the matrix is located (or not).
pub open spec fn finish_plan(r: Result<Location, RotateError>, file: Seq<u8>, rotation: Option<u32>) -> Result<SpecPlan, RotateError> {
    match r {
        Err(e) => Err(e),
        Ok(loc) => plan_at(loc, spec_read(file, loc.tkhd_start + 48, 36), rotation),
    }
}

/// The search once the matrix bytes `m` are read at `loc`.
pub open spec fn plan_at(loc: Location, m: Seq<u8>, rotation: Option<u32>) -> Result<SpecPlan, RotateError> {
    if m.len() < 36 {
        Err(RotateError::PrematureEof)
    } else {
        match spec_matrix_index(m) {
            None => Err(RotateError::UnknownMatrix),
            Some(i) => Ok(
                SpecPlan {
                    moov_start: loc.moov_start,
                    tracks: loc.tracks,
                    video_start: loc.video_start,
                    tkhd_start: loc.tkhd_start,
                    matrix_pos: loc.tkhd_start + 48,
                    current: i,
                    next: spec_next_index(i, rotation),
                },
            ),
        }
    }
}

/// The location once the top-level boxes are listed.
pub open spec fn after_top(r: Result<Seq<Atom>, RotateError>, file: Seq<u8>) -> Result<Location, RotateError> {
    match r {
        Err(e) => Err(e),
        Ok(top) => if top.len() == 0 || top[0].atom_type != FTYP {
            Err(RotateError::FtypNotFound)
        } else {
            match spec_find_atom(top, MOOV) {
                Err(e) => Err(e),
                Ok(moov) => after_moov(list_children(file, moov), file, moov.start as int),
            }
        },
    }
}

/// The location once the boxes inside `moov` are listed.
pub open spec fn after_moov(r: Result<Seq<Atom>, RotateError>, file: Seq<u8>, moov_start: int) -> Result<Location, RotateError> {
    match r {
        Err(e) => Err(e),
        Ok(children) => scan_traks(file, of_type(children, TRAK), 0, seq![], seq![], moov_start),
    }
}

/// The handler subtype of the track in box `trak`.
pub open spec fn trak_handler(file: Seq<u8>, trak: Atom) -> Result<u32, RotateError> {
    after_trak_children(list_children(file, trak), file)
}

/// The handler subtype once the boxes inside a `trak` are listed.
pub open spec fn after_trak_children(r: Result<Seq<Atom>, RotateError>, file: Seq<u8>) -> Result<u32, RotateError> {
    match r {
        Err(e) => Err(e),
        Ok(children) => match spec_find_atom(children, MDIA) {
            Err(e) => Err(e),
            Ok(mdia) => after_mdia_children(list_children(file, mdia), file),
        },
    }
}

/// The handler subtype once the boxes inside an `mdia` are listed: the four
/// bytes 16 bytes into its `hdlr` box.
pub open spec fn after_mdia_children(r: Result<Seq<Atom>, RotateError>, file: Seq<u8>) -> Result<u32, RotateError> {
    match r {
        Err(e) => Err(e),
        Ok(children) => match spec_find_atom(children, HDLR) {
            Err(e) => Err(e),
            Ok(hdlr) => handler_type_at(file, hdlr.start + 16),
        },
    }
}

/// The location, looking at the tracks `traks[k..]`, having seen `tracks`
/// and found the video tracks `video` before them.
pub open spec fn scan_traks(
    file: Seq<u8>,
    traks: Seq<Atom>,
    k: nat,
    tracks: Seq<TrackInfo>,
    video: Seq<Atom>,
    moov_start: int,
) -> Result<Location, RotateError>
    decreases traks.len() - k, 1int,
{
    if k >= traks.len() {
        after_traks(file, tracks, video, moov_start)
    } else {
        after_handler(trak_handler(file, traks[k as int]), file, traks, k, tracks, video, moov_start)
    }
}

/// The location once the handler subtype of track `traks[k]` is known.
pub open spec fn after_handler(
    h: Result<u32, RotateError>,
    file: Seq<u8>,
    traks: Seq<Atom>,
    k: nat,
    tracks: Seq<TrackInfo>,
    video: Seq<Atom>,
    moov_start: int,
) -> Result<Location, RotateError>
    decreases traks.len() - k, 0int,
{
    match h {
        Err(e) => Err(e),
        Ok(t) => if k < traks.len() {
            let trak = traks[k as int];
            scan_traks(
                file,
                traks,
                k + 1,
                tracks.push(TrackInfo { start: trak.start, handler: t }),
                if t == VIDE { video.push(trak) } else { video },
                moov_start,
            )
        } else {
            Err(RotateError::NoVideoTrack)
        },
    }
}

/// The location once every track has been looked at.
pub open spec fn after_traks(
    file: Seq<u8>,
    tracks: Seq<TrackInfo>,
    video: Seq<Atom>,
    moov_start: int,
) -> Result<Location, RotateError> {
    if video.len() == 0 {
        Err(RotateError::NoVideoTrack)
    } else if video.len() > 1 {
        Err(RotateError::MultipleVideoTracks)
    } else {
        after_video_children(list_children(file, video[0]), tracks, video[0].start as int, moov_start)
    }
}

/// The location once the boxes inside the video `trak` are listed.
pub open spec fn after_video_children(
    r: Result<Seq<Atom>, RotateError>,
    tracks: Seq<TrackInfo>,
    video_start: int,
    moov_start: int,
) -> Result<Location, RotateError> {
    match r {
        Err(e) => Err(e),
        Ok(children) => match spec_find_atom(children, TKHD) {
            Err(e) => Err(e),
            Ok(tkhd) => Ok(Location { moov_start, tracks, video_start, tkhd_start: tkhd.start as int }),
        },
    }
}

/// One step of `scan_traks`.
pub proof fn lemma_scan_traks_unfold(
    file: Seq<u8>,
    traks: Seq<Atom>,
    k: nat,
    tracks: Seq<TrackInfo>,
    video: Seq<Atom>,
    moov_start: int,
)
    ensures
        scan_traks(file, traks, k, tracks, video, moov_start) == if k >= traks.len() {
            after_traks(file, tracks, video, moov_start)
        } else {
            after_handler(trak_handler(file, traks[k as int]), file, traks, k, tracks, video, moov_start)
        },
{
}

/// `after_handler` once the handler subtype of track `traks[k]` is known.
pub proof fn lemma_after_handler_ok(
    h: u32,
    file: Seq<u8>,
    traks: Seq<Atom>,
    k: nat,
    tracks: Seq<TrackInfo>,
    video: Seq<Atom>,
    moov_start: int,
)
    requires
        k < traks.len(),
    ensures
        after_handler(Ok(h), file, traks, k, tracks, video, moov_start) == scan_traks(
            file,
            traks,
            k + 1,
            tracks.push(TrackInfo { start: traks[k as int].start, handler: h }),
            if h == VIDE { video.push(traks[k as int]) } else { video },
            moov_start,
        ),
{
}

/// A plan found on `file` for `rotation`: the matrix it names lies in the
/// file, is the rotation matrix of index `current`, and is to be replaced by
/// the one asked for.
pub open spec fn plan_matches_file(p: SpecPlan, file: Seq<u8>, rotation: Option<u32>) -> bool {
    &&& 0 <= p.current < 4
    &&& p.next == spec_next_index(p.current, rotation)
    &&& p.matrix_pos == p.tkhd_start + 48
    &&& 0 <= p.matrix_pos
    &&& p.matrix_pos + 36 <= file.len()
    &&& file.subrange(p.matrix_pos, p.matrix_pos + 36) == spec_rotation_matrix(p.current)
    &&& (valid_rotation(rotation) ==> 0 <= p.next < 4)
}

/// The plan that the search finds on a file holds of that file: the matrix
/// it names is there and is the rotation matrix it reports.
pub proof fn lemma_plan_matches_file(file: Seq<u8>, rotation: Option<u32>)
    ensures
        spec_plan(file, rotation) matches Ok(p) ==> plan_matches_file(p, file, rotation),
{
    reveal(spec_plan);
    if let Ok(loc) = locate(file) {
        let m = spec_read(file, loc.tkhd_start + 48, 36);
        if m.len() >= 36 {
            assert(m =~= file.subrange(loc.tkhd_start + 48, loc.tkhd_start + 48 + 36));
        }
    }
}

/// `atoms` follow one another from `pos`, each starting where the one
/// before ends, each with its 8-byte header inside `file`, each starting
/// before `end`, the last one reaching `end` or past it; there are none when
/// `pos` is at or past `end`.
pub open spec fn tiles(file: Seq<u8>, atoms: Seq<Atom>, pos: int, end: int) -> bool {
    &&& (atoms.len() == 0 <==> pos >= end)
    &&& (atoms.len() > 0 ==> atoms[0].start == pos)
    &&& forall|i: int|
        0 <= i < atoms.len() ==> #[trigger] atoms[i].size >= 8 && atoms[i].start < end
            && atoms[i].start + 8 <= file.len()
    &&& forall|i: int|
        0 <= i < atoms.len() - 1 ==> #[trigger] atoms[i + 1].start == atoms[i].start + atoms[i].size
    &&& (atoms.len() > 0 ==> atoms.last().start + atoms.last().size >= end)
}

proof fn lemma_tiles_prepend(file: Seq<u8>, a: Atom, rest: Seq<Atom>, end: int)
    requires
        a.size >= 8,
        a.start < end,
        a.start + 8 <= file.len(),
        a.start + a.size < end,
        tiles(file, rest, a.start + a.size, end),
    ensures
        tiles(file, seq![a] + rest, a.start as int, end),
{
    let all = seq![a] + rest;
    assert forall|i: int| 0 <= i < all.len() implies #[trigger] all[i].size >= 8 && all[i].start < end
        && all[i].start + 8 <= file.len() by {
        if i > 0 {
            assert(all[i] == rest[i - 1]);
        }
    }
    assert forall|i: int| 0 <= i < all.len() - 1 implies #[trigger] all[i + 1].start == all[i].start
        + all[i].size by {
        assert(all[i + 1] == rest[i]);
        if i > 0 {
            assert(all[i] == rest[i - 1]);
            assert(rest[(i - 1) + 1].start == rest[i - 1].start + rest[i - 1].size);
        } else {
            assert(rest.len() > 0);
            assert(all[0] == a);
        }
    }
    assert(all.last() == rest.last());
}

/// The boxes that `list_atoms` lists lie one after the other from `pos` to
/// `end`.
pub proof fn lemma_list_atoms_tiles(file: Seq<u8>, pos: int, end: int)
    requires
        valid_file(file),
        0 <= pos,
    ensures
        list_atoms(file, pos, end) matches Ok(atoms) ==> tiles(file, atoms, pos, end),
    decreases end - pos, 2int,
{
    if pos < end {
        let h = spec_read(file, pos, 8);
        if h.len() >= 8 && valid_utf8(h.subrange(4, 8)) {
            let t = be_u32(h.subrange(4, 8));
            if t == MDAT && be_u32(h) == 1 {
                lemma_extended_tiles(file, pos, t as u32, end);
            } else {
                lemma_size_tiles(file, pos, be_u32(h), t as u32, end);
            }
        }
    }
}

proof fn lemma_extended_tiles(file: Seq<u8>, start: int, t: u32, end: int)
    requires
        valid_file(file),
        0 <= start < end,
        start + 8 <= file.len(),
    ensures
        list_from_extended(file, start, t, end) matches Ok(atoms) ==> tiles(file, atoms, start, end),
    decreases end - start, 1int,
{
    let e = spec_read(file, start + 8, 8);
    if e.len() >= 8 {
        lemma_be_u64_bound(e);
        lemma_size_tiles(file, start, be_u64(e), t, end);
    }
}

proof fn lemma_size_tiles(file: Seq<u8>, start: int, size: int, t: u32, end: int)
    requires
        valid_file(file),
        0 <= start < end,
        start + 8 <= file.len(),
        0 <= size <= u64::MAX,
    ensures
        list_from_size(file, start, size, t, end) matches Ok(atoms) ==> tiles(file, atoms, start, end),
    decreases end - start, 0int,
{
    if size >= 8 {
        let a = Atom { start: start as u64, size: size as u64, atom_type: t };
        if start + size < end {
            lemma_list_atoms_tiles(file, start + size, end);
            if let Ok(rest) = list_atoms(file, start + size, end) {
                lemma_tiles_prepend(file, a, rest, end);
            }
        }
    }
}

proof fn lemma_be_u64_bound(b: Seq<u8>)
    requires
        b.len() >= 8,
    ensures
        0 <= be_u64(b) <= u64::MAX,
        0 <= be_u32(b) <= u32::MAX,
{
    assert(0 <= be_u32(b.subrange(4, 8)) <= u32::MAX);
}

} // verus!
