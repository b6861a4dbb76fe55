//! The search for the matrix of the video track, driven by reads: the
//! search asks for bytes at an offset, is handed what the file holds there,
//! and decides what to read next, until it has found the matrix or failed.

use vstd::prelude::*;
use vstd::utf8::valid_utf8;

use crate::atom::{
    atom_type_is_valid, atoms_of_type, be_u32, find_atom, read_be_u32, read_be_u64, Atom, FTYP,
    HDLR, MDAT, MDIA, MOOV, TKHD, TRAK, VIDE,
};
use crate::error::RotateError;
use crate::matrix::{next_rotation_index, rotation_matrix_index};
use crate::walk::{
    after_handler, after_mdia_children, after_moov, after_top, after_trak_children, after_traks,
    after_video_children, finish_plan, handler_type_at, locate, plan_at, Location, list_atoms, list_from_extended,
    list_from_size, lemma_after_handler_ok, lemma_scan_traks_unfold, scan_traks, spec_plan, spec_read, valid_file, SpecPlan, TrackInfo,
};

verus! {

/// The boxes between two offsets, read one header at a time.
struct Lister {
    pos: u128,
    end: u128,
    atoms: Vec<Atom>,
    /// The start and type of an `mdat` box whose 64-bit size is still to read.
    pending: Option<(u64, u32)>,
}

impl Lister {
    spec fn wf(&self) -> bool {
        &&& self.end <= 0x2_0000_0000_0000_0000
        &&& self.pos <= 0x4_0000_0000_0000_0000
        &&& (self.pending matches Some((s, _)) ==> s == self.pos && self.pos < self.end)
    }

    /// The offset and length of the next read, if the listing is not done.
    spec fn read_request(&self) -> Option<(int, int)> {
        match self.pending {
            Some((s, _)) => Some((s + 8, 8)),
            None => if self.pos < self.end {
                Some((self.pos as int, 8))
            } else {
                None
            },
        }
    }

    /// What the listing will give on `file`.
    spec fn result(&self, file: Seq<u8>) -> Result<Seq<Atom>, RotateError> {
        let rest = match self.pending {
            Some((s, t)) => list_from_extended(file, s as int, t, self.end as int),
            None => list_atoms(file, self.pos as int, self.end as int),
        };
        match rest {
            Ok(r) => Ok(self.atoms@ + r),
            Err(e) => Err(e),
        }
    }

    /// What is left to read: twice the bytes up to the end, one more when no
    /// 64-bit size is awaited.
    spec fn measure(&self) -> nat {
        if self.pos < self.end {
            (2 * (self.end - self.pos) + if self.pending is Some { 0int } else { 1int }) as nat
        } else {
            0
        }
    }

    fn new(pos: u128, end: u128) -> (l: Lister)
        requires
            end <= 0x2_0000_0000_0000_0000,
            pos <= 0x4_0000_0000_0000_0000,
        ensures
            l.wf(),
            l.pos == pos,
            l.end == end,
            l.atoms@ == Seq::<Atom>::empty(),
            l.pending is None,
    {
        Lister { pos, end, atoms: Vec::new(), pending: None }
    }

    fn next_read(&self) -> (r: Option<(u128, u64)>)
        requires
            self.wf(),
        ensures
            match self.read_request() {
                Some((p, n)) => r matches Some((q, m)) && q == p && m == n,
                None => r is None,
            },
    {
        match self.pending {
            Some((s, _)) => Some((s as u128 + 8, 8)),
            None => if self.pos < self.end {
                Some((self.pos, 8))
            } else {
                None
            },
        }
    }

    /// The listing once it is done.
    proof fn lemma_done(&self, file: Seq<u8>)
        requires
            self.wf(),
            self.read_request() is None,
        ensures
            self.result(file) == Ok::<Seq<Atom>, RotateError>(self.atoms@),
    {
        assert(self.atoms@ + Seq::<Atom>::empty() =~= self.atoms@);
    }

    /// Records the box at `start` of `size` bytes and moves past it.
    fn accept(&mut self, start: u64, size: u64, t: u32) -> (r: Result<(), RotateError>)
        requires
            old(self).wf(),
            old(self).pending is None,
            start == old(self).pos,
            old(self).pos < old(self).end,
        ensures
            forall|file: Seq<u8>| #[trigger]
                list_from_size(file, start as int, size as int, t, old(self).end as int) == (match r {
                    Ok(_) => match list_atoms(file, final(self).pos as int, final(self).end as int) {
                        Ok(rest) => Ok(seq![Atom { start, size, atom_type: t }] + rest),
                        Err(e) => Err(e),
                    },
                    Err(e) => Err(e),
                }),
            r is Ok ==> final(self).wf(),
            r is Ok ==> final(self).pending is None,
            r is Ok ==> final(self).end == old(self).end,
            r is Ok ==> final(self).atoms@ == old(self).atoms@.push(Atom { start, size, atom_type: t }),
            r is Ok ==> final(self).measure() < old(self).measure(),
    {
        if size < 8 {
            return Err(RotateError::InvalidBoxSize(size));
        }
        let a = Atom { start, size, atom_type: t };
        self.atoms.push(a);
        self.pos = start as u128 + size as u128;
        proof {
            assert forall|file: Seq<u8>| #[trigger]
                list_from_size(file, start as int, size as int, t, old(self).end as int) == (
                match list_atoms(file, self.pos as int, self.end as int) {
                    Ok(rest) => Ok(seq![a] + rest),
                    Err(e) => Err(e),
                }) by {
                if start + size >= self.end {
                    assert(seq![a] + Seq::<Atom>::empty() =~= seq![a]);
                }
            }
        }
        Ok(())
    }

    /// Takes in the bytes of the read asked for.
    fn feed(&mut self, bytes: &[u8]) -> (r: Result<(), RotateError>)
        requires
            old(self).wf(),
            old(self).read_request() is Some,
            old(self).read_request().unwrap().0 <= u64::MAX || bytes@.len() == 0,
        ensures
            r is Ok ==> final(self).wf(),
            r is Ok ==> final(self).end == old(self).end,
            r is Ok ==> final(self).measure() < old(self).measure(),
            forall|file: Seq<u8>|
                #![trigger old(self).result(file)]
                valid_file(file) && spec_read(
                    file,
                    old(self).read_request().unwrap().0,
                    old(self).read_request().unwrap().1,
                ) == bytes@ ==> old(self).result(file) == (match r {
                    Ok(_) => final(self).result(file),
                    Err(e) => Err(e),
                }),
    {
        if self.pending.is_some() {
            self.feed_extended_size(bytes)
        } else {
            self.feed_header(bytes)
        }
    }

    /// Takes in the 64-bit size of a pending `mdat` box.
    fn feed_extended_size(&mut self, bytes: &[u8]) -> (r: Result<(), RotateError>)
        requires
            old(self).wf(),
            old(self).pending is Some,
        ensures
            r is Ok ==> final(self).wf(),
            r is Ok ==> final(self).end == old(self).end,
            r is Ok ==> final(self).measure() < old(self).measure(),
            forall|file: Seq<u8>|
                #![trigger old(self).result(file)]
                spec_read(file, old(self).read_request().unwrap().0, 8) == bytes@
                    ==> old(self).result(file) == (match r {
                    Ok(_) => final(self).result(file),
                    Err(e) => Err(e),
                }),
    {
        let ghost old_self = *self;
        let (start, t) = self.pending.unwrap();
        if bytes.len() < 8 {
            return Err(RotateError::UnexpectedEof);
        }
        let size = read_be_u64(bytes, 0);
        self.pending = None;
        let r = self.accept(start, size, t);
        proof {
            assert forall|file: Seq<u8>|
                spec_read(file, start + 8, 8) == bytes@ implies
                #[trigger] old_self.result(file) == (match r {
                    Ok(_) => self.result(file),
                    Err(e) => Err(e),
                }) by {
                assert(bytes@.subrange(0, 8) =~= bytes@);
                assert(list_from_extended(file, start as int, t, old_self.end as int)
                    == list_from_size(file, start as int, size as int, t, old_self.end as int));
                Self::lemma_append_after(old_self.atoms@, Atom { start, size, atom_type: t },
                    list_atoms(file, self.pos as int, self.end as int));
            }
        }
        r
    }

    proof fn lemma_append_after(atoms: Seq<Atom>, a: Atom, rest: Result<Seq<Atom>, RotateError>)
        ensures
            (match (match rest {
                Ok(r) => Ok(seq![a] + r),
                Err(e) => Err(e),
            }) {
                Ok(r) => Ok(atoms + r),
                Err(e) => Err(e),
            }) == (match rest {
                Ok(r) => Ok(atoms.push(a) + r),
                Err(e) => Err::<Seq<Atom>, RotateError>(e),
            }),
    {
        if let Ok(r) = rest {
            assert(atoms + (seq![a] + r) =~= atoms.push(a) + r);
        }
    }

    /// How `list_atoms` goes on from the header `h` read at `pos`.
    proof fn lemma_header_step(file: Seq<u8>, pos: int, end: int, h: Seq<u8>)
        requires
            pos < end,
            spec_read(file, pos, 8) == h,
        ensures
            list_atoms(file, pos, end) == (if h.len() < 8 {
                Err(RotateError::UnexpectedEof)
            } else if !valid_utf8(h.subrange(4, 8)) {
                Err(RotateError::InvalidAtomType(be_u32(h.subrange(4, 8)) as u32))
            } else if be_u32(h.subrange(4, 8)) == MDAT && be_u32(h) == 1 {
                list_from_extended(file, pos, MDAT, end)
            } else {
                list_from_size(file, pos, be_u32(h), be_u32(h.subrange(4, 8)) as u32, end)
            }),
    {
    }

    /// Takes in the 8-byte header of the next box.
    fn feed_header(&mut self, bytes: &[u8]) -> (r: Result<(), RotateError>)
        requires
            old(self).wf(),
            old(self).pending is None,
            old(self).pos < old(self).end,
            old(self).pos <= u64::MAX || bytes@.len() == 0,
        ensures
            r is Ok ==> final(self).wf(),
            r is Ok ==> final(self).end == old(self).end,
            r is Ok ==> final(self).measure() < old(self).measure(),
            forall|file: Seq<u8>|
                #![trigger old(self).result(file)]
                spec_read(file, old(self).pos as int, 8) == bytes@ ==> old(self).result(file) == (
                match r {
                    Ok(_) => final(self).result(file),
                    Err(e) => Err(e),
                }),
    {
        let ghost old_self = *self;
        if bytes.len() < 8 {
            proof {
                assert forall|file: Seq<u8>| spec_read(file, old_self.pos as int, 8) == bytes@ implies
                    #[trigger] old_self.result(file) == Err::<Seq<Atom>, RotateError>(RotateError::UnexpectedEof) by {
                    Self::lemma_header_step(file, old_self.pos as int, old_self.end as int, bytes@);
                }
            }
            return Err(RotateError::UnexpectedEof);
        }
        let size32 = read_be_u32(bytes, 0);
        let t = read_be_u32(bytes, 4);
        assert(bytes@.subrange(0, 4) =~= bytes@.subrange(0, 4));
        if !atom_type_is_valid(bytes, 4) {
            proof {
                assert forall|file: Seq<u8>| spec_read(file, old_self.pos as int, 8) == bytes@ implies
                    #[trigger] old_self.result(file) == Err::<Seq<Atom>, RotateError>(RotateError::InvalidAtomType(t)) by {
                    Self::lemma_header_step(file, old_self.pos as int, old_self.end as int, bytes@);
                }
            }
            return Err(RotateError::InvalidAtomType(t));
        }
        let start = self.pos as u64;
        if t == MDAT && size32 == 1 {
            self.pending = Some((start, t));
            proof {
                assert forall|file: Seq<u8>| spec_read(file, old_self.pos as int, 8) == bytes@ implies
                    #[trigger] old_self.result(file) == self.result(file) by {
                    Self::lemma_header_step(file, old_self.pos as int, old_self.end as int, bytes@);
                }
            }
            return Ok(());
        }
        let r = self.accept(start, size32 as u64, t);
        proof {
            assert forall|file: Seq<u8>| spec_read(file, old_self.pos as int, 8) == bytes@ implies
                #[trigger] old_self.result(file) == (match r {
                    Ok(_) => self.result(file),
                    Err(e) => Err(e),
                }) by {
                Self::lemma_header_step(file, old_self.pos as int, old_self.end as int, bytes@);
                Self::lemma_append_after(old_self.atoms@, Atom { start, size: size32 as u64, atom_type: t },
                    list_atoms(file, self.pos as int, self.end as int));
            }
        }
        r
    }
}

/// What the search found: the boxes it went through and the matrix of the
/// video track, with the index of the matrix that is to replace it.
#[derive(Debug, Clone)]
pub struct Plan {
    /// Where the `moov` box starts.
    pub moov_start: u64,
    /// Every track, in file order, with the subtype of its handler.
    pub tracks: Vec<TrackInfo>,
    /// Where the `trak` box of the video track starts.
    pub video_start: u64,
    /// Where its `tkhd` box starts.
    pub tkhd_start: u64,
    /// Where the 36 bytes of the matrix start.
    pub matrix_pos: u64,
    /// The index of the rotation matrix found there.
    pub current: usize,
    /// The index of the rotation matrix that is to replace it (past the four
    /// matrices for a rotation of 360 degrees or more).
    pub next: usize,
}

impl View for Plan {
    type V = SpecPlan;

    open spec fn view(&self) -> SpecPlan {
        SpecPlan {
            moov_start: self.moov_start as int,
            tracks: self.tracks@,
            video_start: self.video_start as int,
            tkhd_start: self.tkhd_start as int,
            matrix_pos: self.matrix_pos as int,
            current: self.current as int,
            next: self.next as int,
        }
    }
}

impl Plan {
    /// Whether the matrix is to change: the rotation asked for differs from
    /// the current one.
    pub fn changes_matrix(&self) -> (r: bool)
        ensures
            r == (self.next != self.current),
    {
        self.next != self.current
    }
}

/// A search result with its plan seen as a specification value.
pub open spec fn plan_result_view(r: Result<Plan, RotateError>) -> Result<SpecPlan, RotateError> {
    match r {
        Ok(p) => Ok(p@),
        Err(e) => Err(e),
    }
}

enum Stage {
    /// Listing the top-level boxes.
    Top,
    /// Listing the boxes inside `moov`.
    Moov,
    /// Listing the boxes inside the current `trak`.
    TrakChildren,
    /// Listing the boxes inside its `mdia`.
    MdiaChildren,
    /// Reading the handler subtype of the current track.
    Handler,
    /// Listing the boxes inside the video `trak`.
    VideoChildren,
    /// Reading the matrix.
    Matrix,
    /// Done.
    Finished,
}

/// The search for the matrix of the one video track of a file. It asks for
/// reads with [`Search::next_read`] and takes their bytes with
/// [`Search::feed`] until it is finished; [`Search::finish`] then gives
/// what it found, which is `spec_plan` of the file that was read.
pub struct Search {
    rotation: Option<u32>,
    stage: Stage,
    lister: Lister,
    /// The offset of the handler subtype or of the matrix.
    data_pos: u128,
    tkhd_start: u64,
    moov_start: u64,
    traks: Vec<Atom>,
    k: usize,
    tracks: Vec<TrackInfo>,
    video: Vec<Atom>,
    result: Option<Result<Plan, RotateError>>,
}

/// `a` comes strictly before `b` in lexicographic order.
pub open spec fn lex_lt(a: (nat, nat, nat, nat), b: (nat, nat, nat, nat)) -> bool {
    ||| a.0 < b.0
    ||| a.0 == b.0 && a.1 < b.1
    ||| a.0 == b.0 && a.1 == b.1 && a.2 < b.2
    ||| a.0 == b.0 && a.1 == b.1 && a.2 == b.2 && a.3 < b.3
}

impl Search {
    spec fn is_listing(&self) -> bool {
        match self.stage {
            Stage::Top | Stage::Moov | Stage::TrakChildren | Stage::MdiaChildren | Stage::VideoChildren => true,
            _ => false,
        }
    }

    /// The rotation asked for.
    pub closed spec fn rotation(&self) -> Option<u32> {
        self.rotation
    }

    /// The search is in a consistent state.
    pub closed spec fn wf(&self) -> bool {
        &&& self.is_listing() ==> self.lister.wf()
        &&& (match self.stage {
            Stage::TrakChildren | Stage::MdiaChildren | Stage::Handler => self.k < self.traks@.len(),
            _ => true,
        })
        &&& (match self.stage {
            Stage::VideoChildren | Stage::Matrix => self.video@.len() == 1,
            _ => true,
        })
        &&& (self.stage is Handler ==> self.data_pos <= 0x2_0000_0000_0000_0000)
        &&& (self.stage is Matrix ==> self.data_pos == self.tkhd_start + 48)
        &&& (self.stage is Finished <==> self.result is Some)
    }

    /// The offset and length of the read the search waits for, if any.
    pub closed spec fn read_request(&self) -> Option<(int, int)> {
        match self.stage {
            Stage::Handler => Some((self.data_pos as int, 4)),
            Stage::Matrix => Some((self.data_pos as int, 36)),
            Stage::Finished => None,
            _ => self.lister.read_request(),
        }
    }

    /// The search is finished.
    pub closed spec fn is_finished(&self) -> bool {
        self.stage is Finished
    }

    /// The search is finished or waits for a read at an offset that fits in
    /// 64 bits.
    pub open spec fn ready(&self) -> bool {
        ||| self.is_finished()
        ||| (self.read_request() matches Some((p, _)) && p <= u64::MAX)
    }

    /// How far the search is from its end.
    pub closed spec fn measure(&self) -> (nat, nat, nat, nat) {
        let lm = self.lister.measure();
        let left = if self.k < self.traks@.len() { (self.traks@.len() - self.k) as nat } else { 0 };
        match self.stage {
            Stage::Top => (6, 0, 0, lm),
            Stage::Moov => (5, 0, 0, lm),
            Stage::TrakChildren => (4, left, 2, lm),
            Stage::MdiaChildren => (4, left, 1, lm),
            Stage::Handler => (4, left, 0, 0),
            Stage::VideoChildren => (3, 0, 0, lm),
            Stage::Matrix => (2, 0, 0, 0),
            Stage::Finished => (0, 0, 0, 0),
        }
    }

    /// What the search will find on `file`, given that every read it asks for
    /// is answered with the bytes of `file` there.
    pub closed spec fn outcome(&self, file: Seq<u8>) -> Result<SpecPlan, RotateError> {
        let listed = self.lister.result(file);
        let rot = self.rotation;
        let moov = self.moov_start as int;
        match self.stage {
            Stage::Top => finish_plan(after_top(listed, file), file, rot),
            Stage::Moov => finish_plan(after_moov(listed, file, moov), file, rot),
            Stage::TrakChildren => finish_plan(
                after_handler(
                    after_trak_children(listed, file),
                    file,
                    self.traks@,
                    self.k as nat,
                    self.tracks@,
                    self.video@,
                    moov,
                ),
                file,
                rot,
            ),
            Stage::MdiaChildren => finish_plan(
                after_handler(
                    after_mdia_children(listed, file),
                    file,
                    self.traks@,
                    self.k as nat,
                    self.tracks@,
                    self.video@,
                    moov,
                ),
                file,
                rot,
            ),
            Stage::Handler => finish_plan(
                after_handler(
                    handler_type_at(file, self.data_pos as int),
                    file,
                    self.traks@,
                    self.k as nat,
                    self.tracks@,
                    self.video@,
                    moov,
                ),
                file,
                rot,
            ),
            Stage::VideoChildren => finish_plan(
                after_video_children(listed, self.tracks@, self.video@[0].start as int, moov),
                file,
                rot,
            ),
            Stage::Matrix => plan_at(
                Location {
                    moov_start: moov,
                    tracks: self.tracks@,
                    video_start: self.video@[0].start as int,
                    tkhd_start: self.tkhd_start as int,
                },
                spec_read(file, self.data_pos as int, 36),
                rot,
            ),
            Stage::Finished => plan_result_view(self.result.unwrap()),
        }
    }

    proof fn lemma_fresh_listing(l: Lister, file: Seq<u8>)
        requires
            l.pending is None,
            l.atoms@ == Seq::<Atom>::empty(),
        ensures
            l.result(file) == list_atoms(file, l.pos as int, l.end as int),
    {
        if let Ok(r) = list_atoms(file, l.pos as int, l.end as int) {
            assert(Seq::<Atom>::empty() + r =~= r);
        }
    }

    fn finish_with(&mut self, r: Result<Plan, RotateError>)
        requires
        ensures
            final(self).wf(),
            final(self).is_finished(),
            final(self).rotation == old(self).rotation,
            forall|file: Seq<u8>| #[trigger] final(self).outcome(file) == plan_result_view(r),
    {
        self.stage = Stage::Finished;
        self.result = Some(r);
    }

    /// Starts listing the boxes inside `a` in stage `stage`.
    fn list_inside(&mut self, a: Atom, stage: Stage)
        ensures
            final(self).lister.wf(),
            final(self).lister.pending is None,
            final(self).lister.atoms@ == Seq::<Atom>::empty(),
            final(self).lister.pos == a.start + 8,
            final(self).lister.end == a.start + a.size,
            final(self).stage == stage,
            final(self).rotation == old(self).rotation,
            final(self).data_pos == old(self).data_pos,
            final(self).tkhd_start == old(self).tkhd_start,
            final(self).moov_start == old(self).moov_start,
            final(self).traks == old(self).traks,
            final(self).k == old(self).k,
            final(self).tracks == old(self).tracks,
            final(self).video == old(self).video,
            final(self).result is None,
    {
        self.lister = Lister::new(a.start as u128 + 8, a.start as u128 + a.size as u128);
        self.stage = stage;
        self.result = None;
    }

    /// Goes on with track `k`, or with the video track once every track has
    /// been looked at.
    fn next_track(&mut self)
        requires
            old(self).k <= old(self).traks@.len(),
        ensures
            final(self).wf(),
            final(self).rotation == old(self).rotation,
            forall|file: Seq<u8>| #[trigger] final(self).outcome(file) == finish_plan(
                scan_traks(
                    file,
                    old(self).traks@,
                    old(self).k as nat,
                    old(self).tracks@,
                    old(self).video@,
                    old(self).moov_start as int,
                ),
                file,
                old(self).rotation,
            ),
            final(self).measure().0 < 4 || (final(self).measure().0 == 4 && final(self).measure().1
                == old(self).traks@.len() - old(self).k),
    {
        if self.k < self.traks.len() {
            let trak = self.traks[self.k];
            self.list_inside(trak, Stage::TrakChildren);
            proof {
                assert forall|file: Seq<u8>| #[trigger] self.outcome(file) == finish_plan(scan_traks(
                    file, self.traks@, self.k as nat, self.tracks@, self.video@,
                    self.moov_start as int), file, self.rotation) by {
                    Self::lemma_fresh_listing(self.lister, file);
                    lemma_scan_traks_unfold(file, self.traks@, self.k as nat, self.tracks@, self.video@,
                        self.moov_start as int);
                }
            }
        } else {
            let ghost old_self = *self;
            self.video_track();
            proof {
                assert forall|file: Seq<u8>| #[trigger] self.outcome(file) == finish_plan(scan_traks(
                    file, old_self.traks@, old_self.k as nat, old_self.tracks@, old_self.video@,
                    old_self.moov_start as int), file, old_self.rotation) by {
                    lemma_scan_traks_unfold(file, old_self.traks@, old_self.k as nat, old_self.tracks@, old_self.video@,
                        old_self.moov_start as int);
                }
            }
        }
    }

    /// Goes on with the one video track once every track has been looked at.
    fn video_track(&mut self)
        requires
        ensures
            final(self).wf(),
            final(self).rotation == old(self).rotation,
            forall|file: Seq<u8>| #[trigger] final(self).outcome(file) == finish_plan(
                after_traks(file, old(self).tracks@, old(self).video@, old(self).moov_start as int),
                file,
                old(self).rotation,
            ),
            final(self).measure().0 < 4,
    {
        if self.video.len() == 0 {
            self.finish_with(Err(RotateError::NoVideoTrack));
        } else if self.video.len() > 1 {
            self.finish_with(Err(RotateError::MultipleVideoTracks));
        } else {
            let v = self.video[0];
            self.list_inside(v, Stage::VideoChildren);
            proof {
                assert forall|file: Seq<u8>| #[trigger] self.outcome(file) == finish_plan(after_traks(
                    file, self.tracks@, self.video@, self.moov_start as int), file, self.rotation) by {
                    Self::lemma_fresh_listing(self.lister, file);
                }
            }
        }
    }

    /// Goes on once the top-level boxes are listed.
    fn top_listed(&mut self)
        requires
            old(self).wf(),
            old(self).stage is Top,
            old(self).lister.read_request() is None,
        ensures
            final(self).wf(),
            final(self).rotation == old(self).rotation,
            forall|file: Seq<u8>| #[trigger] final(self).outcome(file) == old(self).outcome(file),
            lex_lt(final(self).measure(), old(self).measure()),
    {
        let ghost old_self = *self;
        proof {
            assert forall|file: Seq<u8>| #[trigger] old_self.lister.result(file) == Ok::<Seq<Atom>, RotateError>(old_self.lister.atoms@) by {
                old_self.lister.lemma_done(file);
            }
        }
        let atoms = &self.lister.atoms;
        if atoms.len() == 0 || atoms[0].atom_type != FTYP {
            self.finish_with(Err(RotateError::FtypNotFound));
            return;
        }
        match find_atom(atoms, MOOV) {
            Err(e) => {
                self.finish_with(Err(e));
            },
            Ok(moov) => {
                self.moov_start = moov.start;
                self.list_inside(moov, Stage::Moov);
                proof {
                    assert forall|file: Seq<u8>| #[trigger] self.outcome(file) == old_self.outcome(file) by {
                        Self::lemma_fresh_listing(self.lister, file);
                    }
                }
            },
        }
    }

    /// Goes on once the boxes inside `moov` are listed.
    fn moov_listed(&mut self)
        requires
            old(self).wf(),
            old(self).stage is Moov,
            old(self).lister.read_request() is None,
        ensures
            final(self).wf(),
            final(self).rotation == old(self).rotation,
            forall|file: Seq<u8>| #[trigger] final(self).outcome(file) == old(self).outcome(file),
            lex_lt(final(self).measure(), old(self).measure()),
    {
        let ghost old_self = *self;
        proof {
            assert forall|file: Seq<u8>| #[trigger] old_self.lister.result(file) == Ok::<Seq<Atom>, RotateError>(old_self.lister.atoms@) by {
                old_self.lister.lemma_done(file);
            }
        }
        self.traks = atoms_of_type(&self.lister.atoms, TRAK);
        self.k = 0;
        self.tracks = Vec::new();
        self.video = Vec::new();
        self.next_track();
    }

    /// Goes on once the boxes inside the current `trak` are listed.
    fn trak_listed(&mut self)
        requires
            old(self).wf(),
            old(self).stage is TrakChildren,
            old(self).lister.read_request() is None,
        ensures
            final(self).wf(),
            final(self).rotation == old(self).rotation,
            forall|file: Seq<u8>| #[trigger] final(self).outcome(file) == old(self).outcome(file),
            lex_lt(final(self).measure(), old(self).measure()),
    {
        let ghost old_self = *self;
        proof {
            assert forall|file: Seq<u8>| #[trigger] old_self.lister.result(file) == Ok::<Seq<Atom>, RotateError>(old_self.lister.atoms@) by {
                old_self.lister.lemma_done(file);
            }
        }
        match find_atom(&self.lister.atoms, MDIA) {
            Err(e) => {
                self.finish_with(Err(e));
            },
            Ok(mdia) => {
                self.list_inside(mdia, Stage::MdiaChildren);
                proof {
                    assert forall|file: Seq<u8>| #[trigger] self.outcome(file) == old_self.outcome(file) by {
                        Self::lemma_fresh_listing(self.lister, file);
                    }
                }
            },
        }
    }

    /// Goes on once the boxes inside the current `mdia` are listed.
    fn mdia_listed(&mut self)
        requires
            old(self).wf(),
            old(self).stage is MdiaChildren,
            old(self).lister.read_request() is None,
        ensures
            final(self).wf(),
            final(self).rotation == old(self).rotation,
            forall|file: Seq<u8>| #[trigger] final(self).outcome(file) == old(self).outcome(file),
            lex_lt(final(self).measure(), old(self).measure()),
    {
        let ghost old_self = *self;
        proof {
            assert forall|file: Seq<u8>| #[trigger] old_self.lister.result(file) == Ok::<Seq<Atom>, RotateError>(old_self.lister.atoms@) by {
                old_self.lister.lemma_done(file);
            }
        }
        match find_atom(&self.lister.atoms, HDLR) {
            Err(e) => {
                self.finish_with(Err(e));
            },
            Ok(hdlr) => {
                self.data_pos = hdlr.start as u128 + 16;
                self.stage = Stage::Handler;
            },
        }
    }

    /// Goes on once the boxes inside the video `trak` are listed.
    fn video_listed(&mut self)
        requires
            old(self).wf(),
            old(self).stage is VideoChildren,
            old(self).lister.read_request() is None,
        ensures
            final(self).wf(),
            final(self).rotation == old(self).rotation,
            forall|file: Seq<u8>| #[trigger] final(self).outcome(file) == old(self).outcome(file),
            lex_lt(final(self).measure(), old(self).measure()),
    {
        let ghost old_self = *self;
        proof {
            assert forall|file: Seq<u8>| #[trigger] old_self.lister.result(file) == Ok::<Seq<Atom>, RotateError>(old_self.lister.atoms@) by {
                old_self.lister.lemma_done(file);
            }
        }
        match find_atom(&self.lister.atoms, TKHD) {
            Err(e) => {
                self.finish_with(Err(e));
            },
            Ok(tkhd) => {
                self.tkhd_start = tkhd.start;
                self.data_pos = tkhd.start as u128 + 48;
                self.stage = Stage::Matrix;
            },
        }
    }

    /// Goes on once the current listing is done.
    fn listing_done(&mut self)
        requires
            old(self).wf(),
            old(self).is_listing(),
            old(self).lister.read_request() is None,
        ensures
            final(self).wf(),
            final(self).rotation == old(self).rotation,
            forall|file: Seq<u8>| #[trigger] final(self).outcome(file) == old(self).outcome(file),
            lex_lt(final(self).measure(), old(self).measure()),
    {
        match self.stage {
            Stage::Top => self.top_listed(),
            Stage::Moov => self.moov_listed(),
            Stage::TrakChildren => self.trak_listed(),
            Stage::MdiaChildren => self.mdia_listed(),
            _ => self.video_listed(),
        }
    }

    /// Takes in the bytes read for the current listing.
    fn feed_listing(&mut self, bytes: &[u8])
        requires
            old(self).wf(),
            old(self).is_listing(),
            old(self).lister.read_request() matches Some((p, _)) && (p <= u64::MAX || bytes@.len() == 0),
        ensures
            final(self).wf(),
            final(self).rotation == old(self).rotation,
            forall|file: Seq<u8>|
                #![trigger final(self).outcome(file)]
                valid_file(file) && spec_read(
                    file,
                    old(self).read_request().unwrap().0,
                    old(self).read_request().unwrap().1,
                ) == bytes@ ==> final(self).outcome(file) == old(self).outcome(file),
            lex_lt(final(self).measure(), old(self).measure()),
    {
        let ghost old_self = *self;
        match self.lister.feed(bytes) {
            Ok(()) => {},
            Err(e) => {
                self.finish_with(Err(e));
            },
        }
    }

    /// Takes in the four bytes of the handler subtype of the current track.
    fn feed_handler(&mut self, bytes: &[u8])
        requires
            old(self).wf(),
            old(self).stage is Handler,
        ensures
            final(self).wf(),
            final(self).rotation == old(self).rotation,
            forall|file: Seq<u8>|
                #![trigger final(self).outcome(file)]
                spec_read(file, old(self).data_pos as int, 4) == bytes@ ==> final(self).outcome(file)
                    == old(self).outcome(file),
            lex_lt(final(self).measure(), old(self).measure()),
    {
        let ghost old_self = *self;
        if bytes.len() < 4 {
            self.finish_with(Err(RotateError::PrematureEof));
            return;
        }
        let handler = read_be_u32(bytes, 0);
        let k = self.k;
        let n = self.traks.len();
        assert(k < n);
        let trak = self.traks[k];
        self.tracks.push(TrackInfo { start: trak.start, handler });
        if handler == VIDE {
            self.video.push(trak);
        }
        self.k = k + 1;
        let ghost mid = *self;
        self.next_track();
        proof {
            let info = TrackInfo { start: trak.start, handler };
            assert(mid.tracks@ == old_self.tracks@.push(info));
            assert(mid.video@ == if handler == VIDE { old_self.video@.push(trak) } else { old_self.video@ });
            assert forall|file: Seq<u8>|
                spec_read(file, old_self.data_pos as int, 4) == bytes@ implies
                #[trigger] self.outcome(file) == old_self.outcome(file) by {
                assert(bytes@.subrange(0, 4) =~= bytes@);
                assert(handler_type_at(file, old_self.data_pos as int) == Ok::<u32, RotateError>(handler));
                old_self.lemma_outcome_at_handler(file);
                lemma_after_handler_ok(handler, file, old_self.traks@, k as nat, old_self.tracks@,
                    old_self.video@, old_self.moov_start as int);
            }
        }
    }

    proof fn lemma_outcome_at_handler(&self, file: Seq<u8>)
        requires
            self.stage is Handler,
        ensures
            self.outcome(file) == finish_plan(
                after_handler(
                    handler_type_at(file, self.data_pos as int),
                    file,
                    self.traks@,
                    self.k as nat,
                    self.tracks@,
                    self.video@,
                    self.moov_start as int,
                ),
                file,
                self.rotation,
            ),
    {
    }

    /// Takes in the 36 bytes of the matrix.
    fn feed_matrix(&mut self, bytes: &[u8])
        requires
            old(self).wf(),
            old(self).stage is Matrix,
            old(self).data_pos <= u64::MAX || bytes@.len() == 0,
        ensures
            final(self).wf(),
            final(self).rotation == old(self).rotation,
            forall|file: Seq<u8>|
                #![trigger final(self).outcome(file)]
                spec_read(file, old(self).data_pos as int, 36) == bytes@ ==> final(self).outcome(file)
                    == old(self).outcome(file),
            lex_lt(final(self).measure(), old(self).measure()),
    {
        if bytes.len() < 36 {
            self.finish_with(Err(RotateError::PrematureEof));
            return;
        }
        match rotation_matrix_index(bytes) {
            Err(e) => {
                self.finish_with(Err(e));
            },
            Ok(current) => {
                let next = next_rotation_index(current, self.rotation);
                let plan = Plan {
                    moov_start: self.moov_start,
                    tracks: self.tracks.clone(),
                    video_start: self.video[0].start,
                    tkhd_start: self.tkhd_start,
                    matrix_pos: self.data_pos as u64,
                    current,
                    next,
                };
                self.finish_with(Ok(plan));
            },
        }
    }

    /// Takes in the bytes of the read asked for.
    fn feed_read(&mut self, bytes: &[u8])
        requires
            old(self).wf(),
            old(self).read_request() matches Some((p, _)) && (p <= u64::MAX || bytes@.len() == 0),
        ensures
            final(self).wf(),
            final(self).rotation == old(self).rotation,
            forall|file: Seq<u8>|
                #![trigger final(self).outcome(file)]
                valid_file(file) && spec_read(
                    file,
                    old(self).read_request().unwrap().0,
                    old(self).read_request().unwrap().1,
                ) == bytes@ ==> final(self).outcome(file) == old(self).outcome(file),
            lex_lt(final(self).measure(), old(self).measure()),
    {
        match self.stage {
            Stage::Handler => self.feed_handler(bytes),
            Stage::Matrix => self.feed_matrix(bytes),
            _ => self.feed_listing(bytes),
        }
    }

    /// The read the search waits for, if any.
    fn request(&self) -> (r: Option<(u128, u64)>)
        requires
            self.wf(),
        ensures
            match self.read_request() {
                Some((p, n)) => r matches Some((q, m)) && q == p && m == n,
                None => r is None,
            },
    {
        match self.stage {
            Stage::Handler => Some((self.data_pos, 4)),
            Stage::Matrix => Some((self.data_pos, 36)),
            Stage::Finished => None,
            _ => self.lister.next_read(),
        }
    }

    /// Goes on until the search is finished or waits for a read that the
    /// file may answer: a read past every 64-bit offset finds nothing.
    fn advance(&mut self)
        requires
            old(self).wf(),
        ensures
            final(self).wf(),
            final(self).ready(),
            final(self).rotation == old(self).rotation,
            forall|file: Seq<u8>|
                #![trigger final(self).outcome(file)]
                valid_file(file) ==> final(self).outcome(file) == old(self).outcome(file),
            final(self).measure() == old(self).measure() || lex_lt(final(self).measure(), old(self).measure()),
    {
        let ghost start = *self;
        loop
            invariant
                self.wf(),
                self.rotation == start.rotation,
                forall|file: Seq<u8>|
                    #![trigger self.outcome(file)]
                    valid_file(file) ==> self.outcome(file) == start.outcome(file),
                self.measure() == start.measure() || lex_lt(self.measure(), start.measure()),
            ensures
                self.wf(),
                self.ready(),
            decreases self.measure().0, self.measure().1, self.measure().2, self.measure().3,
        {
            if let Stage::Finished = self.stage {
                break;
            }
            match self.request() {
                None => {
                    self.listing_done();
                },
                Some((p, _)) => {
                    if p <= u64::MAX as u128 {
                        break;
                    }
                    let ghost before = *self;
                    let empty: [u8; 0] = [];
                    self.feed_read(&empty);
                    proof {
                        assert forall|file: Seq<u8>| valid_file(file) implies
                            #[trigger] self.outcome(file) == start.outcome(file) by {
                            assert(spec_read(file, before.read_request().unwrap().0,
                                before.read_request().unwrap().1) =~= empty@);
                            assert(before.outcome(file) == start.outcome(file));
                        }
                    }
                },
            }
        }
    }

    /// Starts the search on a file of `file_len` bytes, for the rotation
    /// asked for (if any).
    pub fn new(file_len: u64, rotation: Option<u32>) -> (s: Search)
        ensures
            s.wf(),
            s.ready(),
            s.rotation() == rotation,
            forall|file: Seq<u8>|
                #![trigger s.outcome(file)]
                file.len() == file_len ==> s.outcome(file) == spec_plan(file, rotation),
    {
        let mut s = Search {
            rotation,
            stage: Stage::Top,
            lister: Lister::new(0, file_len as u128),
            data_pos: 0,
            tkhd_start: 0,
            moov_start: 0,
            traks: Vec::new(),
            k: 0,
            tracks: Vec::new(),
            video: Vec::new(),
            result: None,
        };
        let ghost s0 = s;
        proof {
            assert forall|file: Seq<u8>| file.len() == file_len implies #[trigger] s0.outcome(file)
                == spec_plan(file, rotation) by {
                reveal(spec_plan);
                reveal(locate);
                Self::lemma_fresh_listing(s0.lister, file);
            }
        }
        s.advance();
        s
    }

    /// The offset and the number of bytes of the read that the search waits
    /// for, or `None` once it is finished.
    pub fn next_read(&self) -> (r: Option<(u64, u64)>)
        requires
            self.wf(),
            self.ready(),
        ensures
            r is None <==> self.is_finished(),
            r matches Some((p, n)) ==> self.read_request() == Some((p as int, n as int)),
    {
        match self.request() {
            None => None,
            Some((p, n)) => Some((p as u64, n)),
        }
    }

    /// Takes in the bytes that the file holds where the search asked to
    /// read: all of them up to the length asked for, fewer where the file
    /// ends first. On every file that holds these bytes there, the search
    /// keeps the outcome it had, and it draws strictly nearer to its end.
    pub fn feed(&mut self, bytes: &[u8])
        requires
            old(self).wf(),
            old(self).ready(),
            old(self).read_request() is Some,
        ensures
            final(self).wf(),
            final(self).ready(),
            final(self).rotation() == old(self).rotation(),
            forall|file: Seq<u8>|
                #![trigger final(self).outcome(file)]
                valid_file(file) && spec_read(
                    file,
                    old(self).read_request().unwrap().0,
                    old(self).read_request().unwrap().1,
                ) == bytes@ ==> final(self).outcome(file) == old(self).outcome(file),
            lex_lt(final(self).measure(), old(self).measure()),
    {
        self.feed_read(bytes);
        self.advance();
    }

    /// What the finished search found: on any file, its outcome.
    pub fn finish(self) -> (r: Result<Plan, RotateError>)
        requires
            self.wf(),
            self.is_finished(),
        ensures
            forall|file: Seq<u8>| #[trigger] self.outcome(file) == plan_result_view(r),
    {
        self.result.unwrap()
    }
}

/// The bytes of `file` that reading at most `len` bytes at `pos` gives,
/// for an offset that may lie past every 64-bit one.
fn read_wide(file: &[u8], pos: u128, len: u64) -> (r: Vec<u8>)
    ensures
        r@ == spec_read(file@, pos as int, len as int),
        pos > u64::MAX ==> r@.len() == 0,
{
    if pos >= file.len() as u128 {
        Vec::new()
    } else {
        crate::memory::read_slice(file, pos as u64, len)
    }
}

/// The boxes of `file`, held in memory, that follow one another from `pos`
/// until `end`: what `list_atoms` gives.
pub fn list_atoms_in(file: &[u8], pos: u64, end: u64) -> (r: Result<Vec<Atom>, RotateError>)
    ensures
        match r {
            Ok(atoms) => list_atoms(file@, pos as int, end as int) == Ok::<Seq<Atom>, RotateError>(atoms@),
            Err(e) => list_atoms(file@, pos as int, end as int) == Err::<Seq<Atom>, RotateError>(e),
        },
{
    let n = file.len();
    assert(n as int <= u64::MAX);
    let mut lister = Lister::new(pos as u128, end as u128);
    proof {
        Search::lemma_fresh_listing(lister, file@);
    }
    loop
        invariant
            valid_file(file@),
            lister.wf(),
            lister.result(file@) == list_atoms(file@, pos as int, end as int),
        decreases lister.measure(),
    {
        match lister.next_read() {
            None => {
                proof {
                    lister.lemma_done(file@);
                }
                return Ok(lister.atoms);
            },
            Some((p, len)) => {
                let bytes = read_wide(file, p, len);
                match lister.feed(bytes.as_slice()) {
                    Ok(()) => {},
                    Err(e) => {
                        return Err(e);
                    },
                }
            },
        }
    }
}

} // verus!
