//! Boxes ("atoms") of an MP4 file: their headers, their types, and how one
//! box of a given type is picked out of a list.

use vstd::prelude::*;
use vstd::utf8::valid_utf8;

use crate::error::RotateError;

verus! {

/// Box type `ftyp`, which must open the file.
pub const FTYP: u32 = 0x6674_7970;
/// Box type `moov`, which holds the tracks.
pub const MOOV: u32 = 0x6d6f_6f76;
/// Box type `trak`, one per track.
pub const TRAK: u32 = 0x7472_616b;
/// Box type `mdia`, the media of a track.
pub const MDIA: u32 = 0x6d64_6961;
/// Box type `hdlr`, which names the kind of a track.
pub const HDLR: u32 = 0x6864_6c72;
/// Box type `tkhd`, the track header that holds the matrix.
pub const TKHD: u32 = 0x746b_6864;
/// Box type `mdat`, the only one whose size may be given in 64 bits.
pub const MDAT: u32 = 0x6d64_6174;
/// Handler subtype `vide` of a video track.
pub const VIDE: u32 = 0x7669_6465;

/// A box of an MP4 file: where it starts, how many bytes it takes (header
/// included) and its four-character type, read as a big-endian integer.
#[derive(Debug, Clone, Copy, PartialEq, Eq)]
pub struct Atom {
    pub start: u64,
    pub size: u64,
    pub atom_type: u32,
}

/// The first four bytes of `b` read as a big-endian number.
pub open spec fn be_u32(b: Seq<u8>) -> int {
    b[0] as int * 0x100_0000 + b[1] as int * 0x1_0000 + b[2] as int * 0x100 + b[3] as int
}

/// The first eight bytes of `b` read as a big-endian number.
pub open spec fn be_u64(b: Seq<u8>) -> int {
    be_u32(b) * 0x1_0000_0000 + be_u32(b.subrange(4, 8))
}

/// The four bytes of `b` from `at` on, as a big-endian `u32`.
pub fn read_be_u32(b: &[u8], at: usize) -> (r: u32)
    requires
        at + 4 <= b.len(),
    ensures
        r == be_u32(b@.subrange(at as int, at + 4)),
{
    let v: u32 = (b[at] as u32) * 0x100_0000 + (b[at + 1] as u32) * 0x1_0000 + (b[at + 2] as u32)
        * 0x100 + (b[at + 3] as u32);
    v
}

/// The eight bytes of `b` from `at` on, as a big-endian `u64`.
pub fn read_be_u64(b: &[u8], at: usize) -> (r: u64)
    requires
        at + 8 <= b.len(),
    ensures
        r == be_u64(b@.subrange(at as int, at + 8)),
{
    let hi = read_be_u32(b, at);
    let lo = read_be_u32(b, at + 4);
    assert(b@.subrange(at as int, at + 8).subrange(4, 8) =~= b@.subrange(at + 4, at + 8));
    (hi as u64) * 0x1_0000_0000 + (lo as u64)
}

/// What the `Display` of the `Utf8Error` that `str::from_utf8` gives on
/// `bytes` writes.
pub uninterp spec fn utf8_error_text(bytes: Seq<u8>) -> Seq<char>;

/// Calls `arrayvec::ArrayString::<[u8; 4]>::from_byte_string`, which builds
/// the four-byte string of a box type. Its source checks the bytes with
/// `str::from_utf8`, so it succeeds exactly on valid UTF-8 and otherwise
/// fails with that function's `Utf8Error`, handed back here as the text that
/// its `Display` writes.
#[verifier::external_body]
pub(crate) fn array_string_from_type(bytes: [u8; 4]) -> (r: Result<(), String>)
    ensures
        r is Ok <==> valid_utf8(bytes@),
        r matches Err(text) ==> text@ == utf8_error_text(bytes@),
{
    match arrayvec::ArrayString::<[u8; 4]>::from_byte_string(&bytes) {
        Ok(_) => Ok(()),
        Err(e) => Err(format!("{}", e)),
    }
}

/// The four bytes of box type `t`, its first character first.
pub open spec fn type_bytes(t: u32) -> Seq<u8> {
    seq![
        (t / 0x100_0000) as u8,
        (t / 0x1_0000 % 0x100) as u8,
        (t / 0x100 % 0x100) as u8,
        (t % 0x100) as u8,
    ]
}

/// The four bytes of box type `t`, its first character first.
pub fn type_bytes_of(t: u32) -> (b: [u8; 4])
    ensures
        b@ == type_bytes(t),
{
    let b: [u8; 4] = [
        (t / 0x100_0000) as u8,
        (t / 0x1_0000 % 0x100) as u8,
        (t / 0x100 % 0x100) as u8,
        (t % 0x100) as u8,
    ];
    assert(b@ =~= type_bytes(t));
    b
}

/// Whether the four bytes `b[at..at + 4]` may name a box, that is, form
/// valid UTF-8.
pub fn atom_type_is_valid(b: &[u8], at: usize) -> (r: bool)
    requires
        at + 4 <= b.len(),
    ensures
        r == valid_utf8(b@.subrange(at as int, at + 4)),
{
    let bytes: [u8; 4] = [b[at], b[at + 1], b[at + 2], b[at + 3]];
    assert(bytes@ =~= b@.subrange(at as int, at + 4));
    match array_string_from_type(bytes) {
        Ok(()) => true,
        Err(_) => false,
    }
}

/// The boxes of `atoms` whose type is `t`, in their order.
pub open spec fn of_type(atoms: Seq<Atom>, t: u32) -> Seq<Atom>
    decreases atoms.len(),
{
    if atoms.len() == 0 {
        seq![]
    } else {
        let rest = of_type(atoms.drop_last(), t);
        if atoms.last().atom_type == t {
            rest.push(atoms.last())
        } else {
            rest
        }
    }
}

/// The one box of type `t` among `atoms`: an error when there is none or
/// more than one.
pub open spec fn spec_find_atom(atoms: Seq<Atom>, t: u32) -> Result<Atom, RotateError> {
    let found = of_type(atoms, t);
    if found.len() == 0 {
        Err(RotateError::NoBox(t))
    } else if found.len() > 1 {
        Err(RotateError::MultipleBoxes(t))
    } else {
        Ok(found[0])
    }
}

/// The boxes of `atoms` whose type is `atom_type`, in their order.
pub fn atoms_of_type(atoms: &Vec<Atom>, atom_type: u32) -> (found: Vec<Atom>)
    ensures
        found@ == of_type(atoms@, atom_type),
{
    let mut found: Vec<Atom> = Vec::new();
    let mut i: usize = 0;
    while i < atoms.len()
        invariant
            i <= atoms.len(),
            found@ == of_type(atoms@.take(i as int), atom_type),
        decreases atoms.len() - i,
    {
        assert(atoms@.take(i + 1).drop_last() =~= atoms@.take(i as int));
        if atoms[i].atom_type == atom_type {
            found.push(atoms[i]);
        }
        i += 1;
    }
    assert(atoms@.take(atoms.len() as int) =~= atoms@);
    found
}

/// The one box of type `atom_type` among `atoms`, or `NoBox` when there is
/// none and `MultipleBoxes` when there are several.
pub fn find_atom(atoms: &Vec<Atom>, atom_type: u32) -> (r: Result<Atom, RotateError>)
    ensures
        r == spec_find_atom(atoms@, atom_type),
{
    let found = atoms_of_type(atoms, atom_type);
    if found.len() == 0 {
        Err(RotateError::NoBox(atom_type))
    } else if found.len() > 1 {
        Err(RotateError::MultipleBoxes(atom_type))
    } else {
        Ok(found[0])
    }
}

/// Every box that `of_type` keeps has the type asked for, and no box of that
/// type is left out.
pub proof fn lemma_of_type_exact(atoms: Seq<Atom>, t: u32)
    ensures
        forall|i: int| 0 <= i < of_type(atoms, t).len() ==> #[trigger] of_type(atoms, t)[i].atom_type == t,
        forall|i: int| 0 <= i < atoms.len() && atoms[i].atom_type == t ==> of_type(atoms, t).contains(atoms[i]),
    decreases atoms.len(),
{
    if atoms.len() > 0 {
        lemma_of_type_exact(atoms.drop_last(), t);
        let rest = of_type(atoms.drop_last(), t);
        assert forall|i: int| 0 <= i < atoms.len() && atoms[i].atom_type == t implies of_type(atoms, t).contains(atoms[i]) by {
            if i < atoms.len() - 1 {
                assert(atoms.drop_last()[i] == atoms[i]);
                assert(rest.contains(atoms[i]));
                if atoms.last().atom_type == t {
                    let j = choose|j: int| 0 <= j < rest.len() && rest[j] == atoms[i];
                    assert(rest.push(atoms.last())[j] == atoms[i]);
                }
            } else {
                assert(of_type(atoms, t)[of_type(atoms, t).len() - 1] == atoms[i]);
            }
        }
    }
}

} // verus!
