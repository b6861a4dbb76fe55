use mp4_rotator::atom::{atoms_of_type, find_atom, read_be_u32, read_be_u64, Atom, FTYP, HDLR, MDAT, MDIA, MOOV, TKHD, TRAK, VIDE};
use mp4_rotator::error::RotateError;
use mp4_rotator::matrix::rotation_matrix;
use mp4_rotator::memory::{plan_rotation, read_slice, rotate_buffer};
use mp4_rotator::search::{list_atoms_in, Search};

fn fourcc(t: &[u8; 4]) -> u32 {
    u32::from_be_bytes(*t)
}

fn bx(kind: &[u8; 4], payload: &[u8]) -> Vec<u8> {
    let mut v = ((payload.len() + 8) as u32).to_be_bytes().to_vec();
    v.extend_from_slice(kind);
    v.extend_from_slice(payload);
    v
}

fn tkhd(matrix_index: usize) -> Vec<u8> {
    let mut payload = vec![0u8; 40];
    payload.extend(rotation_matrix(matrix_index));
    payload.extend_from_slice(&[0, 0x10, 0, 0, 0, 0x09, 0, 0]);
    bx(b"tkhd", &payload)
}

fn hdlr(kind: &[u8; 4]) -> Vec<u8> {
    let mut payload = vec![0u8; 8];
    payload.extend_from_slice(kind);
    payload.extend_from_slice(&[0u8; 13]);
    bx(b"hdlr", &payload)
}

fn trak(handler: &[u8; 4], matrix_index: usize) -> Vec<u8> {
    let mut payload = tkhd(matrix_index);
    payload.extend(bx(b"mdia", &[bx(b"mdhd", &[0u8; 24]), hdlr(handler)].concat()));
    bx(b"trak", &payload)
}

fn movie(traks: &[Vec<u8>]) -> Vec<u8> {
    let mut f = bx(b"ftyp", b"isom\0\0\x02\0isomiso2");
    let mut moov = bx(b"mvhd", &[0u8; 100]);
    for t in traks {
        moov.extend_from_slice(t);
    }
    f.extend(bx(b"moov", &moov));
    f.extend(bx(b"mdat", &[7u8; 20]));
    f
}

fn video_movie(matrix_index: usize) -> Vec<u8> {
    movie(&[trak(b"vide", matrix_index), trak(b"soun", 0)])
}

#[test]
fn big_endian_numbers() {
    let b = [0x12, 0x34, 0x56, 0x78, 0x9a, 0xbc, 0xde, 0xf0, 0x11];
    assert_eq!(read_be_u32(&b, 0), 0x1234_5678);
    assert_eq!(read_be_u32(&b, 5), 0xbcde_f011);
    assert_eq!(read_be_u64(&b, 0), 0x1234_5678_9abc_def0);
}

#[test]
fn box_types_are_four_character_codes() {
    assert_eq!(FTYP, fourcc(b"ftyp"));
    assert_eq!(MOOV, fourcc(b"moov"));
    assert_eq!(TRAK, fourcc(b"trak"));
    assert_eq!(MDIA, fourcc(b"mdia"));
    assert_eq!(HDLR, fourcc(b"hdlr"));
    assert_eq!(TKHD, fourcc(b"tkhd"));
    assert_eq!(MDAT, fourcc(b"mdat"));
    assert_eq!(VIDE, fourcc(b"vide"));
}

#[test]
fn find_atom_needs_exactly_one() {
    let a = Atom { start: 0, size: 8, atom_type: MOOV };
    let b = Atom { start: 8, size: 16, atom_type: TRAK };
    let c = Atom { start: 24, size: 8, atom_type: TRAK };
    let atoms = vec![a, b, c];
    assert_eq!(find_atom(&atoms, MOOV), Ok(a));
    assert_eq!(find_atom(&atoms, TRAK), Err(RotateError::MultipleBoxes(TRAK)));
    assert_eq!(find_atom(&atoms, MDIA), Err(RotateError::NoBox(MDIA)));
    assert_eq!(atoms_of_type(&atoms, TRAK), vec![b, c]);
    assert_eq!(atoms_of_type(&atoms, HDLR), vec![]);
}

#[test]
fn lists_top_level_boxes() {
    let f = video_movie(0);
    let atoms = list_atoms_in(&f, 0, f.len() as u64).unwrap();
    let types: Vec<u32> = atoms.iter().map(|a| a.atom_type).collect();
    assert_eq!(types, vec![FTYP, MOOV, MDAT]);
    assert_eq!(atoms[0].start, 0);
    assert_eq!(atoms[0].size, 24);
    assert_eq!(atoms[1].start, 24);
    assert_eq!(atoms[2].start + atoms[2].size, f.len() as u64);
}

#[test]
fn lists_nothing_in_an_empty_range() {
    let f = video_movie(0);
    assert_eq!(list_atoms_in(&f, 10, 10), Ok(vec![]));
    assert_eq!(list_atoms_in(&f, 10, 4), Ok(vec![]));
}

#[test]
fn mdat_with_64_bit_size() {
    let mut f = bx(b"ftyp", b"isom");
    f.extend_from_slice(&1u32.to_be_bytes());
    f.extend_from_slice(b"mdat");
    f.extend_from_slice(&24u64.to_be_bytes());
    f.extend_from_slice(&[0u8; 8]);
    f.extend(bx(b"free", &[]));
    let atoms = list_atoms_in(&f, 0, f.len() as u64).unwrap();
    assert_eq!(atoms.len(), 3);
    assert_eq!(atoms[1], Atom { start: 12, size: 24, atom_type: MDAT });
    assert_eq!(atoms[2].start, 36);
}

#[test]
fn size_one_is_only_extended_for_mdat() {
    let mut f = Vec::new();
    f.extend_from_slice(&1u32.to_be_bytes());
    f.extend_from_slice(b"free");
    f.extend_from_slice(&[0u8; 8]);
    assert_eq!(list_atoms_in(&f, 0, f.len() as u64), Err(RotateError::InvalidBoxSize(1)));
}

#[test]
fn box_smaller_than_its_header_is_refused() {
    let mut f = bx(b"ftyp", b"isom");
    f.extend_from_slice(&4u32.to_be_bytes());
    f.extend_from_slice(b"free");
    assert_eq!(list_atoms_in(&f, 0, f.len() as u64), Err(RotateError::InvalidBoxSize(4)));
}

#[test]
fn extended_size_smaller_than_header_is_refused() {
    let mut f = Vec::new();
    f.extend_from_slice(&1u32.to_be_bytes());
    f.extend_from_slice(b"mdat");
    f.extend_from_slice(&7u64.to_be_bytes());
    assert_eq!(list_atoms_in(&f, 0, f.len() as u64), Err(RotateError::InvalidBoxSize(7)));
}

#[test]
fn box_type_must_be_utf8() {
    let mut f = bx(b"ftyp", b"isom");
    f.extend_from_slice(&8u32.to_be_bytes());
    f.extend_from_slice(&[0xff, b'o', b'o', b'v']);
    assert_eq!(
        list_atoms_in(&f, 0, f.len() as u64),
        Err(RotateError::InvalidAtomType(u32::from_be_bytes([0xff, b'o', b'o', b'v'])))
    );
    let mut g = Vec::new();
    g.extend_from_slice(&8u32.to_be_bytes());
    g.extend_from_slice("é€".as_bytes().get(0..4).unwrap());
    assert!(std::str::from_utf8(&g[4..8]).is_err());
    assert!(list_atoms_in(&g, 0, 8).is_err());
    let mut h = Vec::new();
    h.extend_from_slice(&8u32.to_be_bytes());
    h.extend_from_slice("é".as_bytes());
    h.extend_from_slice(b"ab");
    assert_eq!(list_atoms_in(&h, 0, 8), Ok(vec![Atom { start: 0, size: 8, atom_type: u32::from_be_bytes([h[4], h[5], h[6], h[7]]) }]));
}

#[test]
fn header_cut_short_is_refused() {
    let mut f = bx(b"ftyp", b"isom");
    f.extend_from_slice(&[0, 0, 0, 9, b'f']);
    assert_eq!(list_atoms_in(&f, 0, f.len() as u64), Err(RotateError::UnexpectedEof));
    let mut g = Vec::new();
    g.extend_from_slice(&1u32.to_be_bytes());
    g.extend_from_slice(b"mdat");
    g.extend_from_slice(&[0, 0, 0]);
    assert_eq!(list_atoms_in(&g, 0, g.len() as u64), Err(RotateError::UnexpectedEof));
}

#[test]
fn last_box_may_reach_past_the_end() {
    let f = bx(b"ftyp", &[0u8; 8]);
    assert_eq!(list_atoms_in(&f, 0, 10), Ok(vec![Atom { start: 0, size: 16, atom_type: FTYP }]));
}

#[test]
fn read_slice_stops_at_the_end() {
    let f = [1u8, 2, 3, 4, 5];
    assert_eq!(read_slice(&f, 1, 2), vec![2, 3]);
    assert_eq!(read_slice(&f, 3, 10), vec![4, 5]);
    assert_eq!(read_slice(&f, 5, 1), Vec::<u8>::new());
    assert_eq!(read_slice(&f, 100, 1), Vec::<u8>::new());
}

#[test]
fn plan_finds_the_video_matrix() {
    let f = video_movie(0);
    let plan = plan_rotation(&f, None).unwrap();
    assert_eq!(plan.current, 0);
    assert_eq!(plan.next, 1);
    assert!(plan.changes_matrix());
    assert_eq!(plan.moov_start, 24);
    assert_eq!(plan.tracks.len(), 2);
    assert_eq!(plan.tracks[0].handler, VIDE);
    assert_eq!(plan.tracks[1].handler, fourcc(b"soun"));
    assert_eq!(plan.video_start, plan.tracks[0].start);
    assert_eq!(plan.tkhd_start, plan.video_start + 8);
    assert_eq!(plan.matrix_pos, plan.tkhd_start + 48);
    let m = plan.matrix_pos as usize;
    assert_eq!(&f[m..m + 36], rotation_matrix(0).as_slice());
}

#[test]
fn plan_with_forced_rotation() {
    let f = video_movie(1);
    let plan = plan_rotation(&f, Some(180)).unwrap();
    assert_eq!(plan.current, 1);
    assert_eq!(plan.next, 2);
    let same = plan_rotation(&f, Some(90)).unwrap();
    assert_eq!(same.next, 1);
    assert!(!same.changes_matrix());
}

#[test]
fn plan_needs_ftyp_first() {
    let f = video_movie(0);
    assert_eq!(plan_rotation(&f[24..], None).unwrap_err(), RotateError::FtypNotFound);
    assert_eq!(plan_rotation(&[], None).unwrap_err(), RotateError::FtypNotFound);
}

#[test]
fn plan_needs_one_moov() {
    let f = bx(b"ftyp", b"isom");
    assert_eq!(plan_rotation(&f, None).unwrap_err(), RotateError::NoBox(MOOV));
    let mut g = video_movie(0);
    g.extend(bx(b"moov", &[]));
    assert_eq!(plan_rotation(&g, None).unwrap_err(), RotateError::MultipleBoxes(MOOV));
}

#[test]
fn plan_needs_one_video_track() {
    let none = movie(&[trak(b"soun", 0)]);
    assert_eq!(plan_rotation(&none, None).unwrap_err(), RotateError::NoVideoTrack);
    let two = movie(&[trak(b"vide", 0), trak(b"vide", 1)]);
    assert_eq!(plan_rotation(&two, None).unwrap_err(), RotateError::MultipleVideoTracks);
    let empty = movie(&[]);
    assert_eq!(plan_rotation(&empty, None).unwrap_err(), RotateError::NoVideoTrack);
}

#[test]
fn plan_needs_mdia_hdlr_and_tkhd() {
    let no_mdia = movie(&[bx(b"trak", &tkhd(0))]);
    assert_eq!(plan_rotation(&no_mdia, None).unwrap_err(), RotateError::NoBox(MDIA));
    let no_hdlr = movie(&[bx(b"trak", &[tkhd(0), bx(b"mdia", &bx(b"mdhd", &[0u8; 4]))].concat())]);
    assert_eq!(plan_rotation(&no_hdlr, None).unwrap_err(), RotateError::NoBox(HDLR));
    let no_tkhd = movie(&[bx(b"trak", &bx(b"mdia", &hdlr(b"vide")))]);
    assert_eq!(plan_rotation(&no_tkhd, None).unwrap_err(), RotateError::NoBox(TKHD));
}

#[test]
fn plan_refuses_an_unknown_matrix() {
    let mut f = video_movie(0);
    let plan = plan_rotation(&f, None).unwrap();
    f[plan.matrix_pos as usize + 3] = 9;
    assert_eq!(plan_rotation(&f, None).unwrap_err(), RotateError::UnknownMatrix);
}

#[test]
fn plan_refuses_data_cut_short() {
    let mut short_tkhd = movie(&[bx(b"trak", &[bx(b"mdia", &hdlr(b"vide")), bx(b"tkhd", &[0u8; 50])].concat())]);
    short_tkhd.truncate(short_tkhd.len() - 28);
    assert_eq!(plan_rotation(&short_tkhd, None).unwrap_err(), RotateError::PrematureEof);
    let mut f = bx(b"ftyp", b"isom");
    let t = bx(b"trak", &bx(b"mdia", &bx(b"hdlr", &[0u8; 4])));
    let moov = bx(b"moov", &t);
    f.extend(moov);
    assert_eq!(plan_rotation(&f, None).unwrap_err(), RotateError::PrematureEof);
}

#[test]
fn search_driven_by_reads_matches_plan() {
    let f = video_movie(2);
    let mut search = Search::new(f.len() as u64, Some(270));
    let mut reads = 0;
    while let Some((pos, len)) = search.next_read() {
        let bytes = read_slice(&f, pos, len);
        search.feed(&bytes);
        reads += 1;
    }
    let plan = search.finish().unwrap();
    assert!(reads > 5);
    let direct = plan_rotation(&f, Some(270)).unwrap();
    assert_eq!(plan.current, 2);
    assert_eq!(plan.next, 3);
    assert_eq!(plan.matrix_pos, direct.matrix_pos);
    assert_eq!(plan.tracks, direct.tracks);
}

#[test]
fn search_of_an_empty_file_finishes_at_once() {
    let search = Search::new(0, None);
    assert_eq!(search.next_read(), None);
    assert_eq!(search.finish().unwrap_err(), RotateError::FtypNotFound);
}

#[test]
fn rotate_buffer_writes_the_next_matrix() {
    let before = video_movie(0);
    let mut f = before.clone();
    let plan = rotate_buffer(&mut f, None).unwrap();
    let m = plan.matrix_pos as usize;
    assert_eq!(&f[m..m + 36], rotation_matrix(1).as_slice());
    assert_eq!(&f[..m], &before[..m]);
    assert_eq!(&f[m + 36..], &before[m + 36..]);
    assert_eq!(plan_rotation(&f, None).unwrap().current, 1);
}

#[test]
fn four_quarter_turns_give_back_the_file() {
    let before = video_movie(3);
    let mut f = before.clone();
    for _ in 0..4 {
        rotate_buffer(&mut f, None).unwrap();
    }
    assert_eq!(f, before);
}

#[test]
fn forced_rotation_twice_changes_nothing_more() {
    let mut f = video_movie(0);
    rotate_buffer(&mut f, Some(270)).unwrap();
    let once = f.clone();
    let plan = rotate_buffer(&mut f, Some(270)).unwrap();
    assert!(!plan.changes_matrix());
    assert_eq!(f, once);
    assert_eq!(plan.current, 3);
}

#[test]
fn failed_rotation_leaves_the_buffer() {
    let before = movie(&[trak(b"soun", 0)]);
    let mut f = before.clone();
    assert_eq!(rotate_buffer(&mut f, None).unwrap_err(), RotateError::NoVideoTrack);
    assert_eq!(f, before);
}

/// A video track whose `tkhd` box ends inside its matrix: the next box
/// header lies on the last seven matrix bytes, which the four matrices share.
fn trak_with_short_tkhd(matrix_index: usize) -> Vec<u8> {
    let m = rotation_matrix(matrix_index);
    let mut payload = vec![0u8; 40];
    payload.extend_from_slice(&m[..29]);
    let mut inner = bx(b"tkhd", &payload);
    assert_eq!(inner.len(), 77);
    let mut next = m[29..].to_vec();
    next.push(b'z');
    next.extend_from_slice(&[0u8; 56]);
    assert_eq!(&next[..4], &[0u8, 0, 0, 64]);
    inner.extend(next);
    inner.extend(bx(b"mdia", &[bx(b"mdhd", &[0u8; 24]), hdlr(b"vide")].concat()));
    bx(b"trak", &inner)
}

#[test]
fn header_on_shared_matrix_bytes_keeps_the_laws() {
    let before = movie(&[trak_with_short_tkhd(1), trak(b"soun", 0)]);
    let mut f = before.clone();
    for k in 0..4 {
        let plan = rotate_buffer(&mut f, None).unwrap();
        assert_eq!(plan.current, (1 + k) % 4);
    }
    assert_eq!(f, before);
    let mut g = before.clone();
    rotate_buffer(&mut g, Some(180)).unwrap();
    let once = g.clone();
    let plan = rotate_buffer(&mut g, Some(180)).unwrap();
    assert!(!plan.changes_matrix());
    assert_eq!(g, once);
}

#[test]
fn search_errors_come_for_any_rotation() {
    let no_ftyp = bx(b"moov", &[]);
    let mut f = no_ftyp.clone();
    assert_eq!(rotate_buffer(&mut f, Some(720)).unwrap_err(), RotateError::FtypNotFound);
    assert_eq!(f, no_ftyp);
    let no_video = movie(&[trak(b"soun", 0)]);
    let mut g = no_video.clone();
    assert_eq!(rotate_buffer(&mut g, Some(400)).unwrap_err(), RotateError::NoVideoTrack);
    assert_eq!(g, no_video);
}

#[test]
fn large_rotation_names_no_matrix() {
    let plan = plan_rotation(&video_movie(2), Some(450)).unwrap();
    assert_eq!(plan.current, 2);
    assert_eq!(plan.next, 5);
}
