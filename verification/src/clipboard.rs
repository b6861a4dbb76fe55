//! The list of files that a copy in the file explorer leaves on the
//! clipboard: a 20-byte header, then the paths as 16-bit units in the byte
//! order of the machine, each ended by a zero unit.

use vstd::prelude::*;
use vstd::endian::{endianness, Endian};

verus! {

/// The byte order of the machine that runs the program is little-endian:
/// vstd's `endianness()`, which stands for that order without saying which
/// it is, and is the same throughout one run.
pub open spec fn machine_little_endian() -> bool {
    endianness() == Endian::Little
}

/// Calls `u16::from_ne_bytes`, which reads two bytes as a 16-bit number in
/// the byte order of the machine: the low byte first on a little-endian
/// machine, the high byte first on a big-endian one. The contract does not
/// say which order the machine has; it is the same on every call.
#[verifier::external_body]
fn u16_from_ne_bytes(b: [u8; 2]) -> (r: u16)
    ensures
        r == b[0] as int + 256 * b[1] as int || r == b[1] as int + 256 * b[0] as int,
        machine_little_endian() ==> r == b[0] as int + 256 * b[1] as int,
        !machine_little_endian() ==> r == b[1] as int + 256 * b[0] as int,
{
    u16::from_ne_bytes(b)
}

/// Whether this machine stores the low byte of a 16-bit number first.
fn machine_is_little_endian() -> (r: bool)
    ensures
        r == machine_little_endian(),
{
    u16_from_ne_bytes([1, 0]) == 1
}

/// The 16-bit unit of the bytes `first`, `second`: the low byte first when
/// `little_endian`, else the high byte first.
pub open spec fn unit_in_order(first: u8, second: u8, little_endian: bool) -> u16 {
    if little_endian {
        (first as int + 256 * second as int) as u16
    } else {
        (second as int + 256 * first as int) as u16
    }
}

/// The 16-bit units of `data` after its 20-byte header, in the given byte
/// order (an odd last byte left out).
pub open spec fn units_in_order(data: Seq<u8>, little_endian: bool) -> Seq<u16> {
    Seq::new(
        ((data.len() - 20) / 2) as nat,
        |i: int| unit_in_order(data[20 + 2 * i], data[21 + 2 * i], little_endian),
    )
}

/// The paths of `units`, each ended by a zero unit, empty ones left out,
/// and the unfinished path after the last zero unit.
pub open spec fn split_paths(units: Seq<u16>) -> (Seq<Seq<u16>>, Seq<u16>)
    decreases units.len(),
{
    if units.len() == 0 {
        (seq![], seq![])
    } else {
        let (paths, cur) = split_paths(units.drop_last());
        if units.last() == 0 {
            (if cur.len() > 0 { paths.push(cur) } else { paths }, seq![])
        } else {
            (paths, cur.push(units.last()))
        }
    }
}

/// The paths that the clipboard data `data` lists when its units are in the
/// given byte order: `None` when it is shorter than its header or lists no
/// path.
pub open spec fn spec_file_list(data: Seq<u8>, little_endian: bool) -> Option<Seq<Seq<u16>>> {
    if data.len() < 20 {
        None
    } else {
        let paths = split_paths(units_in_order(data, little_endian)).0;
        if paths.len() == 0 {
            None
        } else {
            Some(paths)
        }
    }
}

/// The paths that the clipboard data `data` lists, its units read in the
/// given byte order.
pub fn file_list_in_order(data: &[u8], little_endian: bool) -> (r: Option<Vec<Vec<u16>>>)
    ensures
        r.deep_view() == spec_file_list(data@, little_endian),
{
    if data.len() < 20 {
        return None;
    }
    let len = data.len();
    let n = (len - 20) / 2;
    assert(2 * n + 20 <= len) by (nonlinear_arith)
        requires
            n == (len - 20) / 2,
            len >= 20,
    ;
    let ghost all = units_in_order(data@, little_endian);
    let mut paths: Vec<Vec<u16>> = Vec::new();
    let mut cur: Vec<u16> = Vec::new();
    let mut i: usize = 0;
    assert(all.take(0) =~= Seq::<u16>::empty());
    while i < n
        invariant
            i <= n,
            n == (data@.len() - 20) / 2,
            2 * n + 20 <= len,
            len == data@.len(),
            data@.len() >= 20,
            all == units_in_order(data@, little_endian),
            all.len() == n,
            split_paths(all.take(i as int)) == (paths.deep_view(), cur@),
        decreases n - i,
    {
        let b0 = data[20 + 2 * i];
        let b1 = data[21 + 2 * i];
        let u: u16 = if little_endian {
            (b0 as u16) + 256 * (b1 as u16)
        } else {
            (b1 as u16) + 256 * (b0 as u16)
        };
        proof {
            assert(u == all[i as int]);
            assert(all.take(i + 1).drop_last() =~= all.take(i as int));
            assert(all.take(i + 1).last() == all[i as int]);
        }
        if u == 0 {
            if cur.len() > 0 {
                let ghost old_paths = paths.deep_view();
                let ghost c = cur@;
                paths.push(cur);
                assert(paths.deep_view() =~~= old_paths.push(c));
            }
            cur = Vec::new();
        } else {
            cur.push(u);
        }
        i += 1;
    }
    assert(all.take(n as int) =~= all);
    if paths.len() == 0 {
        None
    } else {
        Some(paths)
    }
}

/// The paths that the clipboard data `data` lists, its units read in the
/// byte order of the machine: `None` when it is shorter than its header or
/// lists no path.
pub fn clipboard_file_list(data: &[u8]) -> (r: Option<Vec<Vec<u16>>>)
    ensures
        r.deep_view() == spec_file_list(data@, true) || r.deep_view() == spec_file_list(data@, false),
        r.deep_view() == spec_file_list(data@, machine_little_endian()),
{
    let little_endian = machine_is_little_endian();
    file_list_in_order(data, little_endian)
}

/// The paths listed depend only on the bytes after the 20-byte header, an
/// odd last byte left out: two clipboard data that agree there list the
/// same paths.
pub proof fn lemma_file_list_ignores_header(a: Seq<u8>, b: Seq<u8>, little_endian: bool)
    requires
        a.len() >= 20,
        b.len() >= 20,
        (a.len() - 20) / 2 == (b.len() - 20) / 2,
        a.subrange(20, 20 + 2 * ((a.len() - 20) / 2)) == b.subrange(20, 20 + 2 * ((b.len() - 20) / 2)),
    ensures
        spec_file_list(a, little_endian) == spec_file_list(b, little_endian),
{
    let n = (a.len() - 20) / 2;
    let ua = units_in_order(a, little_endian);
    let ub = units_in_order(b, little_endian);
    assert forall|i: int| 0 <= i < n implies ua[i] == ub[i] by {
        assert(a[20 + 2 * i] == a.subrange(20, 20 + 2 * n)[2 * i]);
        assert(a[21 + 2 * i] == a.subrange(20, 20 + 2 * n)[2 * i + 1]);
        assert(b[20 + 2 * i] == b.subrange(20, 20 + 2 * n)[2 * i]);
        assert(b[21 + 2 * i] == b.subrange(20, 20 + 2 * n)[2 * i + 1]);
    }
    assert(ua =~= ub);
}

} // verus!
