//! The command line: options, the files to rotate, and how the options and
//! the settings file combine.

use vstd::prelude::*;

use crate::config::{allowed_rotation, Config};
use crate::text::{all_digits, chars_of, digits_value, parse_u32, parse_u32_range, unsigned_digits};

verus! {

/// What the command line asks for.
#[derive(Debug, Clone)]
pub struct CliArgs {
    /// The rotation given with `-r=` or `--rotate=`, the last one counting.
    pub rotation: Option<u32>,
    /// `Some(true)` when `-b` or `--backup` is given.
    pub backup: Option<bool>,
    /// The positions, among the arguments, of those that name files.
    pub files: Vec<usize>,
}

/// What the command line asks for, as a specification value.
pub ghost struct SpecCliArgs {
    pub rotation: Option<u32>,
    pub backup: Option<bool>,
    pub files: Seq<usize>,
}

impl View for CliArgs {
    type V = SpecCliArgs;

    open spec fn view(&self) -> SpecCliArgs {
        SpecCliArgs { rotation: self.rotation, backup: self.backup, files: self.files@ }
    }
}

/// Whether `s` starts with `prefix`.
pub open spec fn starts_with(s: Seq<char>, prefix: Seq<char>) -> bool {
    prefix.len() <= s.len() && s.take(prefix.len() as int) == prefix
}

pub open spec fn dash() -> Seq<char> {
    seq!['-']
}

pub open spec fn backup_long() -> Seq<char> {
    seq!['-', '-', 'b', 'a', 'c', 'k', 'u', 'p']
}

pub open spec fn backup_short() -> Seq<char> {
    seq!['-', 'b']
}

pub open spec fn rotate_short() -> Seq<char> {
    seq!['-', 'r', '=']
}

pub open spec fn rotate_long() -> Seq<char> {
    seq!['-', '-', 'r', 'o', 't', 'a', 't', 'e', '=']
}

/// The command line after a rotation value `v`: it must write 0, 90, 180
/// or 270, else the command line is refused with that value.
pub open spec fn with_rotation(st: SpecCliArgs, v: Seq<char>) -> Result<SpecCliArgs, Seq<char>> {
    match parse_u32(v) {
        Some(x) => if allowed_rotation(x) {
            Ok(SpecCliArgs { rotation: Some(x), backup: st.backup, files: st.files })
        } else {
            Err(v)
        },
        None => Err(v),
    }
}

/// The command line after argument number `index`, `arg`. An argument that
/// does not start with `-` names a file. `--backup` and `-b` turn backing
/// up on; `-r=` and `--rotate=` give a rotation; other options are ignored.
pub open spec fn arg_step(st: SpecCliArgs, arg: Seq<char>, index: int) -> Result<SpecCliArgs, Seq<char>> {
    if starts_with(arg, dash()) {
        if arg == backup_long() || arg == backup_short() {
            Ok(SpecCliArgs { rotation: st.rotation, backup: Some(true), files: st.files })
        } else if starts_with(arg, rotate_short()) {
            with_rotation(st, arg.skip(3))
        } else if starts_with(arg, rotate_long()) {
            with_rotation(st, arg.skip(9))
        } else {
            Ok(st)
        }
    } else {
        Ok(SpecCliArgs { rotation: st.rotation, backup: st.backup, files: st.files.push(index as usize) })
    }
}

/// The command line `args` (the program name left out), read in order: the
/// first invalid rotation value refuses it.
pub open spec fn spec_parse_args(args: Seq<Seq<char>>) -> Result<SpecCliArgs, Seq<char>>
    decreases args.len(),
{
    if args.len() == 0 {
        Ok(SpecCliArgs { rotation: None, backup: None, files: seq![] })
    } else {
        match spec_parse_args(args.drop_last()) {
            Err(v) => Err(v),
            Ok(st) => arg_step(st, args.last(), args.len() - 1),
        }
    }
}

fn chars_starts_with(s: &Vec<char>, prefix: &Vec<char>) -> (r: bool)
    ensures
        r == starts_with(s@, prefix@),
{
    if prefix.len() > s.len() {
        return false;
    }
    let mut i: usize = 0;
    while i < prefix.len()
        invariant
            prefix@.len() <= s@.len(),
            i <= prefix@.len(),
            forall|k: int| 0 <= k < i ==> s@[k] == prefix@[k],
        decreases prefix.len() - i,
    {
        if s[i] != prefix[i] {
            assert(s@.take(prefix@.len() as int)[i as int] == s@[i as int]);
            return false;
        }
        i += 1;
    }
    assert(s@.take(prefix@.len() as int) =~= prefix@);
    true
}

fn chars_eq(s: &Vec<char>, t: &Vec<char>) -> (r: bool)
    ensures
        r == (s@ == t@),
{
    if s.len() != t.len() {
        return false;
    }
    let r = chars_starts_with(s, t);
    assert(s@.take(t@.len() as int) =~= s@);
    r
}

fn chars_from(s: &Vec<char>, a: usize) -> (r: Vec<char>)
    requires
        a <= s@.len(),
    ensures
        r@ == s@.skip(a as int),
{
    let mut r: Vec<char> = Vec::new();
    let mut i = a;
    while i < s.len()
        invariant
            a <= i <= s@.len(),
            r@ == s@.subrange(a as int, i as int),
        decreases s.len() - i,
    {
        r.push(s[i]);
        i += 1;
        assert(r@ =~= s@.subrange(a as int, i as int));
    }
    assert(s@.subrange(a as int, s@.len() as int) =~= s@.skip(a as int));
    r
}

/// The command line after the rotation value `s[a..]`.
fn take_rotation(st: CliArgs, s: &Vec<char>, a: usize) -> (r: Result<CliArgs, Vec<char>>)
    requires
        a <= s@.len(),
    ensures
        match r {
            Ok(c) => with_rotation(st@, s@.skip(a as int)) == Ok::<SpecCliArgs, Seq<char>>(c@),
            Err(v) => with_rotation(st@, s@.skip(a as int)) == Err::<SpecCliArgs, Seq<char>>(v@),
        },
{
    assert(s@.subrange(a as int, s@.len() as int) =~= s@.skip(a as int));
    match parse_u32_range(s, a, s.len()) {
        Some(x) => if x == 0 || x == 90 || x == 180 || x == 270 {
            Ok(CliArgs { rotation: Some(x), backup: st.backup, files: st.files })
        } else {
            Err(chars_from(s, a))
        },
        None => Err(chars_from(s, a)),
    }
}

/// Reads the command line `args`, the program name left out: the files it
/// names and the options it gives, or the first rotation value that is not
/// 0, 90, 180 or 270.
pub fn parse_args(args: &Vec<String>) -> (r: Result<CliArgs, Vec<char>>)
    ensures
        match r {
            Ok(c) => spec_parse_args(args@.map_values(|a: String| a@)) == Ok::<SpecCliArgs, Seq<char>>(c@),
            Err(v) => spec_parse_args(args@.map_values(|a: String| a@)) == Err::<SpecCliArgs, Seq<char>>(v@),
        },
{
    let ghost all = args@.map_values(|a: String| a@);
    let dash_w = vec!['-'];
    let backup_l = vec!['-', '-', 'b', 'a', 'c', 'k', 'u', 'p'];
    let backup_s = vec!['-', 'b'];
    let rotate_s = vec!['-', 'r', '='];
    let rotate_l = vec!['-', '-', 'r', 'o', 't', 'a', 't', 'e', '='];
    let mut st = CliArgs { rotation: None, backup: None, files: Vec::new() };
    let mut i: usize = 0;
    assert(all.take(0) =~= Seq::<Seq<char>>::empty());
    while i < args.len()
        invariant
            i <= args@.len(),
            all == args@.map_values(|a: String| a@),
            dash_w@ == dash(),
            backup_l@ == backup_long(),
            backup_s@ == backup_short(),
            rotate_s@ == rotate_short(),
            rotate_l@ == rotate_long(),
            spec_parse_args(all.take(i as int)) == Ok::<SpecCliArgs, Seq<char>>(st@),
        decreases args.len() - i,
    {
        let a = chars_of(args[i].as_str());
        assert(all.take(i + 1).drop_last() =~= all.take(i as int));
        assert(all.take(i + 1).last() == a@);
        let next = if chars_starts_with(&a, &dash_w) {
            if chars_eq(&a, &backup_l) || chars_eq(&a, &backup_s) {
                Ok(CliArgs { rotation: st.rotation, backup: Some(true), files: st.files })
            } else if chars_starts_with(&a, &rotate_s) {
                take_rotation(st, &a, 3)
            } else if chars_starts_with(&a, &rotate_l) {
                take_rotation(st, &a, 9)
            } else {
                Ok(st)
            }
        } else {
            let mut files = st.files;
            files.push(i);
            Ok(CliArgs { rotation: st.rotation, backup: st.backup, files })
        };
        match next {
            Ok(c) => {
                st = c;
            },
            Err(v) => {
                proof {
                    lemma_parse_args_err_stays(all, i as int + 1, v@);
                }
                return Err(v);
            },
        }
        i += 1;
    }
    assert(all.take(args@.len() as int) =~= all);
    Ok(st)
}

/// Once a rotation value is refused, later arguments do not change that.
proof fn lemma_parse_args_err_stays(args: Seq<Seq<char>>, j: int, v: Seq<char>)
    requires
        0 <= j <= args.len(),
        spec_parse_args(args.take(j)) == Err::<SpecCliArgs, Seq<char>>(v),
    ensures
        spec_parse_args(args) == Err::<SpecCliArgs, Seq<char>>(v),
    decreases args.len() - j,
{
    if j == args.len() {
        assert(args.take(j) =~= args);
    } else {
        assert(args.take(j + 1).drop_last() =~= args.take(j));
        lemma_parse_args_err_stays(args, j + 1, v);
    }
}

/// The rotation and backup to use: those of the command line, else those of
/// the settings file, backing up off when neither says.
pub open spec fn spec_settings(
    rotation: Option<u32>,
    backup: Option<bool>,
    config: Option<Config>,
) -> (Option<u32>, bool) {
    let r = match rotation {
        Some(v) => Some(v),
        None => match config {
            Some(c) => c.rotation,
            None => None,
        },
    };
    let b = match backup {
        Some(v) => v,
        None => match config {
            Some(c) => match c.backup {
                Some(v) => v,
                None => false,
            },
            None => false,
        },
    };
    (r, b)
}

/// The rotation and backup to use: those of the command line, else those of
/// the settings file, backing up off when neither says.
pub fn settings(rotation: Option<u32>, backup: Option<bool>, config: Option<Config>) -> (r: (
    Option<u32>,
    bool,
))
    ensures
        r == spec_settings(rotation, backup, config),
        rotation is Some ==> r.0 == rotation,
        backup matches Some(v) ==> r.1 == v,
        rotation is None ==> r.0 == (match config {
            Some(c) => c.rotation,
            None => None,
        }),
        backup is None ==> r.1 == (config matches Some(c) && c.backup == Some(true)),
{
    let r = match rotation {
        Some(v) => Some(v),
        None => match config {
            Some(c) => c.rotation,
            None => None,
        },
    };
    let b = match backup {
        Some(v) => v,
        None => match config {
            Some(c) => match c.backup {
                Some(v) => v,
                None => false,
            },
            None => false,
        },
    };
    (r, b)
}

/// What the command line gives wins over the settings file: a rotation or
/// a backup choice given there is the one used, whatever the file says; the
/// file fills in only what the command line leaves open, and backing up is
/// off when neither says.
pub proof fn lemma_command_line_wins(rotation: Option<u32>, backup: Option<bool>, config: Option<Config>)
    ensures
        rotation is Some ==> spec_settings(rotation, backup, config).0 == rotation,
        backup matches Some(v) ==> spec_settings(rotation, backup, config).1 == v,
        rotation is None ==> spec_settings(rotation, backup, config).0 == (match config {
            Some(c) => c.rotation,
            None => None,
        }),
        backup is None ==> spec_settings(rotation, backup, config).1 == (config matches Some(c) && c.backup
            == Some(true)),
{
}

/// A rotation value is taken exactly when it writes 0, 90, 180 or 270, and
/// then it sets the rotation to that number and changes nothing else; any
/// other value refuses the command line with that value.
pub proof fn lemma_rotation_values(st: SpecCliArgs, v: Seq<char>)
    ensures
        with_rotation(st, v) is Ok <==> (parse_u32(v) matches Some(x) && (x == 0 || x == 90 || x == 180 || x
            == 270)),
        with_rotation(st, v) matches Ok(next) ==> next.rotation == parse_u32(v) && next.backup == st.backup
            && next.files == st.files,
        with_rotation(st, v) matches Err(e) ==> e == v,
{
}

/// The text of the documented rotations 0, 90, 180 and 270.
pub open spec fn documented_rotation_text(v: u32) -> Seq<char> {
    if v == 0 {
        seq!['0']
    } else if v == 90 {
        seq!['9', '0']
    } else if v == 180 {
        seq!['1', '8', '0']
    } else {
        seq!['2', '7', '0']
    }
}

/// Each documented rotation, given alone with either option name, is taken
/// as it is written.
pub proof fn lemma_documented_rotations_accepted(v: u32, long: bool)
    requires
        v == 0 || v == 90 || v == 180 || v == 270,
    ensures
        spec_parse_args(seq![(if long { rotate_long() } else { rotate_short() }) + documented_rotation_text(v)])
            == Ok::<SpecCliArgs, Seq<char>>(SpecCliArgs { rotation: Some(v), backup: None, files: seq![] }),
{
    let prefix = if long { rotate_long() } else { rotate_short() };
    let d = documented_rotation_text(v);
    let arg = prefix + d;
    let args = seq![arg];
    assert(args.drop_last() =~= Seq::<Seq<char>>::empty());
    assert(arg.take(1) =~= dash());
    assert(arg.skip(prefix.len() as int) =~= d);
    assert(arg != backup_long()) by {
        if long {
            assert(arg[2] != backup_long()[2]);
        } else {
            assert(arg.len() != backup_long().len());
        }
    }
    assert(arg != backup_short()) by {
        assert(arg.len() != backup_short().len());
    }
    if long {
        assert(!starts_with(arg, rotate_short())) by {
            assert(arg.take(3)[1] != rotate_short()[1]);
        }
        assert(arg.take(9) =~= rotate_long());
    } else {
        assert(arg.take(3) =~= rotate_short());
    }
    assert(unsigned_digits(d) == d);
    assert(all_digits(d));
    reveal_with_fuel(digits_value, 4);
    assert(digits_value(d) == v as nat) by {
        if v == 90 {
            assert(d.drop_last() =~= seq!['9']);
            assert(d.drop_last().drop_last() =~= Seq::<char>::empty());
        } else if v == 180 {
            assert(d.drop_last() =~= seq!['1', '8']);
            assert(d.drop_last().drop_last() =~= seq!['1']);
            assert(d.drop_last().drop_last().drop_last() =~= Seq::<char>::empty());
        } else if v == 270 {
            assert(d.drop_last() =~= seq!['2', '7']);
            assert(d.drop_last().drop_last() =~= seq!['2']);
            assert(d.drop_last().drop_last().drop_last() =~= Seq::<char>::empty());
        } else {
            assert(d.drop_last() =~= Seq::<char>::empty());
        }
    }
    assert(parse_u32(d) == Some(v));
    let st0 = SpecCliArgs { rotation: None, backup: None, files: seq![] };
    assert(spec_parse_args(args.drop_last()) == Ok::<SpecCliArgs, Seq<char>>(st0));
    assert(with_rotation(st0, d) == Ok::<SpecCliArgs, Seq<char>>(
        SpecCliArgs { rotation: Some(v), backup: None, files: seq![] },
    ));
    assert(starts_with(arg, dash()));
    if long {
        assert(arg.skip(9) == d);
    } else {
        assert(arg.skip(3) == d);
    }
    assert(spec_parse_args(args) == arg_step(st0, arg, 0));
}

} // verus!
