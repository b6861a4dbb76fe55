//! The settings file: an INI text whose `rotate` and `backup` keys give the
//! defaults that the command line may override.

use vstd::prelude::*;

use crate::text::{
    chars_of, eq_ignore_ascii_case, lower_code, parse_u32, parse_u32_range, range_eq_ignore_ascii_case, trim,
    trim_quotes, trim_range,
};

verus! {

/// The defaults read from the settings file.
#[derive(Debug, Clone, Copy, PartialEq, Eq)]
pub struct Config {
    /// The rotation to apply, in degrees: 0, 90, 180 or 270.
    pub rotation: Option<u32>,
    /// Whether to back the file up before changing it.
    pub backup: Option<bool>,
}

/// The lines of `s`, split at each `'\n'`: the text after the last one is a
/// line of its own, empty when `s` ends with `'\n'`. (Empty lines change no
/// setting, so this reads the same as `str::lines`, which leaves that last
/// empty line out, and whose `"\r\n"` endings the trim of each line undoes.)
pub open spec fn split_lines(s: Seq<char>) -> Seq<Seq<char>>
    decreases s.len(),
{
    if s.len() == 0 {
        seq![seq![]]
    } else {
        let r = split_lines(s.drop_last());
        if s.last() == '\n' {
            r.push(seq![])
        } else {
            r.update(r.len() - 1, r.last().push(s.last()))
        }
    }
}

/// The index of the first `c` in `s`, if any.
pub open spec fn first_index_of(s: Seq<char>, c: char) -> Option<int>
    decreases s.len(),
{
    if s.len() == 0 {
        None
    } else if s[0] == c {
        Some(0)
    } else {
        match first_index_of(s.drop_first(), c) {
            Some(i) => Some(i + 1),
            None => None,
        }
    }
}

pub open spec fn rotate_word() -> Seq<char> {
    seq!['r', 'o', 't', 'a', 't', 'e']
}

pub open spec fn backup_word() -> Seq<char> {
    seq!['b', 'a', 'c', 'k', 'u', 'p']
}

pub open spec fn true_word() -> Seq<char> {
    seq!['t', 'r', 'u', 'e']
}

pub open spec fn false_word() -> Seq<char> {
    seq!['f', 'a', 'l', 's', 'e']
}

/// One of the rotations that a setting may give.
pub open spec fn allowed_rotation(v: u32) -> bool {
    v == 0 || v == 90 || v == 180 || v == 270
}

/// The settings after one line. Once trimmed, an empty line or one that
/// starts with `;`, `#` or `[` changes nothing; any other line must hold a
/// `=` (else the whole file is refused), before which stands the key and
/// after which the value, both trimmed, the value also of double quotes.
/// Key `rotate` (in any case) sets the rotation to a value of 0, 90, 180 or
/// 270; key `backup` sets backing up on value `true` or off on `false` (in
/// any case); other keys and values change nothing.
pub open spec fn ini_line(cfg: Config, line: Seq<char>) -> Option<Config> {
    let t = trim(line);
    if t.len() == 0 || t[0] == ';' || t[0] == '#' || t[0] == '[' {
        Some(cfg)
    } else {
        match first_index_of(t, '=') {
            None => None,
            Some(i) => {
                let key = trim(t.take(i));
                let value = trim_quotes(trim(t.skip(i + 1)));
                if eq_ignore_ascii_case(key, rotate_word()) {
                    match parse_u32(value) {
                        Some(v) => if allowed_rotation(v) {
                            Some(Config { rotation: Some(v), backup: cfg.backup })
                        } else {
                            Some(cfg)
                        },
                        None => Some(cfg),
                    }
                } else if eq_ignore_ascii_case(key, backup_word()) {
                    if eq_ignore_ascii_case(value, true_word()) {
                        Some(Config { rotation: cfg.rotation, backup: Some(true) })
                    } else if eq_ignore_ascii_case(value, false_word()) {
                        Some(Config { rotation: cfg.rotation, backup: Some(false) })
                    } else {
                        Some(cfg)
                    }
                } else {
                    Some(cfg)
                }
            },
        }
    }
}

/// The settings after `lines`, from none set, in order.
pub open spec fn ini_lines(lines: Seq<Seq<char>>) -> Option<Config>
    decreases lines.len(),
{
    if lines.len() == 0 {
        Some(Config { rotation: None, backup: None })
    } else {
        match ini_lines(lines.drop_last()) {
            None => None,
            Some(cfg) => ini_line(cfg, lines.last()),
        }
    }
}

/// The settings that the text of a settings file gives.
pub open spec fn spec_from_ini(content: Seq<char>) -> Option<Config> {
    ini_lines(split_lines(content))
}

proof fn lemma_first_index_at(s: Seq<char>, c: char, i: int)
    requires
        0 <= i <= s.len(),
        forall|k: int| 0 <= k < i ==> s[k] != c,
        i < s.len() ==> s[i] == c,
    ensures
        first_index_of(s, c) == (if i < s.len() { Some(i) } else { None::<int> }),
    decreases i,
{
    if i > 0 {
        let t = s.drop_first();
        assert forall|k: int| 0 <= k < i - 1 implies t[k] != c by {
            assert(t[k] == s[k + 1]);
        }
        lemma_first_index_at(t, c, i - 1);
    }
}

/// The offset of the first `c` in `s[a..b]`.
fn find_char(s: &Vec<char>, a: usize, b: usize, c: char) -> (r: Option<usize>)
    requires
        a <= b <= s@.len(),
    ensures
        match r {
            Some(e) => a <= e < b && first_index_of(s@.subrange(a as int, b as int), c) == Some(e - a),
            None => first_index_of(s@.subrange(a as int, b as int), c) is None,
        },
{
    let mut i = a;
    while i < b
        invariant
            a <= i <= b <= s@.len(),
            forall|k: int| a <= k < i ==> s@[k] != c,
        decreases b - i,
    {
        if s[i] == c {
            proof {
                let t = s@.subrange(a as int, b as int);
                assert forall|k: int| 0 <= k < i - a implies t[k] != c by {
                    assert(t[k] == s@[a + k]);
                }
                lemma_first_index_at(t, c, i - a);
            }
            return Some(i);
        }
        i += 1;
    }
    proof {
        let t = s@.subrange(a as int, b as int);
        assert forall|k: int| 0 <= k < b - a implies t[k] != c by {
            assert(t[k] == s@[a + k]);
        }
        lemma_first_index_at(t, c, b - a);
    }
    None
}

/// The settings after the line `s[a..b]`.
fn apply_line(s: &Vec<char>, a: usize, b: usize, cfg: Config) -> (r: Option<Config>)
    requires
        a <= b <= s@.len(),
    ensures
        r == ini_line(cfg, s@.subrange(a as int, b as int)),
{
    let (ta, tb) = trim_range(s, a, b, false);
    let ghost t = s@.subrange(ta as int, tb as int);
    if ta == tb || s[ta] == ';' || s[ta] == '#' || s[ta] == '[' {
        assert(ta < tb ==> t[0] == s@[ta as int]);
        return Some(cfg);
    }
    assert(t[0] == s@[ta as int]);
    let eq = match find_char(s, ta, tb, '=') {
        None => {
            return None;
        },
        Some(e) => e,
    };
    let ghost i = eq - ta;
    assert(t.take(i) =~= s@.subrange(ta as int, eq as int));
    assert(t.skip(i + 1) =~= s@.subrange(eq + 1, tb as int));
    let (ka, kb) = trim_range(s, ta, eq, false);
    let (va, vb) = trim_range(s, eq + 1, tb, false);
    let (qa, qb) = trim_range(s, va, vb, true);
    let rotate = vec!['r', 'o', 't', 'a', 't', 'e'];
    let backup = vec!['b', 'a', 'c', 'k', 'u', 'p'];
    let ghost key = trim(t.take(i));
    let ghost value = trim_quotes(trim(t.skip(i + 1)));
    assert(rotate@ == rotate_word());
    assert(backup@ == backup_word());
    assert(s@.subrange(ka as int, kb as int) == key);
    assert(s@.subrange(qa as int, qb as int) == value);
    assert(first_index_of(t, '=') == Some(i));
    if range_eq_ignore_ascii_case(s, ka, kb, &rotate) {
        match parse_u32_range(s, qa, qb) {
            Some(v) => if v == 0 || v == 90 || v == 180 || v == 270 {
                Some(Config { rotation: Some(v), backup: cfg.backup })
            } else {
                Some(cfg)
            },
            None => Some(cfg),
        }
    } else if range_eq_ignore_ascii_case(s, ka, kb, &backup) {
        let true_w = vec!['t', 'r', 'u', 'e'];
        let false_w = vec!['f', 'a', 'l', 's', 'e'];
        assert(true_w@ == true_word());
        assert(false_w@ == false_word());
        if range_eq_ignore_ascii_case(s, qa, qb, &true_w) {
            Some(Config { rotation: cfg.rotation, backup: Some(true) })
        } else if range_eq_ignore_ascii_case(s, qa, qb, &false_w) {
            Some(Config { rotation: cfg.rotation, backup: Some(false) })
        } else {
            Some(cfg)
        }
    } else {
        Some(cfg)
    }
}

proof fn lemma_split_lines_nonempty(s: Seq<char>)
    ensures
        split_lines(s).len() >= 1,
    decreases s.len(),
{
    if s.len() > 0 {
        lemma_split_lines_nonempty(s.drop_last());
    }
}

impl Config {
    /// The settings that the text of a settings file gives, or `None` when a
    /// line that is neither empty, a comment nor a section header holds no
    /// `=`.
    pub fn from_ini(content: &str) -> (r: Option<Config>)
        ensures
            r == spec_from_ini(content@),
    {
        let s = chars_of(content);
        let mut cfg = Config { rotation: None, backup: None };
        let ghost mut done: Seq<Seq<char>> = seq![];
        let mut ls: usize = 0;
        let mut i: usize = 0;
        proof {
            assert(s@.take(0) =~= Seq::<char>::empty());
            assert(done.push(s@.subrange(0, 0)) =~= seq![Seq::<char>::empty()]);
        }
        while i < s.len()
            invariant
                ls <= i <= s@.len(),
                s@ == content@,
                split_lines(s@.take(i as int)) == done.push(s@.subrange(ls as int, i as int)),
                ini_lines(done) == Some(cfg),
            decreases s.len() - i,
        {
            proof {
                assert(s@.take(i + 1).drop_last() =~= s@.take(i as int));
                lemma_split_lines_nonempty(s@.take(i as int));
            }
            if s[i] == '\n' {
                let line_end = i;
                match apply_line(&s, ls, line_end, cfg) {
                    None => {
                        proof {
                            assert(ini_lines(done.push(s@.subrange(ls as int, i as int))) == None::<Config>) by {
                                assert(done.push(s@.subrange(ls as int, i as int)).drop_last() =~= done);
                            }
                            lemma_ini_lines_stays_none(content@, i as int, done.push(s@.subrange(ls as int, i as int)));
                        }
                        return None;
                    },
                    Some(c) => {
                        proof {
                            let l = s@.subrange(ls as int, i as int);
                            assert(done.push(l).drop_last() =~= done);
                            done = done.push(l);
                        }
                        cfg = c;
                        ls = i + 1;
                    },
                }
            } else {
                proof {
                    assert(s@.subrange(ls as int, i + 1) =~= s@.subrange(ls as int, i as int).push(s@[i as int]));
                    assert(done.push(s@.subrange(ls as int, i as int)).update(done.len() as int,
                        s@.subrange(ls as int, i + 1)) =~= done.push(s@.subrange(ls as int, i + 1)));
                }
            }
            i += 1;
            proof {
                if s@[i - 1] == '\n' {
                    assert(s@.subrange(ls as int, i as int) =~= Seq::<char>::empty());
                }
            }
        }
        assert(s@.take(s@.len() as int) =~= s@);
        let r = apply_line(&s, ls, s.len(), cfg);
        proof {
            assert(done.push(s@.subrange(ls as int, s@.len() as int)).drop_last() =~= done);
        }
        r
    }
}

/// Once a line is refused, the lines after it do not bring the settings
/// back: `ini_lines` of any longer list of lines is `None` as well.
proof fn lemma_ini_lines_stays_none(content: Seq<char>, i: int, prefix: Seq<Seq<char>>)
    requires
        0 <= i < content.len(),
        ini_lines(prefix) == None::<Config>,
        split_lines(content.take(i + 1)) == prefix.push(seq![]),
    ensures
        spec_from_ini(content) == None::<Config>,
{
    assert(prefix.push(seq![]).drop_last() =~= prefix);
    lemma_ini_none_extends(content, i + 1, prefix.push(seq![]));
}

proof fn lemma_ini_none_extends(content: Seq<char>, j: int, lines: Seq<Seq<char>>)
    requires
        0 <= j <= content.len(),
        split_lines(content.take(j)) == lines,
        lines.len() >= 1,
        ini_lines(lines.drop_last()) == None::<Config>,
    ensures
        spec_from_ini(content) == None::<Config>,
    decreases content.len() - j,
{
    if j == content.len() {
        assert(content.take(j) =~= content);
    } else {
        assert(content.take(j + 1).drop_last() =~= content.take(j));
        let next = split_lines(content.take(j + 1));
        if content[j] == '\n' {
            assert(next.drop_last() =~= lines);
            lemma_ini_none_extends(content, j + 1, next);
        } else {
            assert(next.drop_last() =~= lines.drop_last());
            lemma_ini_none_extends(content, j + 1, next);
        }
    }
}

/// A line that changes no setting: once trimmed, empty, a comment, a
/// section header, or a `key = value` line whose key is neither `rotate` nor
/// `backup` (in any case).
pub open spec fn ignorable_line(line: Seq<char>) -> bool {
    let t = trim(line);
    ||| t.len() == 0
    ||| t[0] == ';'
    ||| t[0] == '#'
    ||| t[0] == '['
    ||| (first_index_of(t, '=') matches Some(i) && !eq_ignore_ascii_case(trim(t.take(i)), rotate_word())
        && !eq_ignore_ascii_case(trim(t.take(i)), backup_word()))
}

/// Appending to `s` characters none of which is `'\n'` extends its last line.
proof fn lemma_split_lines_append(s: Seq<char>, tail: Seq<char>)
    requires
        !tail.contains('\n'),
    ensures
        split_lines(s + tail) == split_lines(s).update(
            split_lines(s).len() - 1,
            split_lines(s).last() + tail,
        ),
    decreases tail.len(),
{
    lemma_split_lines_nonempty(s);
    if tail.len() == 0 {
        assert(s + tail =~= s);
        assert(split_lines(s).last() + tail =~= split_lines(s).last());
        assert(split_lines(s).update(split_lines(s).len() - 1, split_lines(s).last()) =~= split_lines(s));
    } else {
        let front = tail.drop_last();
        assert(!front.contains('\n')) by {
            assert forall|k: int| 0 <= k < front.len() implies front[k] != '\n' by {
                assert(front[k] == tail[k]);
            }
        }
        lemma_split_lines_append(s, front);
        assert((s + tail).drop_last() =~= s + front);
        assert((s + tail).last() == tail.last());
        assert(tail.last() != '\n') by {
            assert(tail[tail.len() - 1] == tail.last());
        }
        let r = split_lines(s + front);
        assert(r.last() == split_lines(s).last() + front);
        assert(r.last().push(tail.last()) =~= split_lines(s).last() + tail);
        assert(r.update(r.len() - 1, r.last().push(tail.last())) =~= split_lines(s).update(
            split_lines(s).len() - 1,
            split_lines(s).last() + tail,
        ));
    }
}

/// Appending to a settings file a line that changes no setting (a blank
/// line, a comment, a section header or a line with another key) leaves the
/// settings it gives as they were, and a refused file stays refused.
pub proof fn lemma_ignorable_line_appended(content: Seq<char>, line: Seq<char>)
    requires
        !line.contains('\n'),
        ignorable_line(line),
    ensures
        spec_from_ini(content + seq!['\n'] + line) == spec_from_ini(content),
{
    lemma_line_appended(content, line);
    match spec_from_ini(content) {
        None => {},
        Some(c) => {
            assert(ini_line(c, line) == Some(c));
        },
    }
}

/// The key of a settings line: the trimmed text before its first `=`, for a
/// line that is neither empty, a comment nor a section header.
pub open spec fn line_key(line: Seq<char>) -> Option<Seq<char>> {
    let t = trim(line);
    if t.len() == 0 || t[0] == ';' || t[0] == '#' || t[0] == '[' {
        None
    } else {
        match first_index_of(t, '=') {
            Some(i) => Some(trim(t.take(i))),
            None => None,
        }
    }
}

/// Each key is a frame for the other setting: a `rotate` line never changes
/// the backup setting and a `backup` line never changes the rotation; a line
/// with another key, or with none, changes nothing. A line changes at most
/// one setting; a rotation it sets is 0, 90, 180 or 270, and a backup setting
/// it changes is set, never cleared.
pub proof fn lemma_line_changes_its_own_setting(cfg: Config, line: Seq<char>)
    ensures
        ini_line(cfg, line) matches Some(c) ==> {
            &&& (line_key(line) matches Some(k) && eq_ignore_ascii_case(k, rotate_word()) ==> c.backup
                == cfg.backup)
            &&& (line_key(line) matches Some(k) && eq_ignore_ascii_case(k, backup_word()) ==> c.rotation
                == cfg.rotation)
            &&& (line_key(line) matches Some(k) && !eq_ignore_ascii_case(k, rotate_word())
                && !eq_ignore_ascii_case(k, backup_word()) ==> c == cfg)
            &&& (line_key(line) is None ==> c == cfg)
            &&& (c.rotation == cfg.rotation || c.backup == cfg.backup)
            &&& (c.rotation != cfg.rotation ==> (c.rotation matches Some(v) && (v == 0 || v == 90 || v == 180
                || v == 270)))
            &&& (c.backup != cfg.backup ==> c.backup is Some)
        },
{
    if let Some(k) = line_key(line) {
        if eq_ignore_ascii_case(k, rotate_word()) && eq_ignore_ascii_case(k, backup_word()) {
            assert(lower_code(k[0]) == lower_code(rotate_word()[0]));
            assert(lower_code(k[0]) == lower_code(backup_word()[0]));
            assert(false);
        }
    }
}

/// The settings of a file with one more line, without `'\n'`, are those of
/// the file with that line applied to them; a refused file stays refused.
pub proof fn lemma_line_appended(content: Seq<char>, line: Seq<char>)
    requires
        !line.contains('\n'),
    ensures
        spec_from_ini(content + seq!['\n'] + line) == (match spec_from_ini(content) {
            None => None,
            Some(c) => ini_line(c, line),
        }),
{
    let s1 = content + seq!['\n'];
    lemma_split_lines_nonempty(content);
    assert(s1.drop_last() =~= content);
    assert(s1.last() == '\n');
    assert(split_lines(s1) == split_lines(content).push(seq![]));
    lemma_split_lines_append(s1, line);
    let lines = split_lines(content);
    assert(Seq::<char>::empty() + line =~= line);
    assert(split_lines(s1 + line) =~= lines.push(line));
    assert(lines.push(line).drop_last() =~= lines);
}

/// Appending a line to a settings file that gives settings changes at most
/// one of them: a `rotate` line keeps the backup setting and a `backup` line
/// keeps the rotation.
pub proof fn lemma_appended_line_keeps_other_setting(content: Seq<char>, line: Seq<char>)
    requires
        !line.contains('\n'),
    ensures
        spec_from_ini(content) matches Some(before) ==> (spec_from_ini(content + seq!['\n'] + line) matches Some(
            after,
        ) ==> {
            &&& (line_key(line) matches Some(k) && eq_ignore_ascii_case(k, rotate_word()) ==> after.backup
                == before.backup)
            &&& (line_key(line) matches Some(k) && eq_ignore_ascii_case(k, backup_word()) ==> after.rotation
                == before.rotation)
            &&& (after.rotation == before.rotation || after.backup == before.backup)
        }),
{
    lemma_line_appended(content, line);
    if let Some(before) = spec_from_ini(content) {
        lemma_line_changes_its_own_setting(before, line);
    }
}

} // verus!
