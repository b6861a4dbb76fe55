//! Text as sequences of characters: trimming, case-insensitive comparison
//! of ASCII words and decimal numbers, as the settings read them.

use vstd::prelude::*;

verus! {

/// The characters of `s`.
pub fn chars_of(s: &str) -> (v: Vec<char>)
    ensures
        v@ == s@,
{
    let mut v: Vec<char> = Vec::new();
    for c in it: s.chars()
        invariant
            v@ == it.seq().take(it.index() as int),
    {
        v.push(c);
    }
    v
}

/// Whether `c` is white space in the sense of Unicode's `White_Space`
/// property, which `char::is_whitespace` and `str::trim` follow.
pub open spec fn is_white(c: char) -> bool {
    let v = c as u32;
    ||| 9 <= v <= 13
    ||| v == 32
    ||| v == 0x85
    ||| v == 0xA0
    ||| v == 0x1680
    ||| 0x2000 <= v <= 0x200A
    ||| v == 0x2028
    ||| v == 0x2029
    ||| v == 0x202F
    ||| v == 0x205F
    ||| v == 0x3000
}

/// The characters that a trim removes: white space, or double quotes.
pub open spec fn strip_pred(quotes: bool) -> spec_fn(char) -> bool {
    if quotes {
        |c: char| c == '"'
    } else {
        |c: char| is_white(c)
    }
}

/// `s` without the characters satisfying `p` at its start.
pub open spec fn trim_start_by(s: Seq<char>, p: spec_fn(char) -> bool) -> Seq<char>
    decreases s.len(),
{
    if s.len() > 0 && p(s[0]) {
        trim_start_by(s.drop_first(), p)
    } else {
        s
    }
}

/// `s` without the characters satisfying `p` at its end.
pub open spec fn trim_end_by(s: Seq<char>, p: spec_fn(char) -> bool) -> Seq<char>
    decreases s.len(),
{
    if s.len() > 0 && p(s.last()) {
        trim_end_by(s.drop_last(), p)
    } else {
        s
    }
}

/// `s` without white space at either end, as `str::trim` gives it.
pub open spec fn trim(s: Seq<char>) -> Seq<char> {
    trim_end_by(trim_start_by(s, strip_pred(false)), strip_pred(false))
}

/// `s` without double quotes at either end, as `str::trim_matches('"')`
/// gives it.
pub open spec fn trim_quotes(s: Seq<char>) -> Seq<char> {
    trim_end_by(trim_start_by(s, strip_pred(true)), strip_pred(true))
}

fn strips(c: char, quotes: bool) -> (r: bool)
    ensures
        r == strip_pred(quotes)(c),
{
    if quotes {
        c == '"'
    } else {
        let v = c as u32;
        (9 <= v && v <= 13) || v == 32 || v == 0x85 || v == 0xA0 || v == 0x1680 || (0x2000 <= v
            && v <= 0x200A) || v == 0x2028 || v == 0x2029 || v == 0x202F || v == 0x205F || v
            == 0x3000
    }
}

proof fn lemma_trim_start_at(s: Seq<char>, p: spec_fn(char) -> bool, i: int)
    requires
        0 <= i <= s.len(),
        forall|j: int| 0 <= j < i ==> p(s[j]),
        i < s.len() ==> !p(s[i]),
    ensures
        trim_start_by(s, p) == s.skip(i),
    decreases i,
{
    if i == 0 {
        assert(s.skip(0) =~= s);
    } else {
        assert(p(s[0]));
        let t = s.drop_first();
        assert forall|j: int| 0 <= j < i - 1 implies p(t[j]) by {
            assert(t[j] == s[j + 1]);
        }
        lemma_trim_start_at(t, p, i - 1);
        assert(t.skip(i - 1) =~= s.skip(i));
    }
}

proof fn lemma_trim_end_at(s: Seq<char>, p: spec_fn(char) -> bool, j: int)
    requires
        0 <= j <= s.len(),
        forall|k: int| j <= k < s.len() ==> p(s[k]),
        j > 0 ==> !p(s[j - 1]),
    ensures
        trim_end_by(s, p) == s.take(j),
    decreases s.len() - j,
{
    if j == s.len() {
        assert(s.take(j) =~= s);
    } else {
        assert(p(s.last()));
        let t = s.drop_last();
        lemma_trim_end_at(t, p, j);
        assert(t.take(j) =~= s.take(j));
    }
}

/// The bounds of `s[a..b]` once trimmed of white space (`quotes == false`)
/// or of double quotes (`quotes == true`) at both ends.
pub fn trim_range(s: &Vec<char>, a: usize, b: usize, quotes: bool) -> (r: (usize, usize))
    requires
        a <= b <= s@.len(),
    ensures
        a <= r.0 <= r.1 <= b,
        s@.subrange(r.0 as int, r.1 as int) == trim_end_by(
            trim_start_by(s@.subrange(a as int, b as int), strip_pred(quotes)),
            strip_pred(quotes),
        ),
{
    let ghost p = strip_pred(quotes);
    let mut i = a;
    while i < b && strips(s[i], quotes)
        invariant
            a <= i <= b <= s@.len(),
            p == strip_pred(quotes),
            forall|j: int| a <= j < i ==> p(s@[j]),
        decreases b - i,
    {
        i += 1;
    }
    let mut j = b;
    while j > i && strips(s[j - 1], quotes)
        invariant
            a <= i <= j <= b <= s@.len(),
            p == strip_pred(quotes),
            forall|k: int| j <= k < b ==> p(s@[k]),
        decreases j - i,
    {
        j -= 1;
    }
    proof {
        let t = s@.subrange(a as int, b as int);
        assert forall|k: int| 0 <= k < i - a implies p(t[k]) by {
            assert(t[k] == s@[a + k]);
        }
        lemma_trim_start_at(t, p, i - a);
        let u = t.skip(i - a);
        assert(u =~= s@.subrange(i as int, b as int));
        assert forall|k: int| j - i <= k < u.len() implies p(u[k]) by {
            assert(u[k] == s@[i + k]);
        }
        lemma_trim_end_at(u, p, j - i);
        assert(u.take(j - i) =~= s@.subrange(i as int, j as int));
    }
    (i, j)
}

/// The code of `c` with ASCII capitals turned to small letters.
pub open spec fn lower_code(c: char) -> u32 {
    let v = c as u32;
    if 65 <= v <= 90 {
        (v + 32) as u32
    } else {
        v
    }
}

/// Whether `s` and `word` are equal but for the case of ASCII letters, as
/// `str::eq_ignore_ascii_case` tells.
pub open spec fn eq_ignore_ascii_case(s: Seq<char>, word: Seq<char>) -> bool {
    &&& s.len() == word.len()
    &&& forall|i: int| 0 <= i < s.len() ==> lower_code(#[trigger] s[i]) == lower_code(word[i])
}

fn lower(c: char) -> (r: u32)
    ensures
        r == lower_code(c),
{
    let v = c as u32;
    if 65 <= v && v <= 90 {
        v + 32
    } else {
        v
    }
}

/// Whether `s[a..b]` equals `word` but for the case of ASCII letters.
pub fn range_eq_ignore_ascii_case(s: &Vec<char>, a: usize, b: usize, word: &Vec<char>) -> (r: bool)
    requires
        a <= b <= s@.len(),
    ensures
        r == eq_ignore_ascii_case(s@.subrange(a as int, b as int), word@),
{
    if b - a != word.len() {
        return false;
    }
    let mut i: usize = 0;
    while i < word.len()
        invariant
            b - a == word@.len(),
            a <= b <= s@.len(),
            i <= word@.len(),
            forall|k: int| 0 <= k < i ==> lower_code(s@[a + k]) == lower_code(word@[k]),
        decreases word.len() - i,
    {
        if lower(s[a + i]) != lower(word[i]) {
            assert(s@.subrange(a as int, b as int)[i as int] == s@[a + i]);
            return false;
        }
        i += 1;
    }
    proof {
        let t = s@.subrange(a as int, b as int);
        assert forall|k: int| 0 <= k < t.len() implies lower_code(#[trigger] t[k]) == lower_code(word@[k]) by {
            assert(t[k] == s@[a + k]);
        }
    }
    true
}

/// Whether `c` is a decimal digit.
pub open spec fn is_digit(c: char) -> bool {
    '0' <= c <= '9'
}

/// The number that the decimal digits `d` write.
pub open spec fn digits_value(d: Seq<char>) -> nat
    decreases d.len(),
{
    if d.len() == 0 {
        0
    } else {
        digits_value(d.drop_last()) * 10 + (d.last() as nat - '0' as nat) as nat
    }
}

/// The digits of a decimal number after its optional leading `+`.
pub open spec fn unsigned_digits(s: Seq<char>) -> Seq<char> {
    if s.len() > 0 && s[0] == '+' {
        s.drop_first()
    } else {
        s
    }
}

/// Whether every character of `d` is a decimal digit.
pub open spec fn all_digits(d: Seq<char>) -> bool {
    forall|i: int| 0 <= i < d.len() ==> is_digit(#[trigger] d[i])
}

/// The number that `s` writes in decimal, with an optional leading `+`, when
/// it fits in 32 bits, as `u32::from_str` reads it.
pub open spec fn parse_u32(s: Seq<char>) -> Option<u32> {
    let d = unsigned_digits(s);
    if d.len() == 0 || !all_digits(d) || digits_value(d) > u32::MAX {
        None
    } else {
        Some(digits_value(d) as u32)
    }
}

/// The number that `s[a..b]` writes in decimal, as `u32::from_str` reads it.
pub fn parse_u32_range(s: &Vec<char>, a: usize, b: usize) -> (r: Option<u32>)
    requires
        a <= b <= s@.len(),
    ensures
        r == parse_u32(s@.subrange(a as int, b as int)),
{
    let ghost t = s@.subrange(a as int, b as int);
    let start = if a < b && s[a] == '+' { a + 1 } else { a };
    let ghost d = s@.subrange(start as int, b as int);
    assert(d =~= unsigned_digits(t));
    if start == b {
        return None;
    }
    let mut value: u64 = 0;
    let mut big = false;
    let mut i = start;
    while i < b
        invariant
            start <= i <= b <= s@.len(),
            d == s@.subrange(start as int, b as int),
            t == s@.subrange(a as int, b as int),
            d == unsigned_digits(t),
            forall|k: int| start <= k < i ==> is_digit(s@[k]),
            big ==> digits_value(s@.subrange(start as int, i as int)) > u32::MAX,
            !big ==> value == digits_value(s@.subrange(start as int, i as int)) && value <= u32::MAX,
        decreases b - i,
    {
        let c = s[i];
        if !('0' <= c && c <= '9') {
            assert(d[i - start] == c);
            assert(!all_digits(d));
            return None;
        }
        let ghost prefix = s@.subrange(start as int, i + 1);
        assert(prefix.drop_last() =~= s@.subrange(start as int, i as int));
        if !big {
            value = value * 10 + (c as u64 - '0' as u64);
            if value > u32::MAX as u64 {
                big = true;
            }
        }
        i += 1;
    }
    assert(s@.subrange(start as int, b as int) =~= d);
    if big {
        None
    } else {
        Some(value as u32)
    }
}

} // verus!
