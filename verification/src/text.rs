//! Character classes and small verified text operations.

use vstd::prelude::*;
use vstd::string::*;

verus! {

/// Whether `c` has the Unicode `White_Space` property: the 25 code points in
/// these 10 ranges (the `White_Space` list of the Unicode Character Database,
/// as regex-syntax's `perl_space` table also gives it for `\s`).
pub open spec fn white_space(c: char) -> bool {
    let u = c as int;
    ||| 0x9 <= u <= 0xd
    ||| u == 0x20
    ||| u == 0x85
    ||| u == 0xa0
    ||| u == 0x1680
    ||| 0x2000 <= u <= 0x200a
    ||| 0x2028 <= u <= 0x2029
    ||| u == 0x202f
    ||| u == 0x205f
    ||| u == 0x3000
}

/// Whether `c` is one of the ASCII word characters `[0-9A-Za-z_]`.
pub open spec fn ascii_word(c: char) -> bool {
    let u = c as int;
    ||| 0x30 <= u <= 0x39
    ||| 0x41 <= u <= 0x5a
    ||| u == 0x5f
    ||| 0x61 <= u <= 0x7a
}

/// Whether a character outside ASCII that is not white space is a Unicode
/// word character, as `regex_syntax::is_word_character` reports it.
pub uninterp spec fn word_beyond_ascii(c: char) -> bool;

/// Whether `c` is a Unicode word character (`\w`): among ASCII exactly
/// `[0-9A-Za-z_]`, never a white-space character, and otherwise as
/// `word_beyond_ascii` names it.
pub open spec fn word_char(c: char) -> bool {
    if (c as int) < 0x80 {
        ascii_word(c)
    } else if white_space(c) {
        false
    } else {
        word_beyond_ascii(c)
    }
}

/// Whether `c` has the Unicode `White_Space` property, as `char::is_whitespace`
/// reports it: the code points listed in `white_space`.
pub fn is_white_space(c: char) -> (r: bool)
    ensures
        r == white_space(c),
{
    let u = c as u32;
    (0x9 <= u && u <= 0xd) || u == 0x20 || u == 0x85 || u == 0xa0 || u == 0x1680 || (0x2000 <= u
        && u <= 0x200a) || (0x2028 <= u && u <= 0x2029) || u == 0x202f || u == 0x205f || u
        == 0x3000
}

/// Calls `regex_syntax::is_word_character`. Claimed, as the crate's source
/// shows it: the ASCII word bytes `[0-9A-Za-z_]` are word characters (its fast
/// path) and no other ASCII character is, nor any white-space character (its
/// `PERL_WORD` table holds no such code point); for the other characters the
/// answer depends on `c` alone and is named `word_beyond_ascii(c)`. The call does
/// not panic, since the crate is built with its default `unicode-perl` tables.
#[verifier::external_body]
pub fn is_word_char(c: char) -> (r: bool)
    ensures
        r == word_char(c),
        (c as int) >= 0x80 && !white_space(c) ==> r == word_beyond_ascii(c),
{
    regex_syntax::is_word_character(c)
}

/// The characters of `s`, in order.
pub fn chars_of(s: &str) -> (r: Vec<char>)
    ensures
        r@ == s@,
{
    let n = s.unicode_len();
    let mut r: Vec<char> = Vec::new();
    for i in 0..n
        invariant
            n == s@.len(),
            r@ == s@.subrange(0, i as int),
    {
        r.push(s.get_char(i));
        assert(r@ =~= s@.subrange(0, i + 1));
    }
    assert(r@ =~= s@);
    r
}

/// The text of `s` between character positions `from` and `to`.
pub fn slice_of(s: &str, from: usize, to: usize) -> (r: String)
    requires
        from <= to <= s@.len(),
    ensures
        r@ == s@.subrange(from as int, to as int),
{
    String::from_str(s.substring_char(from, to))
}

/// First position at or after `i` that does not hold white space (or the end).
pub open spec fn ws_end(s: Seq<char>, i: int) -> int
    decreases s.len() - i,
{
    if 0 <= i < s.len() && white_space(s[i]) {
        ws_end(s, i + 1)
    } else {
        i
    }
}

/// First position at or after `i` that does not hold a word character (or the end).
pub open spec fn word_end(s: Seq<char>, i: int) -> int
    decreases s.len() - i,
{
    if 0 <= i < s.len() && word_char(s[i]) {
        word_end(s, i + 1)
    } else {
        i
    }
}

/// First position at or after `i` that holds `c` (or the end).
pub open spec fn find_from(s: Seq<char>, c: char, i: int) -> int
    decreases s.len() - i,
{
    if 0 <= i < s.len() && s[i] != c {
        find_from(s, c, i + 1)
    } else {
        i
    }
}

/// Last position at or before `j` that is preceded by no white space (or the start).
pub open spec fn ws_start(s: Seq<char>, j: int) -> int
    decreases j,
{
    if 0 < j <= s.len() && white_space(s[j - 1]) {
        ws_start(s, j - 1)
    } else {
        j
    }
}

/// `s` without its leading and trailing white space.
pub open spec fn trimmed(s: Seq<char>) -> Seq<char> {
    let a = ws_end(s, 0);
    let b = ws_start(s, s.len() as int);
    if a < b {
        s.subrange(a, b)
    } else {
        Seq::empty()
    }
}

pub proof fn lemma_ws_end_bounds(s: Seq<char>, i: int)
    requires
        0 <= i <= s.len(),
    ensures
        i <= ws_end(s, i) <= s.len(),
        forall|k: int| i <= k < ws_end(s, i) ==> white_space(#[trigger] s[k]),
        ws_end(s, i) < s.len() ==> !white_space(s[ws_end(s, i)]),
    decreases s.len() - i,
{
    if i < s.len() && white_space(s[i]) {
        lemma_ws_end_bounds(s, i + 1);
    }
}

pub proof fn lemma_word_end_bounds(s: Seq<char>, i: int)
    requires
        0 <= i <= s.len(),
    ensures
        i <= word_end(s, i) <= s.len(),
        forall|k: int| i <= k < word_end(s, i) ==> word_char(#[trigger] s[k]),
        word_end(s, i) < s.len() ==> !word_char(s[word_end(s, i)]),
    decreases s.len() - i,
{
    if i < s.len() && word_char(s[i]) {
        lemma_word_end_bounds(s, i + 1);
    }
}

pub proof fn lemma_find_from_bounds(s: Seq<char>, c: char, i: int)
    requires
        0 <= i <= s.len(),
    ensures
        i <= find_from(s, c, i) <= s.len(),
        forall|k: int| i <= k < find_from(s, c, i) ==> #[trigger] s[k] != c,
        find_from(s, c, i) < s.len() ==> s[find_from(s, c, i)] == c,
    decreases s.len() - i,
{
    if i < s.len() && s[i] != c {
        lemma_find_from_bounds(s, c, i + 1);
    }
}

pub proof fn lemma_ws_start_bounds(s: Seq<char>, j: int)
    requires
        0 <= j <= s.len(),
    ensures
        0 <= ws_start(s, j) <= j,
        forall|k: int| ws_start(s, j) <= k < j ==> white_space(#[trigger] s[k]),
        ws_start(s, j) > 0 ==> !white_space(s[ws_start(s, j) - 1]),
    decreases j,
{
    if 0 < j && white_space(s[j - 1]) {
        lemma_ws_start_bounds(s, j - 1);
    }
}

/// Position of the first character at or after `i` that is not white space.
pub fn skip_white(s: &Vec<char>, i: usize) -> (r: usize)
    requires
        i <= s@.len(),
    ensures
        r == ws_end(s@, i as int),
{
    let mut k = i;
    while k < s.len() && is_white_space(s[k])
        invariant
            i <= k <= s@.len(),
            ws_end(s@, i as int) == ws_end(s@, k as int),
        decreases s@.len() - k,
    {
        k = k + 1;
    }
    k
}

/// Position of the first character at or after `i` that is not a word character.
pub fn skip_word(s: &Vec<char>, i: usize) -> (r: usize)
    requires
        i <= s@.len(),
    ensures
        r == word_end(s@, i as int),
{
    let mut k = i;
    while k < s.len() && is_word_char(s[k])
        invariant
            i <= k <= s@.len(),
            word_end(s@, i as int) == word_end(s@, k as int),
        decreases s@.len() - k,
    {
        k = k + 1;
    }
    k
}

/// Position of the first `c` at or after `i` (or the length of `s`).
pub fn find_char(s: &Vec<char>, c: char, i: usize) -> (r: usize)
    requires
        i <= s@.len(),
    ensures
        r == find_from(s@, c, i as int),
{
    let mut k = i;
    while k < s.len() && s[k] != c
        invariant
            i <= k <= s@.len(),
            find_from(s@, c, i as int) == find_from(s@, c, k as int),
        decreases s@.len() - k,
    {
        k = k + 1;
    }
    k
}

/// `s` without leading and trailing white space, as `str::trim` gives it.
pub fn trim(s: &str) -> (r: String)
    ensures
        r@ == trimmed(s@),
{
    let cs = chars_of(s);
    let n = cs.len();
    let a = skip_white(&cs, 0);
    let mut b = n;
    while b > 0 && is_white_space(cs[b - 1])
        invariant
            b <= n == cs@.len(),
            ws_start(cs@, n as int) == ws_start(cs@, b as int),
        decreases b,
    {
        b = b - 1;
    }
    if a < b {
        slice_of(s, a, b)
    } else {
        String::new()
    }
}

} // verus!

verus! {

/// `ws_end` stops at the first position that is not white space.
pub proof fn lemma_ws_end_stop(s: Seq<char>, i: int, j: int)
    requires
        0 <= i <= j <= s.len(),
        forall|k: int| i <= k < j ==> white_space(#[trigger] s[k]),
        j == s.len() || !white_space(s[j]),
    ensures
        ws_end(s, i) == j,
    decreases j - i,
{
    if i < j {
        lemma_ws_end_stop(s, i + 1, j);
    }
}

/// `word_end` stops at the first position that is not a word character.
pub proof fn lemma_word_end_stop(s: Seq<char>, i: int, j: int)
    requires
        0 <= i <= j <= s.len(),
        forall|k: int| i <= k < j ==> word_char(#[trigger] s[k]),
        j == s.len() || !word_char(s[j]),
    ensures
        word_end(s, i) == j,
    decreases j - i,
{
    if i < j {
        lemma_word_end_stop(s, i + 1, j);
    }
}

/// `find_from` stops at the first position that holds `c`.
pub proof fn lemma_find_from_stop(s: Seq<char>, c: char, i: int, j: int)
    requires
        0 <= i <= j <= s.len(),
        forall|k: int| i <= k < j ==> #[trigger] s[k] != c,
        j == s.len() || s[j] == c,
    ensures
        find_from(s, c, i) == j,
    decreases j - i,
{
    if i < j {
        lemma_find_from_stop(s, c, i + 1, j);
    }
}

/// The forward scans read nothing before their start: on `a + b` they behave
/// on the part `b` as they do on `b` alone.
pub proof fn lemma_scans_shift(a: Seq<char>, b: Seq<char>, i: int, c: char)
    requires
        0 <= i <= b.len(),
    ensures
        ws_end(a + b, a.len() + i) == a.len() + ws_end(b, i),
        word_end(a + b, a.len() + i) == a.len() + word_end(b, i),
        find_from(a + b, c, a.len() + i) == a.len() + find_from(b, c, i),
    decreases b.len() - i,
{
    let t = a + b;
    if i < b.len() {
        assert(t[a.len() + i] == b[i]);
        lemma_scans_shift(a, b, i + 1, c);
    }
}

} // verus!

verus! {

/// Whether the grammar's punctuation and white space lie outside the word
/// class: `=` and `,` are not word characters, and no white-space character is.
pub open spec fn word_class_is_plain() -> bool {
    &&& !word_char('=')
    &&& !word_char(',')
    &&& forall|c: char| white_space(c) ==> !word_char(c)
}

/// `=`, `,` and white space are not word characters.
pub proof fn lemma_word_class_is_plain()
    ensures
        word_class_is_plain(),
{
}

} // verus!
