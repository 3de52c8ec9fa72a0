use vstd::prelude::*;

use crate::text::str_chars;

verus! {

/// The character classes that the parsers scan over.
#[derive(Clone, Copy, PartialEq, Eq, Debug, Structural)]
pub enum CharClass {
    /// ' ' and '\t'
    SpaceTab,
    /// ASCII letters and digits, '_' and '.'
    Identifier,
    /// ASCII digits
    Digit,
    /// 'A', 'M' and 'D'
    Amd,
    /// anything but '='
    NotEquals,
    /// anything but ';' and '/'
    NotCalcEnd,
    /// anything but '/'
    NotSlash,
    /// anything but '\n' and '\r'
    NotLineBreak,
    /// anything but '\n'
    NotNewline,
    /// whitespace in Unicode's sense
    Whitespace,
    /// '0' and '1'
    Binary,
}

pub open spec fn is_ascii_alnum(c: char) -> bool {
    ('a' <= c && c <= 'z') || ('A' <= c && c <= 'Z') || ('0' <= c && c <= '9')
}

pub open spec fn in_class(c: char, k: CharClass) -> bool {
    match k {
        CharClass::SpaceTab => c == ' ' || c == '\t',
        CharClass::Identifier => is_ascii_alnum(c) || c == '_' || c == '.',
        CharClass::Digit => '0' <= c && c <= '9',
        CharClass::Amd => c == 'A' || c == 'M' || c == 'D',
        CharClass::NotEquals => c != '=',
        CharClass::NotCalcEnd => c != ';' && c != '/',
        CharClass::NotSlash => c != '/',
        CharClass::NotLineBreak => c != '\n' && c != '\r',
        CharClass::NotNewline => c != '\n',
        CharClass::Whitespace => is_unicode_whitespace(c),
        CharClass::Binary => c == '0' || c == '1',
    }
}

/// Whether `c` is whitespace in Unicode's sense (Rust's `char::is_whitespace`).
pub open spec fn is_unicode_whitespace(c: char) -> bool {
    ('\u{9}' <= c && c <= '\u{d}') || c == ' ' || c == '\u{85}' || c == '\u{a0}'
        || c == '\u{1680}' || ('\u{2000}' <= c && c <= '\u{200a}') || c == '\u{2028}'
        || c == '\u{2029}' || c == '\u{202f}' || c == '\u{205f}' || c == '\u{3000}'
}

/// The end of the longest run of characters of class `k` that starts at `i` and stops
/// before `e`.
pub open spec fn run_end(s: Seq<char>, i: int, e: int, k: CharClass) -> int
    decreases e - i,
{
    if 0 <= i < e && i < s.len() && in_class(s[i], k) {
        run_end(s, i + 1, e, k)
    } else {
        i
    }
}

/// The characters of `s` that are not whitespace.
pub open spec fn strip_whitespace(s: Seq<char>) -> Seq<char>
    decreases s.len(),
{
    if s.len() == 0 {
        s
    } else if is_unicode_whitespace(s.last()) {
        strip_whitespace(s.drop_last())
    } else {
        strip_whitespace(s.drop_last()).push(s.last())
    }
}

/// Whether `lit` occurs in `s` at `i`, before `e`.
pub open spec fn matches_at(s: Seq<char>, i: int, e: int, lit: Seq<char>) -> bool {
    0 <= i && i + lit.len() <= e && e <= s.len() && s.subrange(i, i + lit.len()) == lit
}

pub proof fn lemma_run_end(s: Seq<char>, i: int, e: int, k: CharClass)
    requires
        0 <= i <= e <= s.len(),
    ensures
        i <= run_end(s, i, e, k) <= e,
        forall|j: int| i <= j < run_end(s, i, e, k) ==> in_class(#[trigger] s[j], k),
        run_end(s, i, e, k) < e ==> !in_class(s[run_end(s, i, e, k)], k),
    decreases e - i,
{
    if i < e && in_class(s[i], k) {
        lemma_run_end(s, i + 1, e, k);
    }
}

pub fn char_in_class(c: char, k: CharClass) -> (r: bool)
    ensures
        r == in_class(c, k),
{
    match k {
        CharClass::SpaceTab => c == ' ' || c == '\t',
        CharClass::Identifier => ('a' <= c && c <= 'z') || ('A' <= c && c <= 'Z') || ('0' <= c
            && c <= '9') || c == '_' || c == '.',
        CharClass::Digit => '0' <= c && c <= '9',
        CharClass::Amd => c == 'A' || c == 'M' || c == 'D',
        CharClass::NotEquals => c != '=',
        CharClass::NotCalcEnd => c != ';' && c != '/',
        CharClass::NotSlash => c != '/',
        CharClass::NotLineBreak => c != '\n' && c != '\r',
        CharClass::NotNewline => c != '\n',
        CharClass::Whitespace => is_whitespace_char(c),
        CharClass::Binary => c == '0' || c == '1',
    }
}

pub fn is_whitespace_char(c: char) -> (r: bool)
    ensures
        r == is_unicode_whitespace(c),
{
    ('\u{9}' <= c && c <= '\u{d}') || c == ' ' || c == '\u{85}' || c == '\u{a0}' || c
        == '\u{1680}' || ('\u{2000}' <= c && c <= '\u{200a}') || c == '\u{2028}' || c
        == '\u{2029}' || c == '\u{202f}' || c == '\u{205f}' || c == '\u{3000}'
}

/// The end of the run of class `k` from `i`, before `e`.
pub fn scan(cs: &Vec<char>, i: usize, e: usize, k: CharClass) -> (r: usize)
    requires
        i <= e <= cs@.len(),
    ensures
        r == run_end(cs@, i as int, e as int, k),
        i <= r <= e,
{
    let mut j = i;
    while j < e && char_in_class(cs[j], k)
        invariant
            i <= j <= e <= cs@.len(),
            run_end(cs@, i as int, e as int, k) == run_end(cs@, j as int, e as int, k),
        decreases e - j,
    {
        j = j + 1;
    }
    proof {
        lemma_run_end(cs@, i as int, e as int, k);
    }
    j
}

/// The characters of `cs[i..e]` that are not whitespace.
pub fn strip_whitespace_range(cs: &Vec<char>, i: usize, e: usize) -> (r: Vec<char>)
    requires
        i <= e <= cs@.len(),
    ensures
        r@ == strip_whitespace(cs@.subrange(i as int, e as int)),
{
    let mut r: Vec<char> = Vec::new();
    let mut j = i;
    while j < e
        invariant
            i <= j <= e <= cs@.len(),
            r@ == strip_whitespace(cs@.subrange(i as int, j as int)),
        decreases e - j,
    {
        let c = cs[j];
        assert(cs@.subrange(i as int, j + 1).drop_last() == cs@.subrange(i as int, j as int));
        if !is_whitespace_char(c) {
            r.push(c);
        }
        j = j + 1;
    }
    r
}

/// Whether `a` and `b` hold the same characters.
pub fn chars_eq(a: &Vec<char>, b: &Vec<char>) -> (r: bool)
    ensures
        r == (a@ == b@),
{
    if a.len() != b.len() {
        return false;
    }
    let mut j: usize = 0;
    while j < a.len()
        invariant
            a@.len() == b@.len(),
            j <= a@.len(),
            forall|x: int| 0 <= x < j ==> a@[x] == b@[x],
        decreases a@.len() - j,
    {
        if a[j] != b[j] {
            return false;
        }
        j = j + 1;
    }
    assert(a@ =~= b@);
    true
}

/// Whether `cs` holds the characters of `lit`.
pub fn chars_eq_str(cs: &Vec<char>, lit: &str) -> (r: bool)
    ensures
        r == (cs@ == lit@),
{
    let l = str_chars(lit);
    chars_eq(cs, &l)
}

/// Whether the characters of `lit` occur in `cs` at `i`, before `e`.
pub fn matches_str_at(cs: &Vec<char>, i: usize, e: usize, lit: &str) -> (r: bool)
    requires
        e <= cs@.len(),
    ensures
        r == matches_at(cs@, i as int, e as int, lit@),
{
    let l = str_chars(lit);
    if i > e || e - i < l.len() {
        return false;
    }
    let mut j: usize = 0;
    while j < l.len()
        invariant
            i + l@.len() <= e <= cs@.len(),
            j <= l@.len(),
            l@ == lit@,
            forall|x: int| 0 <= x < j ==> cs@[i + x] == l@[x],
        decreases l@.len() - j,
    {
        if cs[i + j] != l[j] {
            assert(cs@.subrange(i as int, i + l@.len())[j as int] != l@[j as int]);
            return false;
        }
        j = j + 1;
    }
    assert(cs@.subrange(i as int, i + l@.len()) =~= l@);
    true
}

/// The characters `cs[i..e]` as a `String`.
pub fn string_of_range(cs: &Vec<char>, i: usize, e: usize) -> (r: String)
    requires
        i <= e <= cs@.len(),
    ensures
        r@ == cs@.subrange(i as int, e as int),
{
    let mut r = String::new();
    let mut j = i;
    while j < e
        invariant
            i <= j <= e <= cs@.len(),
            r@ == cs@.subrange(i as int, j as int),
        decreases e - j,
    {
        crate::text::push_char(&mut r, cs[j]);
        assert(cs@.subrange(i as int, j + 1) == cs@.subrange(i as int, j as int).push(cs@[j as int]));
        j = j + 1;
    }
    r
}


/// The end of `s[i..e]` with trailing whitespace removed.
pub open spec fn trim_back(s: Seq<char>, i: int, e: int) -> int
    decreases e - i,
{
    if i < e && 0 < e <= s.len() && is_unicode_whitespace(s[e - 1]) {
        trim_back(s, i, e - 1)
    } else {
        e
    }
}

/// The end of `cs[i..e]` with trailing whitespace removed.
pub fn trim_back_exec(cs: &Vec<char>, i: usize, e: usize) -> (r: usize)
    requires
        i <= e <= cs@.len(),
    ensures
        r == trim_back(cs@, i as int, e as int),
        i <= r <= e,
{
    let mut j = e;
    while j > i && is_whitespace_char(cs[j - 1])
        invariant
            i <= j <= e <= cs@.len(),
            trim_back(cs@, i as int, e as int) == trim_back(cs@, i as int, j as int),
        decreases j - i,
    {
        j = j - 1;
    }
    j
}


/// `lit` does not occur at `i` where its `j`-th character differs from the text's.
pub proof fn lemma_no_match(s: Seq<char>, i: int, lit: Seq<char>, j: int)
    requires
        0 <= j < lit.len(),
        0 <= i,
        i + j < s.len(),
        s[i + j] != lit[j],
    ensures
        !matches_at(s, i, s.len() as int, lit),
{
    if matches_at(s, i, s.len() as int, lit) {
        assert(s.subrange(i, i + lit.len())[j] == s[i + j]);
    }
}

/// `lit` occurs in `a + lit + b` right after `a`.
pub proof fn lemma_match(a: Seq<char>, lit: Seq<char>, b: Seq<char>)
    ensures
        matches_at(a + lit + b, a.len() as int, (a + lit + b).len() as int, lit),
{
    assert((a + lit + b).subrange(a.len() as int, (a.len() + lit.len()) as int) =~= lit);
}

/// A run of class `k` from `i` that stops at `m`.
pub proof fn lemma_run_until(s: Seq<char>, i: int, m: int, e: int, k: CharClass)
    requires
        0 <= i <= m <= e <= s.len(),
        forall|j: int| i <= j < m ==> in_class(#[trigger] s[j], k),
        m < e ==> !in_class(s[m], k),
    ensures
        run_end(s, i, e, k) == m,
    decreases m - i,
{
    if i < m {
        lemma_run_until(s, i + 1, m, e, k);
    }
}

/// A text occurs at its own start.
pub proof fn lemma_match_whole(s: Seq<char>)
    ensures
        matches_at(s, 0, s.len() as int, s),
{
    assert(s.subrange(0, s.len() as int) =~= s);
}

} // verus!
