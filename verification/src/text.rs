//! Character-level helpers: equality of string slices, and the
//! trim / lower-case / underscore canonicalisation used when parsing
//! categorical tags.
//!
//! Canonicalisation here is deliberately ASCII-only: the recognised
//! tags are plain ASCII words, so folding `'A'..='Z'` and stripping
//! space, tab, newline and carriage return decides exactly the same
//! membership question as full Unicode folding would, while staying a
//! small, fully verified function instead of a trusted call. A tag
//! whose letters or surrounding whitespace fall outside ASCII is
//! rejected, which is the stated behaviour of these parsers.

use vstd::prelude::*;

verus! {

/// The ASCII whitespace characters stripped from both ends of a tag.
pub open spec fn is_space_char(c: char) -> bool {
    c == ' ' || c == '\t' || c == '\n' || c == '\r'
}

/// ASCII lower-casing of a single character; anything but `'A'..='Z'`
/// is left as it is.
pub open spec fn lower_char(c: char) -> char {
    match c {
        'A' => 'a',
        'B' => 'b',
        'C' => 'c',
        'D' => 'd',
        'E' => 'e',
        'F' => 'f',
        'G' => 'g',
        'H' => 'h',
        'I' => 'i',
        'J' => 'j',
        'K' => 'k',
        'L' => 'l',
        'M' => 'm',
        'N' => 'n',
        'O' => 'o',
        'P' => 'p',
        'Q' => 'q',
        'R' => 'r',
        'S' => 's',
        'T' => 't',
        'U' => 'u',
        'V' => 'v',
        'W' => 'w',
        'X' => 'x',
        'Y' => 'y',
        'Z' => 'z',
        _ => c,
    }
}

/// A space becomes an underscore; anything else is left as it is.
pub open spec fn underscore_char(c: char) -> char {
    if c == ' ' {
        '_'
    } else {
        c
    }
}

pub open spec fn lower_seq(s: Seq<char>) -> Seq<char> {
    s.map_values(|c: char| lower_char(c))
}

pub open spec fn underscore_seq(s: Seq<char>) -> Seq<char> {
    s.map_values(|c: char| underscore_char(c))
}

pub open spec fn trim_front(s: Seq<char>) -> Seq<char>
    decreases s.len(),
{
    if s.len() > 0 && is_space_char(s[0]) {
        trim_front(s.drop_first())
    } else {
        s
    }
}

pub open spec fn trim_back(s: Seq<char>) -> Seq<char>
    decreases s.len(),
{
    if s.len() > 0 && is_space_char(s[s.len() - 1]) {
        trim_back(s.drop_last())
    } else {
        s
    }
}

/// Both ends stripped of ASCII whitespace.
pub open spec fn trim_seq(s: Seq<char>) -> Seq<char> {
    trim_back(trim_front(s))
}

/// If the first `i` characters are whitespace and position `i` (when it
/// exists) is not, front-trimming keeps exactly the tail from `i` on.
proof fn lemma_trim_front_at(s: Seq<char>, i: int)
    requires
        0 <= i <= s.len(),
        forall|j: int| 0 <= j < i ==> is_space_char(#[trigger] s[j]),
        i < s.len() ==> !is_space_char(s[i]),
    ensures
        trim_front(s) =~= s.subrange(i, s.len() as int),
    decreases i,
{
    if i == 0 {
        if s.len() > 0 && is_space_char(s[0]) {
            assert(false);
        }
    } else {
        assert(is_space_char(s[0]));
        let t = s.drop_first();
        assert(forall|j: int| 0 <= j < i - 1 ==> is_space_char(#[trigger] t[j]));
        lemma_trim_front_at(t, i - 1);
    }
}

/// If every character from `i` on is whitespace and position `i - 1`
/// (when it exists) is not, back-trimming keeps exactly the head up to `i`.
proof fn lemma_trim_back_at(s: Seq<char>, i: int)
    requires
        0 <= i <= s.len(),
        forall|j: int| i <= j < s.len() ==> is_space_char(#[trigger] s[j]),
        i > 0 ==> !is_space_char(s[i - 1]),
    ensures
        trim_back(s) =~= s.subrange(0, i),
    decreases s.len() - i,
{
    if i == s.len() {
        if s.len() > 0 && is_space_char(s[s.len() - 1]) {
            assert(false);
        }
    } else {
        assert(is_space_char(s[s.len() - 1]));
        lemma_trim_back_at(s.drop_last(), i);
    }
}

/// Whether a character is one of the stripped whitespace characters.
pub fn is_space(c: char) -> (r: bool)
    ensures
        r == is_space_char(c),
{
    c == ' ' || c == '\t' || c == '\n' || c == '\r'
}

/// Executable ASCII lower-casing of one character.
pub fn lower(c: char) -> (r: char)
    ensures
        r == lower_char(c),
{
    match c {
        'A' => 'a',
        'B' => 'b',
        'C' => 'c',
        'D' => 'd',
        'E' => 'e',
        'F' => 'f',
        'G' => 'g',
        'H' => 'h',
        'I' => 'i',
        'J' => 'j',
        'K' => 'k',
        'L' => 'l',
        'M' => 'm',
        'N' => 'n',
        'O' => 'o',
        'P' => 'p',
        'Q' => 'q',
        'R' => 'r',
        'S' => 's',
        'T' => 't',
        'U' => 'u',
        'V' => 'v',
        'W' => 'w',
        'X' => 'x',
        'Y' => 'y',
        'Z' => 'z',
        _ => c,
    }
}

/// Character-for-character equality of two string slices.
pub fn str_eq(a: &str, b: &str) -> (r: bool)
    ensures
        r == (a@ == b@),
{
    let a_len = a.unicode_len();
    let b_len = b.unicode_len();
    if a_len != b_len {
        return false;
    }
    let mut i: usize = 0;
    while i < a_len
        invariant
            i <= a_len,
            a_len == a@.len(),
            a_len == b@.len(),
            forall|j: int| 0 <= j < i ==> a@[j] == b@[j],
        decreases a_len - i,
    {
        if a.get_char(i) != b.get_char(i) {
            return false;
        }
        i = i + 1;
    }
    proof {
        assert(a@ =~= b@);
    }
    true
}

/// Strips ASCII whitespace from both ends and lower-cases what is left.
pub fn lower_trim(s: &str) -> (r: String)
    ensures
        r@ == lower_seq(trim_seq(s@)),
{
    let len = s.unicode_len();
    let mut start: usize = 0;
    while start < len && is_space(s.get_char(start))
        invariant
            start <= len,
            len == s@.len(),
            forall|j: int| 0 <= j < start ==> is_space_char(#[trigger] s@[j]),
        decreases len - start,
    {
        start = start + 1;
    }
    let mut end: usize = len;
    while end > start && is_space(s.get_char(end - 1))
        invariant
            start <= end <= len,
            len == s@.len(),
            forall|j: int| 0 <= j < start ==> is_space_char(#[trigger] s@[j]),
            forall|j: int| end <= j < len ==> is_space_char(#[trigger] s@[j]),
        decreases end,
    {
        end = end - 1;
    }
    proof {
        lemma_trim_front_at(s@, start as int);
        let f = s@.subrange(start as int, len as int);
        lemma_trim_back_at(f, end - start);
        assert(trim_seq(s@) =~= s@.subrange(start as int, end as int));
    }
    let ghost t = s@.subrange(start as int, end as int);
    let mut r = String::new();
    let mut i: usize = start;
    while i < end
        invariant
            start <= i <= end <= len,
            len == s@.len(),
            t == s@.subrange(start as int, end as int),
            r@ =~= Seq::new((i - start) as nat, |m: int| lower_char(s@[start + m])),
        decreases end - i,
    {
        let c = lower(s.get_char(i));
        push_char(&mut r, c);
        i = i + 1;
    }
    proof {
        assert(r@ =~= lower_seq(trim_seq(s@)));
    }
    r
}

/// Replaces every space by an underscore.
pub fn underscore(s: &str) -> (r: String)
    ensures
        r@ == underscore_seq(s@),
{
    let len = s.unicode_len();
    let mut r = String::new();
    let mut i: usize = 0;
    while i < len
        invariant
            i <= len,
            len == s@.len(),
            r@ =~= Seq::new(i as nat, |m: int| underscore_char(s@[m])),
        decreases len - i,
    {
        let c = s.get_char(i);
        if c == ' ' {
            push_char(&mut r, '_');
        } else {
            push_char(&mut r, c);
        }
        i = i + 1;
    }
    proof {
        assert(r@ =~= underscore_seq(s@));
    }
    r
}

/// Relies on String::push: appends exactly the given character at the end.
#[verifier::external_body]
pub fn push_char(s: &mut String, c: char)
    ensures
        final(s)@ == old(s)@.push(c),
{
    s.push(c);
}

} // verus!
