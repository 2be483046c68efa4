use vstd::prelude::*;

verus! {

/// True when `c` is an ASCII lower-case letter.
pub open spec fn is_lower_char(c: char) -> bool {
    'a' <= c && c <= 'z'
}

/// True when `c` is an ASCII upper-case letter.
pub open spec fn is_upper_char(c: char) -> bool {
    'A' <= c && c <= 'Z'
}

/// ASCII case folding of one character: upper-case letters map to their
/// lower-case form, every other character is unchanged.
pub open spec fn lower_char(c: char) -> char {
    if is_upper_char(c) {
        ((c as u8) + 32) as char
    } else {
        c
    }
}

/// Whether `c` has the Unicode `Alphabetic` property. The exact extent of
/// that property is the standard library's business; only its restriction to
/// ASCII is pinned down below.
pub uninterp spec fn is_alpha_char(c: char) -> bool;

/// Relies on `char::is_alphabetic`: the result depends on the character
/// alone; every ASCII letter is alphabetic and no other ASCII character is.
pub assume_specification[ char::is_alphabetic ](c: char) -> (r: bool)
    ensures
        r == is_alpha_char(c),
        is_lower_char(c) || is_upper_char(c) ==> r,
        (c as u32) < 128 && !(is_lower_char(c) || is_upper_char(c)) ==> !r,
;

/// The whitespace characters that token splitting recognizes: the Unicode
/// `White_Space` set, as `str::split_whitespace` draws token boundaries.
pub open spec fn is_space_char(c: char) -> bool {
    c == ' ' || c == '\t' || c == '\n' || c == '\u{000B}' || c == '\u{000C}' || c == '\r' || c
        == '\u{0085}' || c == '\u{00A0}' || c == '\u{1680}' || ('\u{2000}' <= c && c
        <= '\u{200A}') || c == '\u{2028}' || c == '\u{2029}' || c == '\u{202F}' || c == '\u{205F}'
        || c == '\u{3000}'
}

/// Executable whitespace test, matching `is_space_char`.
pub fn is_space(c: char) -> (r: bool)
    ensures
        r == is_space_char(c),
{
    c == ' ' || c == '\t' || c == '\n' || c == '\u{000B}' || c == '\u{000C}' || c == '\r' || c
        == '\u{0085}' || c == '\u{00A0}' || c == '\u{1680}' || ('\u{2000}' <= c && c
        <= '\u{200A}') || c == '\u{2028}' || c == '\u{2029}' || c == '\u{202F}' || c == '\u{205F}'
        || c == '\u{3000}'
}

/// ASCII case folding of a whole character sequence.
pub open spec fn lower_seq(s: Seq<char>) -> Seq<char> {
    Seq::new(s.len(), |i: int| lower_char(s[i]))
}

/// ASCII upper-casing of one character: lower-case letters map to their
/// upper-case form, every other character is unchanged.
pub open spec fn upper_char(c: char) -> char {
    if is_lower_char(c) {
        ((c as u8) - 32) as char
    } else {
        c
    }
}

/// ASCII upper-casing of a whole character sequence.
pub open spec fn upper_seq(s: Seq<char>) -> Seq<char> {
    Seq::new(s.len(), |i: int| upper_char(s[i]))
}

/// ASCII case folding leaves lower-case and non-letter characters alone, so
/// folding twice folds once.
pub proof fn lemma_lower_seq_idempotent(s: Seq<char>)
    ensures
        lower_seq(lower_seq(s)) == lower_seq(s),
{
    assert(lower_seq(lower_seq(s)) =~= lower_seq(s));
}

/// Upper-casing before folding changes nothing: both spellings fold to the
/// same lower-case word.
pub proof fn lemma_lower_of_upper(s: Seq<char>)
    ensures
        lower_seq(upper_seq(s)) == lower_seq(s),
{
    assert(lower_seq(upper_seq(s)) =~= lower_seq(s));
}

/// Executable ASCII case folding of one character, matching `lower_char`.
pub fn to_lower(c: char) -> (r: char)
    ensures
        r == lower_char(c),
{
    let u = c as u32;
    if 65 <= u && u <= 90 {
        ((u + 32) as u8) as char
    } else {
        c
    }
}

/// The characters of `s`, as a vector.
pub fn str_chars(s: &str) -> (v: Vec<char>)
    ensures
        v@ == s@,
{
    let n = s.unicode_len();
    let mut v: Vec<char> = Vec::new();
    let mut i: usize = 0;
    while i < n
        invariant
            i <= n,
            n == s@.len(),
            v@ == s@.take(i as int),
        decreases n - i,
    {
        let c = s.get_char(i);
        v.push(c);
        proof {
            assert(v@ =~= s@.take(i as int + 1));
        }
        i = i + 1;
    }
    proof {
        assert(v@ =~= s@);
    }
    v
}

/// The ASCII case folding of a whole character vector, matching `lower_seq`.
pub fn lower_vec(v: &Vec<char>) -> (r: Vec<char>)
    ensures
        r@ == lower_seq(v@),
{
    let n = v.len();
    let mut r: Vec<char> = Vec::new();
    let mut i: usize = 0;
    while i < n
        invariant
            i <= n,
            n == v@.len(),
            r@ =~= lower_seq(v@).take(i as int),
        decreases n - i,
    {
        let c = to_lower(v[i]);
        r.push(c);
        i = i + 1;
    }
    proof {
        assert(r@ =~= lower_seq(v@));
    }
    r
}

/// Relies on `String: FromIterator<char>`: collecting characters yields the
/// string of exactly those characters, in order.
#[verifier::external_body]
pub(crate) fn chars_to_string(v: &Vec<char>) -> (s: String)
    ensures
        s@ == v@,
{
    v.iter().collect()
}

} // verus!
