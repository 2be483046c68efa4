use vstd::prelude::*;

use crate::text;

verus! {

/// The Atbash mapping of one character: each ASCII letter is replaced by the
/// letter as far from the end of the alphabet as it is from the start, with
/// case preserved; every other character is unchanged.
pub open spec fn atbash_char(c: char) -> char {
    if text::is_lower_char(c) {
        ((('a' as int) + ('z' as int) - (c as int)) as u8) as char
    } else if text::is_upper_char(c) {
        ((('A' as int) + ('Z' as int) - (c as int)) as u8) as char
    } else {
        c
    }
}

/// A whole sequence mapped through `atbash_char`.
pub open spec fn atbash_seq(s: Seq<char>) -> Seq<char> {
    Seq::new(s.len(), |i: int| atbash_char(s[i]))
}

fn atbash_char_exec(c: char) -> (r: char)
    ensures
        r == atbash_char(c),
{
    let u = c as u32;
    if 97 <= u && u <= 122 {
        ((97 + 122 - u) as u8) as char
    } else if 65 <= u && u <= 90 {
        ((65 + 90 - u) as u8) as char
    } else {
        c
    }
}

fn handle(message: &str) -> (r: String)
    ensures
        r@ == atbash_seq(message@),
{
    let chars = text::str_chars(message);
    let mut out: Vec<char> = Vec::new();
    let n = chars.len();
    let mut i: usize = 0;
    while i < n
        invariant
            i <= n,
            n == chars@.len(),
            chars@ == message@,
            out@ =~= atbash_seq(message@).take(i as int),
        decreases n - i,
    {
        let c = atbash_char_exec(chars[i]);
        out.push(c);
        i = i + 1;
    }
    proof {
        assert(out@ =~= atbash_seq(message@));
    }
    text::chars_to_string(&out)
}

/// Reverses each ASCII letter's place in the alphabet, preserving case;
/// other characters pass through unchanged.
pub fn encode(message: &str) -> (r: String)
    ensures
        r@ == atbash_seq(message@),
{
    handle(message)
}

/// Decodes an Atbash message: the mapping is an involution, so this is the
/// same transformation as `encode`.
pub fn decode(message: &str) -> (r: String)
    ensures
        r@ == atbash_seq(message@),
{
    handle(message)
}

/// The Atbash mapping undoes itself: applying it twice restores the message.
pub proof fn lemma_atbash_involution(s: Seq<char>)
    ensures
        atbash_seq(atbash_seq(s)) == s,
{
    assert forall|i: int| 0 <= i < s.len() implies atbash_seq(atbash_seq(s))[i] == s[i] by {
        assert(atbash_seq(s)[i] == atbash_char(s[i]));
    }
    assert(atbash_seq(atbash_seq(s)) =~= s);
}

} // verus!
