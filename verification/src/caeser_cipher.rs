use vstd::prelude::*;

use crate::detection::detect_english::Detector;
use crate::detection::detect_english::spec_is_english;
use crate::errors::CipherError;
use crate::text;

verus! {

/// A successful brute-force decode: the recovered plaintext and the shift key
/// that produced it.
#[derive(Debug)]
pub struct BruteForceResponse {
    pub decoded_message: String,
    pub key: u8,
}

impl PartialEq for BruteForceResponse {
    fn eq(&self, other: &BruteForceResponse) -> (r: bool) {
        self.decoded_message == other.decoded_message && self.key == other.key
    }
}

impl vstd::std_specs::cmp::PartialEqSpecImpl for BruteForceResponse {
    open spec fn obeys_eq_spec() -> bool {
        true
    }

    open spec fn eq_spec(&self, other: &BruteForceResponse) -> bool {
        self.decoded_message@ == other.decoded_message@ && self.key == other.key
    }
}

/// One character shifted forward by `k` places (`0 <= k < 26`) within its own
/// alphabet: lower-case letters stay lower-case, upper-case stay upper-case,
/// and every other character is unchanged.
pub open spec fn shift_char(c: char, k: int) -> char {
    if text::is_lower_char(c) {
        ((((c as int) - ('a' as int) + k) % 26 + ('a' as int)) as u8) as char
    } else if text::is_upper_char(c) {
        ((((c as int) - ('A' as int) + k) % 26 + ('A' as int)) as u8) as char
    } else {
        c
    }
}

/// A whole sequence shifted forward by `k` places.
pub open spec fn shift_seq(s: Seq<char>, k: int) -> Seq<char> {
    Seq::new(s.len(), |i: int| shift_char(s[i], k))
}

/// The shift that undoes a forward shift by `k`.
pub open spec fn inverse_shift(k: int) -> int {
    (26 - k % 26) % 26
}

/// Executable forward shift of one character, matching `shift_char`.
pub(crate) fn shift_char_exec(c: char, k: u8) -> (r: char)
    requires
        k < 26,
    ensures
        r == shift_char(c, k as int),
{
    let u = c as u32;
    if 97 <= u && u <= 122 {
        (((u - 97 + (k as u32)) % 26 + 97) as u8) as char
    } else if 65 <= u && u <= 90 {
        (((u - 65 + (k as u32)) % 26 + 65) as u8) as char
    } else {
        c
    }
}

/// Shifts every ASCII letter of `message` forward by `key` places (modulo 26),
/// preserving case; all other characters pass through unchanged.
pub fn encode(message: &str, key: u8) -> (r: String)
    ensures
        r@ == shift_seq(message@, (key % 26) as int),
{
    let key = key % 26;
    handle(message, key)
}

/// Shifts every ASCII letter of `message` backward by `key` places (modulo
/// 26), undoing `encode` with the same key.
pub fn decode(message: &str, key: u8) -> (r: String)
    ensures
        r@ == shift_seq(message@, inverse_shift(key as int)),
{
    let key = key % 26;
    let back = (26 - key) % 26;
    proof {
        assert(back as int == inverse_shift(key as int));
    }
    handle(message, back)
}

fn handle(message: &str, key: u8) -> (r: String)
    requires
        key < 26,
    ensures
        r@ == shift_seq(message@, key as int),
{
    let chars = text::str_chars(message);
    let mut out: Vec<char> = Vec::new();
    let n = chars.len();
    let mut i: usize = 0;
    while i < n
        invariant
            i <= n,
            n == chars@.len(),
            chars@ == message@,
            key < 26,
            out@ =~= shift_seq(message@, key as int).take(i as int),
        decreases n - i,
    {
        let c = shift_char_exec(chars[i], key);
        out.push(c);
        i = i + 1;
    }
    proof {
        assert(out@ =~= shift_seq(message@, key as int));
    }
    text::chars_to_string(&out)
}

/// Tries every shift key from 1 to 26 in ascending order and returns the
/// first decode that the detector classifies as English, together with its
/// key. When no key produces English-like text the search fails with
/// `NotFoundError`.
pub fn decode_brute_force(message: &str, detector: &Detector) -> (r: Result<
    BruteForceResponse,
    CipherError,
>)
    requires
        detector.wf(),
    ensures
        match r {
            Ok(resp) => {
                &&& 1 <= resp.key <= 26
                &&& resp.decoded_message@ == shift_seq(message@, inverse_shift(resp.key as int))
                &&& spec_is_english(
                    detector.dict_words(),
                    detector.threshold(),
                    resp.decoded_message@,
                )
                &&& forall|k: int|
                    1 <= k < resp.key ==> !spec_is_english(
                        detector.dict_words(),
                        detector.threshold(),
                        shift_seq(message@, inverse_shift(k)),
                    )
            },
            Err(e) => {
                &&& e == CipherError::NotFoundError
                &&& forall|k: int|
                    1 <= k <= 26 ==> !spec_is_english(
                        detector.dict_words(),
                        detector.threshold(),
                        shift_seq(message@, inverse_shift(k)),
                    )
            },
        },
{
    let mut key: u8 = 1;
    while key <= 26
        invariant
            1 <= key <= 27,
            detector.wf(),
            forall|k: int|
                1 <= k < key ==> !spec_is_english(
                    detector.dict_words(),
                    detector.threshold(),
                    shift_seq(message@, inverse_shift(k)),
                ),
        decreases 27 - key,
    {
        let msg = decode(message, key);
        if detector.is_english(msg.as_str()) {
            return Ok(BruteForceResponse { decoded_message: msg, key });
        }
        key = key + 1;
    }
    Err(CipherError::NotFoundError)
}

/// Decoding with the inverse shift restores every character that `shift_char`
/// moved.
pub proof fn lemma_shift_char_roundtrip(c: char, k: int)
    requires
        0 <= k < 26,
    ensures
        shift_char(shift_char(c, k), inverse_shift(k)) == c,
{
    if text::is_lower_char(c) || text::is_upper_char(c) {
        let base: int = if text::is_lower_char(c) {
            'a' as int
        } else {
            'A' as int
        };
        let off = (c as int) - base;
        assert(0 <= off < 26);
        let m = (off + k) % 26;
        assert(0 <= m < 26);
        let s1 = shift_char(c, k);
        assert(s1 == ((m + base) as u8) as char);
        assert(s1 as int == m + base);
        let back = inverse_shift(k);
        assert(back == (26 - k) % 26);
        assert(0 <= back < 26);
        assert((m + back) % 26 == off) by {
            assert((off + k) % 26 == (off + k) - 26 * ((off + k) / 26));
        };
        assert(shift_char(s1, back) == ((off + base) as u8) as char);
        assert(((off + base) as u8) as char == c);
    } else {
        assert(shift_char(c, k) == c);
    }
}

/// Round trip over a whole message: decoding with the inverse shift restores
/// the original sequence.
pub proof fn lemma_shift_seq_roundtrip(s: Seq<char>, k: int)
    requires
        0 <= k < 26,
    ensures
        shift_seq(shift_seq(s, k), inverse_shift(k)) == s,
{
    assert forall|i: int| 0 <= i < s.len() implies shift_seq(shift_seq(s, k), inverse_shift(k))[i]
        == s[i] by {
        lemma_shift_char_roundtrip(s[i], k);
    }
    assert(shift_seq(shift_seq(s, k), inverse_shift(k)) =~= s);
}

} // verus!
