use vstd::prelude::*;

use crate::caeser_cipher;
use crate::detection::detect_english::Detector;
use crate::detection::detect_english::spec_is_english;
use crate::detection::trie::lemma_enumeration_complete;
use crate::detection::trie::words_list;
use crate::errors::CipherError;
use crate::text;

verus! {

/// An ASCII letter, of either case.
pub open spec fn is_ascii_letter(c: char) -> bool {
    text::is_lower_char(c) || text::is_upper_char(c)
}

/// The shift that one key character contributes: its ASCII-lower-cased
/// distance from `a`. A key character that is no ASCII letter contributes
/// no shift and leaves the message character unchanged.
pub open spec fn vig_shift(k: char) -> Option<int> {
    let kl = text::lower_char(k);
    if text::is_lower_char(kl) {
        Some((kl as int) - ('a' as int))
    } else {
        None
    }
}

/// How many ASCII letters stand in the first `i` characters of `s`; these are
/// the characters that consume a key position.
pub open spec fn alpha_count(s: Seq<char>, i: int) -> int
    decreases i,
{
    if i <= 0 {
        0
    } else {
        alpha_count(s, i - 1) + if is_ascii_letter(s[i - 1]) {
            1int
        } else {
            0int
        }
    }
}

/// One message character under one key character: letters are shifted
/// forward (encoding) or backward (decoding), everything else passes through.
pub open spec fn vig_char(c: char, k: char, enc: bool) -> char {
    match vig_shift(k) {
        None => c,
        Some(sh) => caeser_cipher::shift_char(
            c,
            if enc {
                sh
            } else {
                (26 - sh) % 26
            },
        ),
    }
}

/// The Vigenère transform: the key, repeated cyclically, is consumed one
/// character per ASCII letter of the message; other message characters pass
/// through without consuming a key position.
pub open spec fn vig_seq(msg: Seq<char>, key: Seq<char>, enc: bool) -> Seq<char> {
    Seq::new(
        msg.len(),
        |i: int|
            if is_ascii_letter(msg[i]) && key.len() > 0 {
                vig_char(msg[i], key[alpha_count(msg, i) % (key.len() as int)], enc)
            } else {
                msg[i]
            },
    )
}

fn vig_char_exec(c: char, k: char, enc: bool) -> (r: char)
    ensures
        r == vig_char(c, k, enc),
{
    let kl = text::to_lower(k);
    let ku = kl as u32;
    if 97 <= ku && ku <= 122 {
        let sh = ((ku - 97) % 26) as u8;
        proof {
            assert(sh as int == (kl as int) - ('a' as int));
        }
        if enc {
            caeser_cipher::shift_char_exec(c, sh)
        } else {
            let back = (26 - sh) % 26;
            caeser_cipher::shift_char_exec(c, back)
        }
    } else {
        c
    }
}

fn handle(message: &str, key: &str, enc: bool) -> (r: String)
    requires
        (exists|i: int|
            0 <= i < message@.len() && is_ascii_letter(message@[i])) ==> key@.len() > 0,
    ensures
        r@ == vig_seq(message@, key@, enc),
{
    let msg = text::str_chars(message);
    let key_chars = text::str_chars(key);
    let key_len = key_chars.len();
    let n = msg.len();
    let mut out: Vec<char> = Vec::new();
    let mut i: usize = 0;
    let mut ki: usize = 0;
    while i < n
        invariant
            i <= n,
            n == msg@.len(),
            msg@ == message@,
            key_chars@ == key@,
            key_len == key@.len(),
            (exists|l: int|
                0 <= l < message@.len() && is_ascii_letter(message@[l])) ==> key@.len() > 0,
            ki == alpha_count(message@, i as int),
            ki <= i,
            out@ =~= vig_seq(message@, key@, enc).take(i as int),
        decreases n - i,
    {
        let c = msg[i];
        let u = c as u32;
        let is_letter = (97 <= u && u <= 122) || (65 <= u && u <= 90);
        proof {
            vstd::utf8::char_is_scalar(c);
            vstd::utf8::char_u32_cast(c, c as u32);
            assert(is_letter == is_ascii_letter(message@[i as int]));
        }
        if is_letter {
            let k = key_chars[ki % key_len];
            let e = vig_char_exec(c, k, enc);
            out.push(e);
            ki = ki + 1;
        } else {
            out.push(c);
        }
        i = i + 1;
    }
    proof {
        assert(out@ =~= vig_seq(message@, key@, enc));
    }
    text::chars_to_string(&out)
}

/// Encodes `message` under the repeating `key`: each ASCII letter is shifted
/// by the next key letter's alphabet position, preserving case; other
/// characters pass through. A message with an ASCII letter needs a non-empty
/// key.
pub fn encode(message: &str, key: &str) -> (r: String)
    requires
        (exists|i: int|
            0 <= i < message@.len() && is_ascii_letter(message@[i])) ==> key@.len() > 0,
    ensures
        r@ == vig_seq(message@, key@, true),
{
    handle(message, key, true)
}

/// Decodes `message` under the repeating `key`, undoing `encode` with the
/// same key.
pub fn decode(message: &str, key: &str) -> (r: String)
    requires
        (exists|i: int|
            0 <= i < message@.len() && is_ascii_letter(message@[i])) ==> key@.len() > 0,
    ensures
        r@ == vig_seq(message@, key@, false),
{
    handle(message, key, false)
}


/// A successful brute-force decode: the recovered plaintext and the
/// dictionary word that served as its key.
#[derive(Debug)]
pub struct BruteForceResponse {
    pub decoded_message: String,
    pub key: String,
}

impl PartialEq for BruteForceResponse {
    fn eq(&self, other: &BruteForceResponse) -> (r: bool) {
        self.decoded_message == other.decoded_message && self.key == other.key
    }
}

impl vstd::std_specs::cmp::PartialEqSpecImpl for BruteForceResponse {
    open spec fn obeys_eq_spec() -> bool {
        true
    }

    open spec fn eq_spec(&self, other: &BruteForceResponse) -> bool {
        self.decoded_message@ == other.decoded_message@ && self.key@ == other.key@
    }
}

/// Whether decoding `msg` under the candidate key `w` yields English-like
/// text by the detector's measure.
pub open spec fn candidate_passes(det: Detector, msg: Seq<char>, w: Seq<char>) -> bool {
    spec_is_english(det.dict_words(), det.threshold(), vig_seq(msg, w, false))
}

/// How many entries of `ws` are non-empty; these are the candidates a
/// bounded search counts against its limit.
pub open spec fn count_nonempty(ws: Seq<Seq<char>>) -> int
    decreases ws.len(),
{
    if ws.len() == 0 {
        0
    } else {
        count_nonempty(ws.drop_last()) + if ws.last().len() > 0 {
            1int
        } else {
            0int
        }
    }
}

/// A longer prefix counts at least as many candidates, and counting no new
/// ones means every entry in between is empty.
proof fn lemma_count_nonempty_range(ws: Seq<Seq<char>>, k: int, m: int)
    requires
        0 <= k <= m <= ws.len(),
    ensures
        count_nonempty(ws.take(k)) <= count_nonempty(ws.take(m)),
        count_nonempty(ws.take(k)) == count_nonempty(ws.take(m)) ==> forall|j: int|
            k <= j < m ==> (#[trigger] ws[j]).len() == 0,
    decreases m - k,
{
    if k < m {
        lemma_count_nonempty_range(ws, k, m - 1);
        assert(ws.take(m).drop_last() =~= ws.take(m - 1));
        assert(ws.take(m).last() == ws[m - 1]);
    }
}

/// Tries dictionary words, in enumeration order and skipping the empty
/// word, as repeating keys, at most `limit` of them, and returns the first
/// whose decode the detector classifies as English: the returned key stands
/// in the enumeration within the first `limit` non-empty candidates, and
/// every candidate enumerated before it fails. The search fails with
/// `NotFoundError` exactly when each of the first `limit` non-empty
/// candidates fails; which key is reported on ties is enumeration-order
/// dependent, the child order of the trie being unspecified.
pub fn decode_brute_force(message: &str, limit: usize, detector: &Detector) -> (r: Result<
    BruteForceResponse,
    CipherError,
>)
    requires
        detector.wf(),
    ensures
        match r {
            Ok(resp) => ({
                let ws = words_list(Seq::empty(), detector.model());
                &&& resp.key@.len() > 0
                &&& detector.dict_words().contains(resp.key@)
                &&& resp.decoded_message@ == vig_seq(message@, resp.key@, false)
                &&& candidate_passes(*detector, message@, resp.key@)
                &&& exists|j: int|
                    {
                        &&& 0 <= j < ws.len()
                        &&& #[trigger] ws[j] == resp.key@
                        &&& count_nonempty(ws.take(j + 1)) <= limit
                        &&& forall|l: int|
                            0 <= l < j ==> (#[trigger] ws[l]).len() == 0 || !candidate_passes(
                                *detector,
                                message@,
                                ws[l],
                            )
                    }
            }),
            Err(e) => ({
                let ws = words_list(Seq::empty(), detector.model());
                &&& e == CipherError::NotFoundError
                &&& forall|j: int|
                    0 <= j < ws.len() && (#[trigger] ws[j]).len() > 0 && count_nonempty(
                        ws.take(j + 1),
                    ) <= limit ==> !candidate_passes(*detector, message@, ws[j])
                &&& (limit >= count_nonempty(ws) ==> forall|w: Seq<char>|
                    detector.dict_words().contains(w) && w.len() > 0 ==> !candidate_passes(
                        *detector,
                        message@,
                        w,
                    ))
            }),
        },
{
    let mut it = detector.iter_dictionary_words();
    let ghost ws = words_list(Seq::empty(), detector.model());
    let ghost mut k: int = 0;
    let mut tried: usize = 0;
    proof {
        assert(ws.skip(0) =~= ws);
        assert(ws.take(0) =~= Seq::<Seq<char>>::empty());
        detector.lemma_wf_model();
        lemma_enumeration_complete(detector.model());
    }
    loop
        invariant
            detector.wf(),
            ws == words_list(Seq::empty(), detector.model()),
            0 <= k <= ws.len(),
            it.remaining() == ws.skip(k),
            tried as int == count_nonempty(ws.take(k)),
            tried <= limit,
            forall|j: int|
                0 <= j < k ==> (#[trigger] ws[j]).len() == 0 || !candidate_passes(
                    *detector,
                    message@,
                    ws[j],
                ),
            forall|w: Seq<char>|
                #[trigger] ws.contains(w) <==> detector.dict_words().contains(w),
        decreases ws.len() - k,
    {
        if tried == limit {
            proof {
                lemma_count_nonempty_range(ws, k, ws.len() as int);
                assert(ws.take(ws.len() as int) =~= ws);
                assert forall|j: int|
                    0 <= j < ws.len() && (#[trigger] ws[j]).len() > 0 && count_nonempty(
                        ws.take(j + 1),
                    ) <= limit implies !candidate_passes(*detector, message@, ws[j]) by {
                    if j >= k {
                        lemma_count_nonempty_range(ws, k, j);
                        assert(ws.take(j + 1).drop_last() =~= ws.take(j));
                        assert(ws.take(j + 1).last() == ws[j]);
                        assert(count_nonempty(ws.take(j + 1)) >= limit + 1);
                    }
                }
                if limit >= count_nonempty(ws) {
                    assert forall|w: Seq<char>|
                        detector.dict_words().contains(w) && w.len() > 0 implies !candidate_passes(
                        *detector,
                        message@,
                        w,
                    ) by {
                        assert(ws.contains(w));
                        let j = choose|j: int| 0 <= j < ws.len() && ws[j] == w;
                        if j >= k {
                            assert(ws[j].len() == 0);
                        }
                    }
                }
            }
            return Err(CipherError::NotFoundError);
        }
        match it.next() {
            None => {
                proof {
                    assert(ws.skip(k).len() == 0);
                    assert(k == ws.len());
                    assert forall|j: int|
                        0 <= j < ws.len() && (#[trigger] ws[j]).len() > 0 && count_nonempty(
                            ws.take(j + 1),
                        ) <= limit implies !candidate_passes(*detector, message@, ws[j]) by {
                        assert(j < k);
                    }
                    assert forall|w: Seq<char>|
                        detector.dict_words().contains(w) && w.len() > 0 implies !candidate_passes(
                        *detector,
                        message@,
                        w,
                    ) by {
                        assert(ws.contains(w));
                        let j = choose|j: int| 0 <= j < ws.len() && ws[j] == w;
                    }
                }
                return Err(CipherError::NotFoundError);
            },
            Some(word) => {
                proof {
                    assert(ws.skip(k)[0] == ws[k]);
                    assert(word@ == ws[k]);
                    assert(ws.skip(k).drop_first() =~= ws.skip(k + 1));
                    assert(ws.take(k + 1).drop_last() =~= ws.take(k));
                    assert(ws.take(k + 1).last() == ws[k]);
                }
                let empty_word = word.as_str().is_empty();
                if !empty_word {
                    tried = tried + 1;
                    let plain = decode(message, word.as_str());
                    let accepted = detector.is_english(plain.as_str());
                    if accepted {
                        proof {
                            assert(detector.dict_words().contains(word@)) by {
                                assert(ws.contains(ws[k]));
                            }
                            assert(count_nonempty(ws.take(k + 1)) == tried);
                            assert(0 <= k < ws.len() && ws[k] == word@ && count_nonempty(
                                ws.take(k + 1),
                            ) <= limit && forall|l: int|
                                0 <= l < k ==> (#[trigger] ws[l]).len() == 0
                                    || !candidate_passes(*detector, message@, ws[l]));
                        }
                        return Ok(BruteForceResponse { decoded_message: plain, key: word });
                    }
                }
                proof {
                    k = k + 1;
                }
            },
        }
    }
}

/// A shift by an in-range amount maps letters to letters of the same case
/// and leaves everything else untouched.
proof fn lemma_shift_char_letter(c: char, k: int)
    requires
        0 <= k < 26,
    ensures
        text::is_lower_char(caeser_cipher::shift_char(c, k)) == text::is_lower_char(c),
        text::is_upper_char(caeser_cipher::shift_char(c, k)) == text::is_upper_char(c),
{
}

/// Encoding does not move key positions: the encoded text has ASCII letters
/// exactly where the message does, so it consumes the key in the same
/// places.
proof fn lemma_alpha_count_preserved(msg: Seq<char>, key: Seq<char>, i: int)
    requires
        0 <= i <= msg.len(),
    ensures
        alpha_count(vig_seq(msg, key, true), i) == alpha_count(msg, i),
    decreases i,
{
    if i > 0 {
        lemma_alpha_count_preserved(msg, key, i - 1);
        let e = vig_seq(msg, key, true)[i - 1];
        let c = msg[i - 1];
        if is_ascii_letter(c) && key.len() > 0 {
            match vig_shift(key[alpha_count(msg, i - 1) % (key.len() as int)]) {
                Some(sh) => {
                    lemma_shift_char_letter(c, sh);
                },
                None => {},
            }
        }
    }
}

/// Round trip: decoding with the key that encoded a message restores it,
/// character for character.
pub proof fn lemma_vigenere_roundtrip(msg: Seq<char>, key: Seq<char>)
    ensures
        vig_seq(vig_seq(msg, key, true), key, false) == msg,
{
    let enc = vig_seq(msg, key, true);
    assert(enc.len() == msg.len());
    assert forall|i: int| 0 <= i < msg.len() implies vig_seq(enc, key, false)[i] == msg[i] by {
        lemma_alpha_count_preserved(msg, key, i);
        let c = msg[i];
        if is_ascii_letter(c) && key.len() > 0 {
            let k = key[alpha_count(msg, i) % (key.len() as int)];
            match vig_shift(k) {
                Some(sh) => {
                    lemma_shift_char_letter(c, sh);
                    caeser_cipher::lemma_shift_char_roundtrip(c, sh);
                    assert(caeser_cipher::inverse_shift(sh) == (26 - sh) % 26);
                    assert(is_ascii_letter(enc[i]));
                },
                None => {
                    assert(enc[i] == c);
                },
            }
        } else {
            assert(enc[i] == c);
        }
    }
    assert(vig_seq(enc, key, false) =~= msg);
}

} // verus!
