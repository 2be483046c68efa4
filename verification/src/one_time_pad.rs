use vstd::prelude::*;

use base64::Engine;

use crate::errors::CipherError;
use crate::text;

verus! {

/// The URL-safe base64 rendering of a byte string: a function of the bytes
/// alone, per RFC 4648.
pub uninterp spec fn b64_of(v: Seq<u8>) -> Seq<char>;

/// What a character string decodes to as URL-safe base64, if anything: a
/// function of the characters alone.
pub uninterp spec fn b64_decode_of(s: Seq<char>) -> Option<Seq<u8>>;

/// Relies on base64's `GeneralPurpose::encode` with the URL-safe alphabet:
/// the encoding is a function of the input bytes, and decoding inverts it.
#[verifier::external_body]
fn b64_encode(v: &Vec<u8>) -> (r: String)
    ensures
        r@ == b64_of(v@),
        b64_decode_of(r@) == Some(v@),
{
    let config = base64::engine::GeneralPurposeConfig::new().with_decode_padding_mode(
        base64::engine::DecodePaddingMode::Indifferent,
    );
    let engine = base64::engine::GeneralPurpose::new(&base64::alphabet::URL_SAFE, config);
    engine.encode(v.as_slice())
}

/// Relies on base64's `GeneralPurpose::decode` with the URL-safe alphabet
/// and padding accepted either way: success and the decoded bytes depend on
/// the input characters alone.
#[verifier::external_body]
fn b64_decode(s: &str) -> (r: Option<Vec<u8>>)
    ensures
        (r is Some) == (b64_decode_of(s@) is Some),
        r matches Some(v) ==> b64_decode_of(s@) == Some(v@),
{
    let config = base64::engine::GeneralPurposeConfig::new().with_decode_padding_mode(
        base64::engine::DecodePaddingMode::Indifferent,
    );
    let engine = base64::engine::GeneralPurpose::new(&base64::alphabet::URL_SAFE, config);
    engine.decode(s).ok()
}

/// Relies on rand's `thread_rng` and `gen_range`: the draw lies in the
/// requested inclusive range. Nothing more is promised of a random value.
#[verifier::external_body]
fn random_pad_char() -> (c: char)
    ensures
        'A' <= c && c <= 'z',
{
    rand::Rng::gen_range(&mut rand::thread_rng(), 'A'..='z')
}

/// The low byte of each character's code point: for ASCII text, exactly its
/// bytes; a character beyond ASCII is truncated to its low byte.
pub open spec fn char_bytes(s: Seq<char>) -> Seq<u8> {
    Seq::new(s.len(), |i: int| (((s[i] as u32)) as u8))
}

/// Bytes read back as characters, one character per byte.
pub open spec fn byte_chars(b: Seq<u8>) -> Seq<char> {
    Seq::new(b.len(), |i: int| (b[i] as char))
}

/// Whether every character of `s` is ASCII.
pub open spec fn all_ascii(s: Seq<char>) -> bool {
    forall|i: int| 0 <= i < s.len() ==> ((#[trigger] s[i]) as u32) < 128
}

/// The byte-wise XOR of two byte strings, as long as the shorter of the two.
pub open spec fn xor_zip(a: Seq<u8>, b: Seq<u8>) -> Seq<u8> {
    Seq::new(
        if a.len() <= b.len() {
            a.len()
        } else {
            b.len()
        },
        |i: int| a[i] ^ b[i],
    )
}

/// A one-time-pad encoding: the base64-rendered ciphertext together with the
/// pad that produced it.
pub struct PadResponse {
    pub key: String,
    pub encoded_message: String,
}

fn xor_chars(msg: &Vec<char>, key: &Vec<char>) -> (r: Vec<u8>)
    requires
        key@.len() >= msg@.len(),
    ensures
        r@ == xor_zip(char_bytes(msg@), char_bytes(key@)),
{
    let n = msg.len();
    let mut r: Vec<u8> = Vec::new();
    let mut i: usize = 0;
    while i < n
        invariant
            i <= n,
            n == msg@.len(),
            key@.len() >= n,
            r@ =~= xor_zip(char_bytes(msg@), char_bytes(key@)).take(i as int),
        decreases n - i,
    {
        let m = (msg[i] as u32) as u8;
        let k = (key[i] as u32) as u8;
        proof {
            assert(m == char_bytes(msg@)[i as int]);
            assert(k == char_bytes(key@)[i as int]);
        }
        r.push(m ^ k);
        i = i + 1;
    }
    proof {
        assert(r@ =~= xor_zip(char_bytes(msg@), char_bytes(key@)));
    }
    r
}

/// Encodes an ASCII message with an explicit pad: each message byte is
/// XOR-ed with the pad byte at the same position, and the result is rendered
/// as URL-safe base64.
pub fn encode_with_key(message: &str, key: &str) -> (r: String)
    requires
        key@.len() >= message@.len(),
    ensures
        r@ == b64_of(xor_zip(char_bytes(message@), char_bytes(key@))),
        b64_decode_of(r@) == Some(xor_zip(char_bytes(message@), char_bytes(key@))),
{
    let msg = text::str_chars(message);
    let key_chars = text::str_chars(key);
    let xored = xor_chars(&msg, &key_chars);
    b64_encode(&xored)
}

/// Encodes an ASCII message with a freshly drawn random pad of the same
/// length, returning both the pad and the base64 ciphertext. The ciphertext
/// decodes back to the pad-XORed message, so decoding with the returned pad
/// restores the message.
pub fn encode(message: &str) -> (r: PadResponse)
    ensures
        r.key@.len() == message@.len(),
        forall|i: int| 0 <= i < r.key@.len() ==> 'A' <= #[trigger] r.key@[i] && r.key@[i] <= 'z',
        r.encoded_message@ == b64_of(xor_zip(char_bytes(message@), char_bytes(r.key@))),
        b64_decode_of(r.encoded_message@) == Some(
            xor_zip(char_bytes(message@), char_bytes(r.key@)),
        ),
{
    let msg = text::str_chars(message);
    let n = msg.len();
    let mut key_chars: Vec<char> = Vec::new();
    let mut i: usize = 0;
    while i < n
        invariant
            i <= n,
            key_chars@.len() == i,
            forall|l: int|
                0 <= l < i ==> 'A' <= #[trigger] key_chars@[l] && key_chars@[l] <= 'z',
        decreases n - i,
    {
        let c = random_pad_char();
        key_chars.push(c);
        i = i + 1;
    }
    let xored = xor_chars(&msg, &key_chars);
    let encoded = b64_encode(&xored);
    let key = text::chars_to_string(&key_chars);
    PadResponse { key, encoded_message: encoded }
}

/// Decodes a base64 ciphertext with the given ASCII pad: the decoded bytes
/// are XOR-ed with the pad, shorter of the two deciding the length, and read
/// back as characters. A string that is not valid base64 is a `FormatError`.
pub fn decode(message: &str, key: &str) -> (r: Result<String, CipherError>)
    ensures
        match r {
            Ok(s) => match b64_decode_of(message@) {
                Some(bs) => s@ == byte_chars(xor_zip(bs, char_bytes(key@))),
                None => false,
            },
            Err(e) => e == CipherError::FormatError && b64_decode_of(message@) is None,
        },
{
    match b64_decode(message) {
        None => Err(CipherError::FormatError),
        Some(bs) => {
            let key_chars = text::str_chars(key);
            let n = if bs.len() <= key_chars.len() {
                bs.len()
            } else {
                key_chars.len()
            };
            let mut out: Vec<char> = Vec::new();
            let mut i: usize = 0;
            let ghost target = byte_chars(xor_zip(bs@, char_bytes(key@)));
            while i < n
                invariant
                    i <= n,
                    n == target.len(),
                    n <= bs@.len(),
                    n <= key_chars@.len(),
                    key_chars@ == key@,
                    target == byte_chars(xor_zip(bs@, char_bytes(key@))),
                    out@ =~= target.take(i as int),
                decreases n - i,
            {
                let k = (key_chars[i] as u32) as u8;
                proof {
                    assert(k == char_bytes(key@)[i as int]);
                }
                let x = bs[i] ^ k;
                out.push(x as char);
                i = i + 1;
            }
            proof {
                assert(out@ =~= target);
            }
            Ok(text::chars_to_string(&out))
        },
    }
}

/// XOR-ing twice with the same pad gives the message back: decoding an
/// encoding, with the pad that made it, restores every character of an ASCII
/// message.
pub proof fn lemma_pad_roundtrip(msg: Seq<char>, key: Seq<char>)
    requires
        all_ascii(msg),
        key.len() >= msg.len(),
    ensures
        byte_chars(xor_zip(xor_zip(char_bytes(msg), char_bytes(key)), char_bytes(key)))
            == msg,
{
    let mb = char_bytes(msg);
    let kb = char_bytes(key);
    let twice = xor_zip(xor_zip(mb, kb), kb);
    assert(twice.len() == msg.len());
    assert forall|i: int| 0 <= i < msg.len() implies byte_chars(twice)[i] == msg[i] by {
        let m = mb[i];
        let k = kb[i];
        assert((m ^ k) ^ k == m) by (bit_vector);
        assert((msg[i] as u32) < 128);
        assert(m == (msg[i] as u32) as u8);
        vstd::utf8::char_u32_cast(msg[i], msg[i] as u32);
        assert((m as char) == msg[i]);
    }
    assert(byte_chars(twice) =~= msg);
}

} // verus!
