use vstd::prelude::*;

use crate::caeser_cipher;

verus! {

/// Shifts every ASCII letter of `message` forward by `key` places (modulo
/// 26), preserving case; other characters pass through unchanged. This is
/// the same cipher as `caeser_cipher`, kept under its other spelling.
pub fn encode(message: &str, key: u8) -> (r: String)
    ensures
        r@ == caeser_cipher::shift_seq(message@, (key % 26) as int),
{
    caeser_cipher::encode(message, key)
}

/// Shifts every ASCII letter of `message` backward by `key` places (modulo
/// 26), undoing `encode` with the same key.
pub fn decode(message: &str, key: u8) -> (r: String)
    ensures
        r@ == caeser_cipher::shift_seq(message@, caeser_cipher::inverse_shift(key as int)),
{
    caeser_cipher::decode(message, key)
}

} // verus!
