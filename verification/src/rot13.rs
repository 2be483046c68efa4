use vstd::prelude::*;

use crate::caeser_cipher;

verus! {

/// The shift cipher with the fixed key 13, which is its own inverse.
pub fn encode(message: &str) -> (r: String)
    ensures
        r@ == caeser_cipher::shift_seq(message@, 13),
{
    caeser_cipher::encode(message, 13)
}

/// Decodes a ROT-13 message; the same as encoding it again.
pub fn decode(message: &str) -> (r: String)
    ensures
        r@ == caeser_cipher::shift_seq(message@, 13),
{
    let r = caeser_cipher::decode(message, 13);
    proof {
        assert(caeser_cipher::inverse_shift(13) == 13);
    }
    r
}

} // verus!
