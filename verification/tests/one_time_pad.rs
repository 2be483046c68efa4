use rand::Rng;
use rand::SeedableRng;
use rand::rngs::StdRng;

use rusty_cryptography_kit::errors::CipherError;
use rusty_cryptography_kit::one_time_pad;

const PLAIN_TEXT: &str = "On offering to help the blind man, the man who then stole his car, had not, at that precise moment,
  had any evil intention, quite the contrary, what he did was nothing more than obey those feelings of generosity and altruism which,
  as everyone knows, are the two best traits of human nature and to be found in much more hardened criminals than this one,
  a simple car-thief without any hope of advancing in his profession, exploited by the real owners of this enterprise,
  for it is they who take advantage of the needs of the poor.";

const EXPECTED_ENCODED: &str = "IB5lCQ8tIisMDTBuLQ1RGBMMIk4pGRJpBwk5Fj5aOy07RUkQPyR1DhkhaAEzB1ADMiQMWT4TNyUdSiEiKHkVABhaTQE3NGY2CwRIeSwhZSA8FTVtLiUdPzcvAG8wMycJGC9IcExQJzEhaBQjFngoLRwJUDUCJi8XJhAdFEl-Ej4dIAFXFDY_fC8JDx8eNTUYX1gcDSQWVQErezYnLX4eARFAFx86Hz42EUoIHBc4WAQPFAhANjsRHU0iLBckPngACwkBOg8MNVkfK2UVFiQ8ERUKCgQ0dgcIPXAlHwwfFyU2GmYxEgE1K2pXR3YQCn8rPwoEKQobCGUxKj8BC0Z9Kxw5bjY8EFIOGDFxOi0hPmofAhYsIBJXOBdPJjgHIyFZBykGLCo3TigHDmosJnkqE30cOhwlL3o0MncsAz8xeQUzEyR1EioCNC0WIzVuOzEAFTU2CB8YeTYzFBh9Nw82GnMFGA5qS3F5LnYHCzMpHyNyPiwkXQY2ODAvSDk1PBo0OSdOPgAoWiMhOw5lCylAOT0TNw4-Ow8iYyE1bxAtJmcaKxg8NBgxEQwcf0YkPxMiACYkJjtJBANNDgYzQCEWJC9CFSUOLzwDbiopeBUEGCJVFTwaCiIvByg4Jm1lcEEWMjF1IBNEBDRUJQMAA38eIwFQNTsqNWMqMycXHyc2IABzLShSFyURdTAvIgAtRhclZgQdKHwBFxY_Wg==";
const DECODE_KEY: &str = r#"opEfiKGYecWNYbqpv`Rn]qwIeePxZzVLUiidWAUcxOHv[hpwZAbyMgXIxjIK[YvajvmiVPFXdpdYMUETTtAM^Wx\^\eO]\Jlv[dzlpOPEHuMoXM[uep\lRJyRyrze^cKtTdw`^Z\LfaklTGasxkeEbuiN[RNI^i`b`ypNwWXvjese]xpguf`YYtdmVDxW[XfnlmSakFypMErsJYczycpMVffYPDsxmbLEwFFzhVCF]gVqy_NIovPeumEZDPvxj]Jn\NBTurzo^QXHRJJkpwETawWqoNMjBOyiHrYXRnIijJXIYHv]zUiKKZ]\WAv\YYh\aAUzKpPHxFQNXCix\XiskYB[uv]Cg_iSjvkFAQYOVtb^YsFR]MVpr^QUIhN\Hr[LSn_nQzKNKkEdO`XYeV`]RaECH[OxDUGjYwZQkBxcrSfAGcNoOPC_ifzmznV`SsECbzR`JNpNEOXalqQupRnoP_uAKCAoPap]CUIgdmGtQkez_iKnpAZAPCKWQvqSWGeSBNrcMtU^JGd^fxCFpuM\qxyMt"#;

/// The pad that a length-seeded generator draws: one character per message
/// character, each seeded with the number of characters drawn so far.
fn seeded_key(len: usize) -> String {
    let mut key = String::new();
    for i in 0..len {
        let c: char = StdRng::seed_from_u64(i as u64).gen_range('A'..='z');
        key.push(c);
    }
    key
}

#[test]
fn one_time_pad_test_encode() {
    let key = seeded_key(PLAIN_TEXT.len());
    let encoded = one_time_pad::encode_with_key(PLAIN_TEXT, &key);
    assert_eq!(EXPECTED_ENCODED, encoded);
}

#[test]
fn one_time_pad_test_decode() {
    let message = one_time_pad::decode(EXPECTED_ENCODED, DECODE_KEY).expect("no errors");
    assert_eq!(PLAIN_TEXT, message)
}

#[test]
fn test_pad_random_roundtrip() {
    let pad = one_time_pad::encode("a short secret message");
    assert_eq!(pad.key.len(), "a short secret message".len());
    let back = one_time_pad::decode(&pad.encoded_message, &pad.key).expect("no errors");
    assert_eq!("a short secret message", back);
}

#[test]
fn test_pad_decode_malformed() {
    let got = one_time_pad::decode("not*valid*base64!", "somekey");
    assert_eq!(got.unwrap_err(), CipherError::FormatError);
}
