use rusty_cryptography_kit::atbash_cipher;
use rusty_cryptography_kit::caeser_cipher;
use rusty_cryptography_kit::ceaser_cipher;
use rusty_cryptography_kit::detection::detect_english::Detector;
use rusty_cryptography_kit::detection::trie::Trie;
use rusty_cryptography_kit::errors::CipherError;
use rusty_cryptography_kit::rot13;
use rusty_cryptography_kit::vigenere_cipher;

#[test]
fn atbash_cipher_test_encode() {
    assert_eq!(
        "Hzoob hvooh hvz hsvooh yb gsv hvzhsliv.",
        atbash_cipher::encode("Sally sells sea shells by the seashore.")
    );
    atbash_cipher::encode("hello");
}

#[test]
fn atbash_cipher_test_decode() {
    assert_eq!(
        "Sally sells sea shells by the seashore.",
        atbash_cipher::decode("Hzoob hvooh hvz hsvooh yb gsv hvzhsliv.")
    );
}

#[test]
fn caeser_cipher_test_encode() {
    assert_eq!("aaaa", &caeser_cipher::encode("aaaa", 0));
    assert_eq!("bbbb", &caeser_cipher::encode("aaaa", 1));
    assert_eq!("zzzz", &caeser_cipher::encode("aaaa", 25));
    assert_eq!("aaaa", &caeser_cipher::encode("aaaa", 26));
    assert_eq!("bbbb", &caeser_cipher::encode("aaaa", 27));
    assert_eq!("gggg26QQGHpgnyfd", &caeser_cipher::encode("aaaa26KKABjahszx", 6));
}

#[test]
fn caeser_cipher_test_decode() {
    assert_eq!("aaaa", &caeser_cipher::decode("bbbb", 1));
    assert_eq!("aaaa", &caeser_cipher::decode("zzzz", 25));
    assert_eq!("aaaa", &caeser_cipher::decode("aaaa", 26));
    assert_eq!("aaaa", &caeser_cipher::decode("bbbb", 27));
    assert_eq!("aaaa26KKABjahszx", &caeser_cipher::decode("gggg26QQGHpgnyfd", 6));
}

fn shift_detector() -> Detector {
    let mut trie = Trie::new();
    for word in ["if", "he", "had", "anything", "confidential"] {
        trie.insert(word);
    }
    Detector::new(trie)
}

#[test]
fn test_decode_bruteforce() {
    let detector = shift_detector();
    let got_decode = caeser_cipher::decode_brute_force("Pm ol ohk hufaopun jvumpkluaphs...", &detector)
        .expect("to be able to decode");
    assert_eq!(
        caeser_cipher::BruteForceResponse {
            decoded_message: "If he had anything confidential...".to_string(),
            key: 7,
        },
        got_decode
    );
}

#[test]
fn test_shift_brute_force_not_found() {
    let detector = shift_detector();
    let got = caeser_cipher::decode_brute_force("xq zzq wvw", &detector);
    assert_eq!(got.unwrap_err(), CipherError::NotFoundError);
}

#[test]
fn ceaser_cipher_test_encode() {
    // Encode
    assert_eq!("bbbb", &ceaser_cipher::encode("aaaa", 1));
    assert_eq!("zzzz", &ceaser_cipher::encode("aaaa", 25));
    assert_eq!("aaaa", &ceaser_cipher::encode("aaaa", 26));
    assert_eq!("bbbb", &ceaser_cipher::encode("aaaa", 27));
    assert_eq!("gggg26QQGHpgnyfd", &ceaser_cipher::encode("aaaa26KKABjahszx", 6));

    // Decode
    assert_eq!("aaaa", &ceaser_cipher::decode("bbbb", 1));
    assert_eq!("aaaa", &ceaser_cipher::decode("zzzz", 25));
    assert_eq!("aaaa", &ceaser_cipher::decode("aaaa", 26));
    assert_eq!("aaaa", &ceaser_cipher::decode("bbbb", 27));
    assert_eq!("aaaa26KKABjahszx", &ceaser_cipher::decode("gggg26QQGHpgnyfd", 6));
}

#[test]
fn rot13_test_encode() {
    // Encode
    assert_eq!("nnnn", &rot13::encode("aaaa"));
    assert_eq!("nnnn26XXNOwnufmk", &rot13::encode("aaaa26KKABjahszx"));
}

#[test]
fn rot13_test_decode() {
    // Decode
    assert_eq!("aaaa", &rot13::decode("nnnn"));
    assert_eq!("aaaa26KKABjahszx", &rot13::decode("nnnn26XXNOwnufmk"));
}

#[test]
fn vigenere_cipher_test_encode() {
    assert_eq!(
        "Se arrxts, oeu tuh cchdr nzly dcnxwh pfu. Oh dpkhbxvd, nqd ealm nzly pavx fcl khrlr wxhrvi -Wuhew Hm Hzde",
        vigenere_cipher::encode(
            "Be normal, and the crowd will accept you. Be deranged, and they will make you their leader -Wheel Of Time",
            "randalthor"
        )
    );
}

#[test]
fn vigenere_cipher_test_decode() {
    assert_eq!(
        "Be normal, and the crowd will accept you. Be deranged, and they will make you their leader -Wheel Of Time",
        vigenere_cipher::decode(
            "Se arrxts, oeu tuh cchdr nzly dcnxwh pfu. Oh dpkhbxvd, nqd ealm nzly pavx fcl khrlr wxhrvi -Wuhew Hm Hzde",
            "randalthor"
        )
    );
}

fn vigenere_detector() -> Detector {
    let mut trie = Trie::new();
    for word in [
        "accept", "and", "be", "crowd", "deranged", "leader", "love", "make", "normal", "of",
        "the", "their", "they", "time", "wheel", "will", "you",
    ] {
        trie.insert(word);
    }
    Detector::new(trie)
}

#[test]
fn test_decode_brute_force() {
    let detector = vigenere_detector();
    assert_eq!(
        vigenere_cipher::BruteForceResponse {
            decoded_message: "Be normal, and the crowd will accept you. Be deranged, and they will make you their leader -Wheel Of Time".to_string(),
            key: "love".to_string(),
        },
        vigenere_cipher::decode_brute_force(
            "Ms iscavp, lby xss xvzky atzg enqzte mjy. Ms yicoikpr, vro hcij kdpw avop mjy evzmc zzeosm -Asszp Zt Omxs",
            usize::MAX,
            &detector
        )
        .expect("should be able to decode simple key")
    );
}

#[test]
fn test_vigenere_brute_force_not_found() {
    let detector = vigenere_detector();
    let got = vigenere_cipher::decode_brute_force("qzv xkcd mmpw", usize::MAX, &detector);
    assert_eq!(got.unwrap_err(), CipherError::NotFoundError);
}

#[test]
fn test_atbash_involution() {
    let original = "Mixed CASE text, with 123 punctuation!";
    assert_eq!(original, atbash_cipher::decode(&atbash_cipher::encode(original)));
}

#[test]
fn test_vigenere_roundtrip_exact() {
    let encoded = vigenere_cipher::encode("attack at dawn", "Lemon");
    assert_eq!("lxfopv ef rnhr", encoded);
    assert_eq!("attack at dawn", vigenere_cipher::decode(&encoded, "Lemon"));
}
