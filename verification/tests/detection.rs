use rusty_cryptography_kit::detection::detect_english::Detector;
use rusty_cryptography_kit::detection::trie::Trie;
use rusty_cryptography_kit::errors::CipherError;

#[test]
fn test_trie() {
    let mut trie = Trie::new();
    trie.insert("hello");
    trie.insert("hi");
    trie.insert("hey");
    trie.insert("world");

    assert_eq!(trie.contains("hello"), true);
    assert_eq!(trie.contains("Hello"), true);
    assert_eq!(trie.contains("hello world"), false);

    trie.insert("hello world");
    assert_eq!(trie.contains("hello world"), true);
}

#[test]
fn test_display() {
    let mut trie = Trie::new();
    trie.insert("hello");
    trie.insert("hi");
    trie.insert("hey");
    trie.insert("world");

    let mut words_got: Vec<String> = Vec::new();
    let mut words = trie.iter_words();
    while let Some(word) = words.next() {
        words_got.push(word);
    }
    words_got.sort();
    assert_eq!(
        vec!["hello".to_string(), "hey".to_string(), "hi".to_string(), "world".to_string()],
        words_got
    );
}

fn english_detector() -> Detector {
    let mut trie = Trie::new();
    for word in [
        "a", "advancing", "advantage", "altruism", "and", "any", "are", "as", "at", "be", "best",
        "blind", "by", "car", "carthief", "contrary", "criminals", "did", "enterprise",
        "everyone", "evil", "exploited", "feelings", "for", "found", "generosity", "had",
        "hardened", "he", "hello", "help", "his", "hope", "human", "in", "intention", "is", "it",
        "knows", "man", "moment", "more", "much", "nature", "needs", "not", "nothing", "obey",
        "of", "offering", "on", "one", "owners", "poor", "precise", "profession", "quite",
        "real", "simple", "stole", "take", "than", "that", "the", "then", "they", "this",
        "those", "to", "traits", "two", "was", "what", "which", "who", "without", "world",
    ] {
        trie.insert(word);
    }
    Detector::new(trie)
}

#[test]
fn test_is_english() {
    let detector = english_detector();
    assert_eq!(true, detector.is_english("hello world"));

    let sample: &str = "On offering to help the blind man, the man who then stole his car, had not, at that precise moment,
  had any evil intention, quite the contrary, what he did was nothing more than obey those feelings of generosity and altruism which,
  as everyone knows, are the two best traits of human nature and to be found in much more hardened criminals than this one,
  a simple car-thief without any hope of advancing in his profession, exploited by the real owners of this enterprise,
  for it is they who take advantage of the needs of the poor.";
    assert_eq!(true, detector.is_english(sample));

    let spanish_sample: &str = "Al ofrecerse a ayudar al ciego, el hombre que luego le robó el coche, en ese preciso momento, no había
  tenía alguna mala intención, todo lo contrario, lo que hizo no fue más que obedecer a esos sentimientos de generosidad y altruismo que,
  como todo el mundo sabe, son los dos mejores rasgos de la naturaleza humana y se encuentran en criminales mucho más empedernidos que éste,
  un simple ladrón de coches sin esperanzas de progresar en su profesión, explotado por los verdaderos dueños de esta empresa,
  porque son ellos quienes se aprovechan de las necesidades de los pobres.";
    assert_eq!(false, detector.is_english(spanish_sample));
}

#[test]
fn test_is_english_empty() {
    let detector = english_detector();
    assert_eq!(false, detector.is_english(""));
    assert_eq!(false, detector.is_english("   \t \n "));
}

#[test]
fn test_threshold_validation() {
    let mut detector = english_detector();
    assert_eq!(detector.set_threshold(0).unwrap_err(), CipherError::ValidationError);
    assert_eq!(detector.set_threshold(1500).unwrap_err(), CipherError::ValidationError);
    assert_eq!(detector.set_threshold(-100).unwrap_err(), CipherError::ValidationError);
    assert!(detector.set_threshold(1000).is_ok());
    assert!(detector.set_threshold(10).is_ok());
}

#[test]
fn test_threshold_changes_classification() {
    let mut detector = english_detector();
    // Half of the tokens are English: below the 0.85 default, above 0.4.
    assert_eq!(false, detector.is_english("hello world zzz yyy"));
    detector.set_threshold(400).expect("a valid threshold");
    assert_eq!(true, detector.is_english("hello world zzz yyy"));
}

#[test]
fn test_case_insensitive_contains() {
    let mut trie = Trie::new();
    trie.insert("Hello");
    assert!(trie.contains("hello"));
    assert!(trie.contains("HELLO"));
    assert!(trie.contains("hElLo"));
}

#[test]
fn test_prefix_independence() {
    let mut trie = Trie::new();
    trie.insert("hello");
    assert_eq!(false, trie.contains("hell"));
    trie.insert("hell");
    assert_eq!(true, trie.contains("hell"));
    assert_eq!(true, trie.contains("hello"));

    let mut spaced = Trie::new();
    spaced.insert("hello world");
    assert_eq!(false, spaced.contains("hello"));
    assert_eq!(false, spaced.contains("world"));
    assert_eq!(true, spaced.contains("hello world"));
}

#[test]
fn test_enumeration_deduplicates() {
    let mut trie = Trie::new();
    trie.insert("tea");
    trie.insert("tea");
    trie.insert("ten");
    trie.insert("te");
    let mut got: Vec<String> = Vec::new();
    let mut words = trie.iter_words();
    while let Some(word) = words.next() {
        got.push(word);
    }
    got.sort();
    assert_eq!(vec!["te".to_string(), "tea".to_string(), "ten".to_string()], got);
}

#[test]
fn test_serialize_roundtrip() {
    let mut trie = Trie::new();
    for word in ["hello", "hell", "help", "world", "he"] {
        trie.insert(word);
    }
    let bytes = trie.serialize();
    let back = Trie::deserialize(&bytes).expect("a serialized trie deserializes");
    for word in ["hello", "hell", "help", "world", "he"] {
        assert!(back.contains(word));
    }
    for word in ["h", "hel", "worl", "worlds", "x", ""] {
        assert_eq!(trie.contains(word), back.contains(word));
        assert!(!back.contains(word));
    }
}

#[test]
fn test_compressed_roundtrip() {
    let mut trie = Trie::new();
    for word in ["alpha", "beta", "gamma"] {
        trie.insert(word);
    }
    let packed = trie.to_compressed();
    let back = Trie::from_compressed(&packed).expect("a compressed trie loads");
    assert!(back.contains("alpha"));
    assert!(back.contains("beta"));
    assert!(back.contains("gamma"));
    assert!(!back.contains("delta"));
}

#[test]
fn test_deserialize_malformed() {
    let garbage: Vec<u8> = vec![9, 9, 9, 9];
    assert_eq!(Trie::deserialize(&garbage).unwrap_err(), CipherError::FormatError);

    let truncated: Vec<u8> = Vec::new();
    assert_eq!(Trie::deserialize(&truncated).unwrap_err(), CipherError::FormatError);

    let not_gzip: Vec<u8> = vec![1, 2, 3];
    assert_eq!(Trie::from_compressed(&not_gzip).unwrap_err(), CipherError::FormatError);
}

#[test]
fn test_empty_trie() {
    let trie = Trie::new();
    assert_eq!(false, trie.contains(""));
    assert_eq!(false, trie.contains("anything"));
    let mut words = trie.iter_words();
    assert!(words.next().is_none());
}
