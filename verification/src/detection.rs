pub mod compress;
pub mod detect_english;
pub mod trie;
