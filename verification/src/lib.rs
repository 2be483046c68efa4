pub mod atbash_cipher;
pub mod caeser_cipher;
pub mod ceaser_cipher;
pub mod detection;
pub mod errors;
pub mod one_time_pad;
pub mod rot13;
pub mod text;
pub mod vigenere_cipher;
