//! Classic XOR cryptanalysis: hex and base64 codecs, repeating-key XOR,
//! English-likeness scoring, single-byte key recovery, key-length
//! estimation by Hamming distance, and repeating-key recovery.
pub mod analysis;
pub mod cipher;
pub mod codec;
pub mod score;
