//! HaruhiCrypt: a block cipher that rearranges the bytes of each eight-byte
//! block by a permutation taken from a superpermutation of eight symbols,
//! with the file envelope that carries the plaintext's file extension, a
//! random IV and an HMAC-SHA256 tag.

pub mod primitives;
pub mod superperm;
pub mod superperm_laws;
pub mod superperm_length;
pub mod cipher;
pub mod format;
pub mod envelope;
pub mod display;
