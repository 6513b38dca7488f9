//! A symmetric block cipher keyed by a passphrase, with three security levels.
//!
//! - `config`: the security levels (block size and round count) and the two actions.
//! - `sbox`: the byte substitution over GF(2^8) and its inverse.
//! - `hash`: the extendable-output hash the key schedule draws from.
//! - `keys`: master key, block keys and round keys.
//! - `cipher`: framing into padded blocks, the round transform, encryption and decryption.
pub mod cipher;
pub mod config;
pub mod hash;
pub mod keys;
pub mod sbox;
