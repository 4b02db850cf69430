//! Key recovery for a small substitution–permutation block cipher by a
//! meet-in-the-middle attack on known plaintext/ciphertext pairs.

pub mod cipher;
pub mod solver;
pub mod input;
