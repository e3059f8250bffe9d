//! Order-revealing encryption: the block ORE scheme of Lewi and Wu with a
//! 2-bit indicator function over 8-bit blocks, built on AES-128.
//!
//! A plaintext is a string of up to 15 bytes (a 64-bit integer is its eight
//! big-endian bytes, see [`plaintext`]). Its left ciphertext is used at query
//! time; its right ciphertext, under a fresh random nonce, is kept at rest;
//! comparing a left ciphertext with a combined one reveals the order of the
//! plaintexts and nothing more. Ciphertexts serialize to a header-prefixed
//! byte format ([`ciphertext`]).
use vstd::prelude::*;

pub mod block_types;
pub mod ciphertext;
pub mod header;
pub mod plaintext;
pub mod primitives;
pub mod scheme;
pub mod small_domain;

verus! {

} // verus!
