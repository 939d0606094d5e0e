//! A symmetric, reversible byte transform: a multi-round
//! substitution-permutation scheme that encrypts and decrypts an in-memory
//! byte buffer with a variable-length key.
//!
//! The round count is derived from the key alone; each forward round applies
//! a keyed per-byte substitution followed by a keyed swap-chain permutation,
//! and decryption exactly reverses the rounds, reconstructing the
//! permutation's ending cursors by closed-form arithmetic.

pub mod args;
pub mod arith;
pub mod crypto;
pub mod perm;
pub mod progress;
pub mod subst;
