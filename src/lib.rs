//! Leighton-Micali hash-based signatures: one-time keys (LM-OTS), Merkle
//! trees of them (LMS), and the byte formats of keys and signatures.
pub mod codec;
pub mod hasher;
pub mod lm_ots;
pub mod lms;
pub mod hss;
