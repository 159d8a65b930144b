//! Layered password-based encryption of text into self-describing tokens.
pub mod crypto;
pub mod encoding;
pub mod error;
pub mod primitives;
pub mod token;
