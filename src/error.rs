//! The ways an operation of this library can fail.
use vstd::prelude::*;

verus! {

/// Why a derivation, a cipher step or a token could not be processed.
#[derive(Debug, Clone, Copy, PartialEq, Eq, Structural)]
pub enum CipherError {
    /// The password-based key derivation reported an error.
    KeyDerivationFailed,
    /// The block cipher could not encrypt the data.
    EncryptionFailed,
    /// The key or the IV does not have the length the cipher needs.
    InvalidKeyOrIv,
    /// The ciphertext has a bad length or bad padding.
    InvalidCiphertext,
    /// The token is too short or one of its two parts is not base64.
    MalformedToken,
    /// A layer could not be decrypted: wrong password, damaged or foreign data.
    DecryptionFailed,
}

} // verus!
