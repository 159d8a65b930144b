//! The cryptographic calls: PBKDF2-HMAC-SHA1 and AES-128-CBC from openssl,
//! the salt from rand, and the UTF-8 check of decrypted bytes.
use openssl::hash::MessageDigest;
use openssl::pkcs5::pbkdf2_hmac;
use openssl::symm::{decrypt, encrypt, Cipher};
use rand::Rng;
use vstd::prelude::*;
use vstd::utf8::{encode_utf8, valid_utf8};

verus! {

/// The `len` bytes that PBKDF2 with HMAC-SHA1 derives from a password and a salt.
pub uninterp spec fn pbkdf2_hmac_sha1(password: Seq<u8>, salt: Seq<u8>, iterations: nat, len: nat) -> Seq<u8>;

/// AES-128-CBC encryption with PKCS#7 padding.
pub uninterp spec fn aes_128_cbc_encrypt(key: Seq<u8>, iv: Seq<u8>, data: Seq<u8>) -> Seq<u8>;

/// AES-128-CBC decryption with PKCS#7 padding; `None` where length or padding is bad.
pub uninterp spec fn aes_128_cbc_decrypt(key: Seq<u8>, iv: Seq<u8>, data: Seq<u8>) -> Option<Seq<u8>>;

/// Largest input length the openssl calls take (their lengths are C ints).
pub const MAX_C_LEN: usize = 0x7fff_ffff;

/// Relies on openssl's `pkcs5::pbkdf2_hmac` with `MessageDigest::sha1()`: the
/// whole buffer of `len` bytes receives the derived key. openssl reports an
/// error only on an internal failure (allocation, missing provider), which is
/// treated as fatal.
#[verifier::external_body]
pub(crate) fn pbkdf2_sha1(password: &[u8], salt: &[u8], iterations: usize, len: usize) -> (r: Vec<u8>)
    requires
        password@.len() <= MAX_C_LEN,
        salt@.len() <= MAX_C_LEN,
        1 <= iterations <= MAX_C_LEN,
        1 <= len <= MAX_C_LEN,
    ensures
        r@ == pbkdf2_hmac_sha1(password@, salt@, iterations as nat, len as nat),
        r@.len() == len,
{
    let mut key = vec![0u8; len];
    pbkdf2_hmac(password, salt, iterations, MessageDigest::sha1(), &mut key).expect("openssl PBKDF2 failed");
    key
}

/// Relies on openssl's `symm::encrypt` with `Cipher::aes_128_cbc()` (padding on):
/// PKCS#7 padding adds 1 to 16 bytes up to the next block, and CBC decryption
/// under the same key and IV gives the data back. openssl reports an error
/// here only on an internal failure, which is treated as fatal.
#[verifier::external_body]
pub(crate) fn aes_encrypt(key: &[u8], iv: &[u8], data: &[u8]) -> (r: Vec<u8>)
    requires
        key@.len() == 16,
        iv@.len() == 16,
        data@.len() + 16 <= MAX_C_LEN,
    ensures
        r@ == aes_128_cbc_encrypt(key@, iv@, data@),
        r@.len() == 16 * (data@.len() / 16 + 1),
        aes_128_cbc_decrypt(key@, iv@, r@) == Some(data@),
{
    encrypt(Cipher::aes_128_cbc(), key, Some(iv), data).expect("openssl AES encryption failed")
}

/// Relies on openssl's `symm::decrypt` with `Cipher::aes_128_cbc()` (padding on):
/// it fails exactly on a bad length or bad padding.
#[verifier::external_body]
pub(crate) fn aes_decrypt(key: &[u8], iv: &[u8], data: &[u8]) -> (r: Option<Vec<u8>>)
    requires
        key@.len() == 16,
        iv@.len() == 16,
        data@.len() + 16 <= MAX_C_LEN,
    ensures
        r matches Some(p) ==> aes_128_cbc_decrypt(key@, iv@, data@) == Some(p@),
        aes_128_cbc_decrypt(key@, iv@, data@) is Some ==> r is Some,
{
    decrypt(Cipher::aes_128_cbc(), key, Some(iv), data).ok()
}

/// Relies on rand's `thread_rng().fill`: sixteen bytes from the thread's
/// cryptographically secure generator.
#[verifier::external_body]
pub(crate) fn random_salt() -> (r: Vec<u8>)
    ensures
        r@.len() == 16,
{
    let mut salt = [0u8; 16];
    rand::thread_rng().fill(&mut salt);
    salt.to_vec()
}

/// Relies on `String::from_utf8`: it succeeds exactly on valid UTF-8 and keeps the bytes.
#[verifier::external_body]
pub(crate) fn utf8_text(b: Vec<u8>) -> (r: Option<String>)
    ensures
        r matches Some(s) ==> encode_utf8(s@) == b@,
        valid_utf8(b@) ==> r is Some,
{
    String::from_utf8(b).ok()
}

} // verus!
