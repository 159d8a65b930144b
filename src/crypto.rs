//! One encryption layer (derive key and IV from password and a fresh salt,
//! encrypt, write a token), its inverse, and the folds over a list of passwords.
use vstd::prelude::*;
use vstd::slice::slice_subrange;
use vstd::utf8::{decode_utf8, encode_utf8, encode_utf8_decode_utf8, encode_utf8_valid_utf8, valid_utf8};

use crate::encoding::{lemma_base64_len, lemma_trim_end_len};
use crate::error::CipherError;
use crate::primitives::{
    aes_128_cbc_decrypt, aes_128_cbc_encrypt, aes_decrypt, aes_encrypt, pbkdf2_hmac_sha1, pbkdf2_sha1,
    random_salt, utf8_text, MAX_C_LEN,
};
use crate::token::{
    decode_token, encode_token, lemma_token_round_trip, token_parts, token_text, SALT_LEN,
    SALT_TEXT_LEN,
};

verus! {

/// PBKDF2 iteration count.
pub const ITERATIONS: usize = 20000;

/// AES-128 key length in bytes.
pub const KEY_LEN: usize = 16;

/// AES-CBC IV length in bytes.
pub const IV_LEN: usize = 16;

/// Key followed by IV, as derived from a password (its UTF-8 bytes) and a salt.
pub open spec fn key_material(password: Seq<char>, salt: Seq<u8>) -> Seq<u8> {
    pbkdf2_hmac_sha1(encode_utf8(password), salt, ITERATIONS as nat, (KEY_LEN + IV_LEN) as nat)
}

/// The key: the first 16 bytes of the key material.
pub open spec fn key_part(m: Seq<u8>) -> Seq<u8> {
    m.take(KEY_LEN as int)
}

/// The IV: the 16 bytes after the key.
pub open spec fn iv_part(m: Seq<u8>) -> Seq<u8> {
    m.subrange(KEY_LEN as int, (KEY_LEN + IV_LEN) as int)
}

/// Length in characters of the token for a text of `len` UTF-8 bytes: the
/// salt's 24 characters, then base64 of the padded ciphertext.
pub open spec fn token_len(len: nat) -> nat {
    SALT_TEXT_LEN as nat + 4 * ((16 * (len / 16 + 1) + 2) / 3)
}

/// The token for `text` under `password` with a given salt.
pub open spec fn seal(text: Seq<char>, password: Seq<char>, salt: Seq<u8>) -> Seq<char> {
    let m = key_material(password, salt);
    token_text(salt, aes_128_cbc_encrypt(key_part(m), iv_part(m), encode_utf8(text)))
}

/// The text a token holds under `password`, if it opens.
pub open spec fn open_token(token: Seq<char>, password: Seq<char>) -> Option<Seq<char>> {
    match token_parts(token) {
        None => None,
        Some((salt, ciphertext)) => {
            let m = key_material(password, salt);
            match aes_128_cbc_decrypt(key_part(m), iv_part(m), ciphertext) {
                Some(p) => if valid_utf8(p) {
                    Some(decode_utf8(p))
                } else {
                    None
                },
                None => None,
            }
        },
    }
}

/// Text that stands for a layer that could not be encrypted.
pub open spec fn encryption_failed() -> Seq<char> {
    "Encryption failed"@
}

/// Text that stands for a layer that could not be decrypted.
pub open spec fn decryption_failed() -> Seq<char> {
    "Decryption failed"@
}

/// A text and a password that one encryption layer can take: their UTF-8
/// forms fit the lengths openssl accepts.
pub open spec fn can_seal(text: Seq<char>, password: Seq<char>) -> bool {
    encode_utf8(password).len() <= MAX_C_LEN && encode_utf8(text).len() + 16 <= MAX_C_LEN
}

/// A sealed text whose token can in turn be opened within those lengths.
pub open spec fn can_seal_and_open(text: Seq<char>, password: Seq<char>) -> bool {
    encode_utf8(password).len() <= MAX_C_LEN && encode_utf8(text).len() + 32 <= MAX_C_LEN
}

/// What decrypting one token gives: the opened text where the token's parts
/// and the password fit the lengths openssl accepts.
pub open spec fn open_within(token: Seq<char>, password: Seq<char>) -> Option<Seq<char>> {
    match token_parts(token) {
        Some((salt, ciphertext)) => if encode_utf8(password).len() <= MAX_C_LEN && ciphertext.len()
            + 16 <= MAX_C_LEN {
            open_token(token, password)
        } else {
            None
        },
        None => None,
    }
}

/// The text one decryption layer gives.
pub open spec fn opened_text(token: Seq<char>, password: Seq<char>) -> Seq<char> {
    match open_within(token, password) {
        Some(p) => p,
        None => decryption_failed(),
    }
}

/// The text one step of the decrypting fold gives: the failure text stays.
pub open spec fn step_text(acc: Seq<char>, password: Seq<char>) -> Seq<char> {
    if acc == decryption_failed() {
        decryption_failed()
    } else {
        opened_text(acc, password)
    }
}

/// The decrypting fold: the last password first, down to the first.
pub open spec fn unseal_layers(t: Seq<char>, passwords: Seq<Seq<char>>) -> Seq<char>
    decreases passwords.len(),
{
    if passwords.len() == 0 {
        t
    } else {
        unseal_layers(step_text(t, passwords.last()), passwords.drop_last())
    }
}

/// `r` is what one encryption layer made of `text` under `password`.
pub open spec fn layer_sealed(r: Seq<char>, text: Seq<char>, password: Seq<char>) -> bool {
    if can_seal(text, password) {
        (exists|salt: Seq<u8>| salt.len() == SALT_LEN && r == #[trigger] seal(text, password, salt))
            && open_token(r, password) == Some(text) && r.len() == token_len(
            encode_utf8(text).len(),
        ) && encode_utf8(r).len() <= 2 * encode_utf8(
            text,
        ).len() + 64 && (can_seal_and_open(text, password)
            ==> open_within(r, password) == Some(text))
    } else {
        r == encryption_failed()
    }
}

/// `r` is `text` encrypted layer by layer under the passwords in list order.
pub open spec fn sealed_chain(r: Seq<char>, passwords: Seq<Seq<char>>, text: Seq<char>) -> bool
    decreases passwords.len(),
{
    if passwords.len() == 0 {
        r == text
    } else {
        exists|mid: Seq<char>|
            sealed_chain(mid, passwords.drop_last(), text) && #[trigger] layer_sealed(
                r,
                mid,
                passwords.last(),
            )
    }
}

/// Derives key and IV (32 bytes) from password bytes and a salt.
pub fn derive_key_iv(password: &[u8], salt: &[u8]) -> (r: Result<Vec<u8>, CipherError>)
    ensures
        r is Ok <==> password@.len() <= MAX_C_LEN && salt@.len() <= MAX_C_LEN,
        r matches Ok(m) ==> m@ == pbkdf2_hmac_sha1(
            password@,
            salt@,
            ITERATIONS as nat,
            (KEY_LEN + IV_LEN) as nat,
        ) && m@.len() == KEY_LEN + IV_LEN,
        r matches Err(e) ==> e == CipherError::KeyDerivationFailed,
{
    if password.len() > MAX_C_LEN || salt.len() > MAX_C_LEN {
        return Err(CipherError::KeyDerivationFailed);
    }
    Ok(pbkdf2_sha1(password, salt, ITERATIONS, KEY_LEN + IV_LEN))
}

/// AES-128-CBC encryption with padding.
pub fn encrypt_block(key: &[u8], iv: &[u8], plaintext: &[u8]) -> (r: Result<Vec<u8>, CipherError>)
    ensures
        r == Err::<Vec<u8>, CipherError>(CipherError::InvalidKeyOrIv) <==> (key@.len() != KEY_LEN
            || iv@.len() != IV_LEN),
        r is Ok <==> key@.len() == KEY_LEN && iv@.len() == IV_LEN && plaintext@.len() + 16
            <= MAX_C_LEN,
        r matches Ok(c) ==> c@ == aes_128_cbc_encrypt(key@, iv@, plaintext@)
            && c@.len() == 16 * (plaintext@.len() / 16 + 1)
            && aes_128_cbc_decrypt(key@, iv@, c@) == Some(plaintext@),
        r matches Err(e) ==> e == CipherError::InvalidKeyOrIv || e == CipherError::EncryptionFailed,
{
    if key.len() != KEY_LEN || iv.len() != IV_LEN {
        return Err(CipherError::InvalidKeyOrIv);
    }
    if plaintext.len() > MAX_C_LEN - 16 {
        return Err(CipherError::EncryptionFailed);
    }
    Ok(aes_encrypt(key, iv, plaintext))
}

/// AES-128-CBC decryption with padding.
pub fn decrypt_block(key: &[u8], iv: &[u8], ciphertext: &[u8]) -> (r: Result<Vec<u8>, CipherError>)
    ensures
        r == Err::<Vec<u8>, CipherError>(CipherError::InvalidKeyOrIv) <==> (key@.len() != KEY_LEN
            || iv@.len() != IV_LEN),
        r is Ok <==> key@.len() == KEY_LEN && iv@.len() == IV_LEN && ciphertext@.len() + 16
            <= MAX_C_LEN && aes_128_cbc_decrypt(key@, iv@, ciphertext@) is Some,
        r matches Ok(p) ==> aes_128_cbc_decrypt(key@, iv@, ciphertext@) == Some(p@),
        r matches Err(e) ==> e == CipherError::InvalidKeyOrIv || e == CipherError::InvalidCiphertext,
{
    if key.len() != KEY_LEN || iv.len() != IV_LEN {
        return Err(CipherError::InvalidKeyOrIv);
    }
    if ciphertext.len() > MAX_C_LEN - 16 {
        return Err(CipherError::InvalidCiphertext);
    }
    match aes_decrypt(key, iv, ciphertext) {
        Some(p) => Ok(p),
        None => Err(CipherError::InvalidCiphertext),
    }
}

/// Encrypts `data` under `password` with the given 16-byte salt and writes the token.
pub fn seal_with_salt(data: &str, password: &str, salt: &[u8]) -> (r: Result<String, CipherError>)
    requires
        salt@.len() == SALT_LEN,
    ensures
        r is Ok <==> can_seal(data@, password@),
        r matches Ok(t) ==> t@ == seal(data@, password@, salt@) && open_token(t@, password@) == Some(
            data@,
        ),
        r matches Ok(t) ==> (can_seal_and_open(data@, password@) ==> open_within(t@, password@)
            == Some(data@)),
        r matches Ok(t) ==> encode_utf8(t@).len() <= 2 * encode_utf8(data@).len() + 64,
        r matches Ok(t) ==> t@.len() == token_len(encode_utf8(data@).len()),
        r matches Err(e) ==> (e == CipherError::KeyDerivationFailed <==> encode_utf8(password@).len()
            > MAX_C_LEN),
        r matches Err(e) ==> e == CipherError::KeyDerivationFailed || e
            == CipherError::EncryptionFailed,
{
    let m = match derive_key_iv(password.as_bytes(), salt) {
        Ok(m) => m,
        Err(e) => return Err(e),
    };
    let key = slice_subrange(m.as_slice(), 0, KEY_LEN);
    let iv = slice_subrange(m.as_slice(), KEY_LEN, KEY_LEN + IV_LEN);
    assert(key@ =~= key_part(m@));
    assert(iv@ =~= iv_part(m@));
    let plaintext = data.as_bytes();
    let ciphertext = match encrypt_block(key, iv, plaintext) {
        Ok(c) => c,
        Err(_) => return Err(CipherError::EncryptionFailed),
    };
    assert(ciphertext@.len() <= plaintext@.len() + 16);
    let token = encode_token(salt, ciphertext.as_slice());
    proof {
        lemma_token_round_trip(salt@, ciphertext@);
        lemma_base64_len(salt@);
        lemma_base64_len(ciphertext@);
        encode_utf8_valid_utf8(data@);
        encode_utf8_decode_utf8(data@);
    }
    Ok(token)
}

/// Encrypts `data` under `password` with a fresh random salt.
pub fn encrypt_data(data: &str, password: &str) -> (r: Result<String, CipherError>)
    ensures
        r is Ok <==> can_seal(data@, password@),
        r matches Ok(t) ==> open_token(t@, password@) == Some(data@) && exists|salt: Seq<u8>|
            salt.len() == SALT_LEN && t@ == #[trigger] seal(data@, password@, salt),
        r matches Ok(t) ==> (can_seal_and_open(data@, password@) ==> open_within(t@, password@)
            == Some(data@)),
        r matches Ok(t) ==> encode_utf8(t@).len() <= 2 * encode_utf8(data@).len() + 64,
        r matches Ok(t) ==> t@.len() == token_len(encode_utf8(data@).len()),
        r matches Err(e) ==> (e == CipherError::KeyDerivationFailed <==> encode_utf8(password@).len()
            > MAX_C_LEN),
        r matches Err(e) ==> e == CipherError::KeyDerivationFailed || e
            == CipherError::EncryptionFailed,
{
    let salt = random_salt();
    seal_with_salt(data, password, salt.as_slice())
}

/// Decrypts one token under `password`; every failure is `DecryptionFailed`.
pub fn decrypt_data(data: &str, password: &str) -> (r: Result<String, CipherError>)
    ensures
        r is Ok <==> open_within(data@, password@) is Some,
        r matches Ok(p) ==> open_within(data@, password@) == Some(p@),
        r matches Err(e) ==> e == CipherError::DecryptionFailed,
{
    let (salt, ciphertext) = match decode_token(data) {
        Ok(parts) => parts,
        Err(_) => return Err(CipherError::DecryptionFailed),
    };
    let m = match derive_key_iv(password.as_bytes(), salt.as_slice()) {
        Ok(m) => m,
        Err(_) => return Err(CipherError::DecryptionFailed),
    };
    if ciphertext.len() > MAX_C_LEN - 16 {
        return Err(CipherError::DecryptionFailed);
    }
    let key = slice_subrange(m.as_slice(), 0, KEY_LEN);
    let iv = slice_subrange(m.as_slice(), KEY_LEN, KEY_LEN + IV_LEN);
    assert(key@ =~= key_part(m@));
    assert(iv@ =~= iv_part(m@));
    let plaintext = match decrypt_block(key, iv, ciphertext.as_slice()) {
        Ok(p) => p,
        Err(_) => return Err(CipherError::DecryptionFailed),
    };
    match utf8_text(plaintext) {
        Some(text) => {
            proof {
                encode_utf8_valid_utf8(text@);
                encode_utf8_decode_utf8(text@);
            }
            Ok(text)
        },
        None => Err(CipherError::DecryptionFailed),
    }
}

/// A text shorter than a salt's base64 form opens under no password.
pub proof fn lemma_short_text_does_not_open(t: Seq<char>, password: Seq<char>)
    requires
        t.len() < SALT_TEXT_LEN,
    ensures
        open_token(t, password) is None,
        open_within(t, password) is None,
{
    lemma_trim_end_len(t);
}

/// Neither failure text is a token.
pub proof fn lemma_failure_texts_do_not_open(password: Seq<char>)
    ensures
        open_token(encryption_failed(), password) is None,
        open_token(decryption_failed(), password) is None,
        open_within(encryption_failed(), password) is None,
        open_within(decryption_failed(), password) is None,
{
    reveal_strlit("Encryption failed");
    reveal_strlit("Decryption failed");
    lemma_short_text_does_not_open(encryption_failed(), password);
    lemma_short_text_does_not_open(decryption_failed(), password);
}

/// One encryption layer; a failure becomes the text "Encryption failed".
pub fn encrypt_layer(text: &str, password: &str) -> (r: String)
    ensures
        layer_sealed(r@, text@, password@),
{
    match encrypt_data(text, password) {
        Ok(t) => t,
        Err(_) => String::from_str("Encryption failed"),
    }
}

/// One decryption layer; a failure becomes the text "Decryption failed".
pub fn decrypt_layer(token: &str, password: &str) -> (r: String)
    ensures
        r@ == opened_text(token@, password@),
{
    match decrypt_data(token, password) {
        Ok(p) => p,
        Err(_) => String::from_str("Decryption failed"),
    }
}

/// One step of the decrypting fold: a failure from an earlier layer is handed
/// on unchanged, with no further work.
pub fn decrypt_step(acc: &str, password: &str) -> (r: String)
    ensures
        r@ == step_text(acc@, password@),
{
    let failed = String::from_str("Decryption failed");
    if str_eq(acc, failed.as_str()) {
        return failed;
    }
    decrypt_layer(acc, password)
}

/// Character-wise equality of two texts.
pub fn str_eq(a: &str, b: &str) -> (r: bool)
    ensures
        r == (a@ == b@),
{
    let n = a.unicode_len();
    if n != b.unicode_len() {
        return false;
    }
    let mut i: usize = 0;
    while i < n
        invariant
            n == a@.len(),
            n == b@.len(),
            i <= n,
            forall|j: int| 0 <= j < i ==> a@[j] == b@[j],
        decreases n - i,
    {
        if a.get_char(i) != b.get_char(i) {
            return false;
        }
        i += 1;
    }
    assert(a@ =~= b@);
    true
}

/// The passwords as texts.
pub open spec fn password_texts(passwords: Seq<String>) -> Seq<Seq<char>> {
    passwords.map_values(|p: String| p@)
}

/// Encrypts `text` once per password, in list order, each layer over the last.
pub fn encrypt_layers(text: &str, passwords: &[String]) -> (r: String)
    ensures
        sealed_chain(r@, password_texts(passwords@), text@),
{
    let ghost pws = password_texts(passwords@);
    let mut acc = text.to_owned();
    let mut i: usize = 0;
    assert(pws.take(0) =~= Seq::<Seq<char>>::empty());
    while i < passwords.len()
        invariant
            pws == password_texts(passwords@),
            i <= passwords@.len(),
            sealed_chain(acc@, pws.take(i as int), text@),
        decreases passwords@.len() - i,
    {
        let next = encrypt_layer(acc.as_str(), passwords[i].as_str());
        assert(pws.take(i + 1).drop_last() =~= pws.take(i as int));
        assert(pws.take(i + 1).last() == passwords@[i as int]@);
        assert(layer_sealed(next@, acc@, pws.take(i + 1).last()));
        acc = next;
        i += 1;
    }
    assert(pws.take(i as int) =~= pws);
    acc
}

/// Decrypts `text` once per password, in reverse list order; once a layer
/// fails, the failure text is the result.
pub fn decrypt_layers(text: &str, passwords: &[String]) -> (r: String)
    ensures
        r@ == unseal_layers(text@, password_texts(passwords@)),
{
    let ghost pws = password_texts(passwords@);
    let mut acc = text.to_owned();
    let mut i: usize = passwords.len();
    assert(pws.take(i as int) =~= pws);
    while i > 0
        invariant
            pws == password_texts(passwords@),
            i <= passwords@.len(),
            unseal_layers(text@, pws) == unseal_layers(acc@, pws.take(i as int)),
        decreases i,
    {
        let next = decrypt_step(acc.as_str(), passwords[i - 1].as_str());
        assert(pws.take(i as int).drop_last() =~= pws.take(i - 1));
        assert(pws.take(i as int).last() == passwords@[i - 1]@);
        acc = next;
        i -= 1;
    }
    acc
}

/// Once a layer fails, every later step of the decrypting fold gives the failure text.
pub proof fn lemma_failure_absorbs(passwords: Seq<Seq<char>>)
    ensures
        unseal_layers(decryption_failed(), passwords) == decryption_failed(),
    decreases passwords.len(),
{
    if passwords.len() > 0 {
        lemma_failure_absorbs(passwords.drop_last());
    }
}

/// Byte length a text may reach after `n` layers, from `len` bytes: each layer
/// at most doubles it and adds 64.
pub open spec fn layered_len_bound(len: nat, n: nat) -> nat
    decreases n,
{
    if n == 0 {
        len
    } else {
        2 * layered_len_bound(len, (n - 1) as nat) + 64
    }
}

/// Encrypting with the passwords in order and then decrypting with them in
/// reverse order gives the text back, where every layer fits the lengths
/// openssl accepts.
pub proof fn lemma_layers_round_trip(r: Seq<char>, passwords: Seq<Seq<char>>, text: Seq<char>)
    requires
        sealed_chain(r, passwords, text),
        forall|i: int| 0 <= i < passwords.len() ==> encode_utf8(#[trigger] passwords[i]).len() <= MAX_C_LEN,
        layered_len_bound(encode_utf8(text).len(), passwords.len()) + 32 <= MAX_C_LEN,
    ensures
        unseal_layers(r, passwords) == text,
        encode_utf8(r).len() <= layered_len_bound(encode_utf8(text).len(), passwords.len()),
    decreases passwords.len(),
{
    if passwords.len() > 0 {
        let n = passwords.len();
        let pw = passwords.last();
        let rest = passwords.drop_last();
        let mid = choose|mid: Seq<char>| sealed_chain(mid, rest, text) && #[trigger] layer_sealed(r, mid, pw);
        assert(forall|i: int| 0 <= i < rest.len() ==> rest[i] == passwords[i]);
        lemma_layers_round_trip(mid, rest, text);
        assert(encode_utf8(pw).len() <= MAX_C_LEN) by {
            assert(pw == passwords[n - 1]);
        }
        lemma_failure_texts_do_not_open(pw);
        assert(open_within(r, pw) == Some(mid));
        assert(step_text(r, pw) == mid);
    }
}

/// The decrypting fold over a list is the fold over its last `n - k`
/// passwords followed by the fold over its first `k`.
pub proof fn lemma_unseal_split(t: Seq<char>, passwords: Seq<Seq<char>>, k: int)
    requires
        0 <= k <= passwords.len(),
    ensures
        unseal_layers(t, passwords) == unseal_layers(
            unseal_layers(t, passwords.skip(k)),
            passwords.take(k),
        ),
    decreases passwords.len() - k,
{
    if k == passwords.len() {
        assert(passwords.skip(k) =~= Seq::<Seq<char>>::empty());
        assert(passwords.take(k) =~= passwords);
    } else {
        let m = passwords.len() - 1;
        assert(passwords.skip(k).drop_last() =~= passwords.drop_last().skip(k));
        assert(passwords.take(k) =~= passwords.drop_last().take(k));
        assert(passwords.skip(k).last() == passwords.last());
        lemma_unseal_split(step_text(t, passwords.last()), passwords.drop_last(), k);
    }
}

/// Where the step with password `k` of the decrypting fold gives the failure
/// text, the whole fold gives it, whatever the earlier passwords are.
pub proof fn lemma_failure_at_layer(t: Seq<char>, passwords: Seq<Seq<char>>, k: int)
    requires
        0 <= k < passwords.len(),
        step_text(unseal_layers(t, passwords.skip(k + 1)), passwords[k]) == decryption_failed(),
    ensures
        unseal_layers(t, passwords) == decryption_failed(),
{
    lemma_unseal_split(t, passwords, k);
    let inner = unseal_layers(t, passwords.skip(k + 1));
    lemma_unseal_split(t, passwords.skip(k), 1);
    assert(passwords.skip(k).skip(1) =~= passwords.skip(k + 1));
    assert(passwords.skip(k).take(1).drop_last() =~= Seq::<Seq<char>>::empty());
    assert(passwords.skip(k).take(1).last() == passwords[k]);
    let one = passwords.skip(k).take(1);
    assert(unseal_layers(inner, one) == unseal_layers(step_text(inner, passwords[k]), one.drop_last()));
    assert(unseal_layers(decryption_failed(), one.drop_last()) == decryption_failed());
    assert(unseal_layers(t, passwords.skip(k)) == decryption_failed());
    lemma_failure_absorbs(passwords.take(k));
}

} // verus!
