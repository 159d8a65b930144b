//! The token text: base64 of the 16-byte salt followed, with no separator,
//! by base64 of the ciphertext.
use base64::engine::general_purpose::STANDARD;
use base64::Engine;
use vstd::prelude::*;
use vstd::utf8::{encode_utf8, is_ascii_chars, is_ascii_chars_encode_utf8};

use crate::encoding::{
    is_whitespace, base64_of, base64_value, is_base64, lemma_base64_len, lemma_base64_chars,
    lemma_base64_value, lemma_trim_end_no_whitespace, trim_end,
};
use crate::error::CipherError;

verus! {

/// Length of the salt in bytes.
pub const SALT_LEN: usize = 16;

/// Length of the salt's base64 form at the head of a token.
pub const SALT_TEXT_LEN: usize = 24;

/// The token for a salt and a ciphertext.
pub open spec fn token_text(salt: Seq<u8>, ciphertext: Seq<u8>) -> Seq<char> {
    base64_of(salt) + base64_of(ciphertext)
}

/// Salt and ciphertext read from a token, after trailing whitespace is trimmed:
/// the first 24 characters are the salt's base64 form, the rest the ciphertext's.
pub open spec fn token_parts(token: Seq<char>) -> Option<(Seq<u8>, Seq<u8>)> {
    let t = trim_end(token);
    if t.len() >= SALT_TEXT_LEN && is_base64(t.take(SALT_TEXT_LEN as int)) && is_base64(
        t.skip(SALT_TEXT_LEN as int),
    ) {
        Some((base64_value(t.take(SALT_TEXT_LEN as int)), base64_value(t.skip(SALT_TEXT_LEN as int))))
    } else {
        None
    }
}

/// Relies on base64's `STANDARD.encode`: the standard alphabet with `=` padding.
#[verifier::external_body]
fn base64_encode(b: &[u8]) -> (r: String)
    requires
        4 * ((b@.len() + 2) / 3) <= usize::MAX,
    ensures
        r@ == base64_of(b@),
{
    STANDARD.encode(b)
}

/// Relies on base64's `STANDARD.decode`, which accepts every canonical padded
/// standard form and returns the bytes it encodes.
#[verifier::external_body]
fn base64_decode(s: &str) -> (r: Option<Vec<u8>>)
    ensures
        r matches Some(v) ==> base64_of(v@) == s@,
        is_base64(s@) ==> r is Some,
{
    STANDARD.decode(s).ok()
}

/// Whether a character is Unicode `White_Space`.
pub fn is_whitespace_char(c: char) -> (r: bool)
    ensures
        r == is_whitespace(c),
{
    let u = c as u32;
    (9 <= u && u <= 13) || u == 32 || u == 0x85 || u == 0xA0 || u == 0x1680 || (0x2000 <= u && u
        <= 0x200A) || u == 0x2028 || u == 0x2029 || u == 0x202F || u == 0x205F || u == 0x3000
}

/// The text with its trailing whitespace removed.
pub fn trim_trailing(s: &str) -> (r: &str)
    ensures
        r@ == trim_end(s@),
{
    let n = s.unicode_len();
    let mut k: usize = n;
    assert(s@.take(n as int) =~= s@);
    while k > 0
        invariant
            k <= n,
            n == s@.len(),
            trim_end(s@) == trim_end(s@.take(k as int)),
        ensures
            trim_end(s@) == s@.take(k as int),
        decreases k,
    {
        if !is_whitespace_char(s.get_char(k - 1)) {
            assert(s@.take(k as int).last() == s@[k - 1]);
            break;
        }
        assert(s@.take(k as int).drop_last() =~= s@.take(k - 1));
        k -= 1;
    }
    let r = s.substring_char(0, k);
    assert(r@ =~= s@.take(k as int));
    r
}

/// Writes the token for a 16-byte salt and a ciphertext.
pub fn encode_token(salt: &[u8], ciphertext: &[u8]) -> (r: String)
    requires
        salt@.len() == SALT_LEN,
        4 * ((ciphertext@.len() + 2) / 3) <= usize::MAX,
    ensures
        r@ == token_text(salt@, ciphertext@),
{
    let mut text = base64_encode(salt);
    let tail = base64_encode(ciphertext);
    text.append(tail.as_str());
    text
}

/// Reads salt and ciphertext back from a token.
pub fn decode_token(token: &str) -> (r: Result<(Vec<u8>, Vec<u8>), CipherError>)
    ensures
        r is Ok <==> token_parts(token@) is Some,
        r matches Ok((salt, ciphertext)) ==> token_parts(token@) == Some((salt@, ciphertext@)),
        r matches Ok((salt, ciphertext)) ==> salt@.len() <= 18,
        r matches Err(e) ==> e == CipherError::MalformedToken,
{
    let t = trim_trailing(token);
    let n = t.unicode_len();
    if n < SALT_TEXT_LEN {
        return Err(CipherError::MalformedToken);
    }
    let head = t.substring_char(0, SALT_TEXT_LEN);
    let tail = t.substring_char(SALT_TEXT_LEN, n);
    assert(head@ =~= t@.take(SALT_TEXT_LEN as int));
    assert(tail@ =~= t@.skip(SALT_TEXT_LEN as int));
    let salt = match base64_decode(head) {
        Some(v) => v,
        None => return Err(CipherError::MalformedToken),
    };
    proof {
        lemma_base64_len(salt@);
    }
    let ciphertext = match base64_decode(tail) {
        Some(v) => v,
        None => return Err(CipherError::MalformedToken),
    };
    proof {
        lemma_base64_value(salt@);
        lemma_base64_value(ciphertext@);
    }
    Ok((salt, ciphertext))
}

/// Reading a token gives back exactly the salt and ciphertext it was written
/// from, for any 16-byte salt and any ciphertext.
pub proof fn lemma_token_round_trip(salt: Seq<u8>, ciphertext: Seq<u8>)
    requires
        salt.len() == SALT_LEN,
    ensures
        token_parts(token_text(salt, ciphertext)) == Some((salt, ciphertext)),
        encode_utf8(token_text(salt, ciphertext)).len() == SALT_TEXT_LEN + base64_of(ciphertext).len(),
{
    let s = base64_of(salt);
    let c = base64_of(ciphertext);
    let t = token_text(salt, ciphertext);
    lemma_base64_len(salt);
    lemma_base64_chars(salt);
    lemma_base64_chars(ciphertext);
    assert forall|i: int| 0 <= i < t.len() implies !crate::encoding::is_whitespace(
        #[trigger] t[i],
    ) && t[i] <= '\u{7f}' by {
        if i < s.len() {
            assert(t[i] == s[i]);
        } else {
            assert(t[i] == c[i - s.len()]);
        }
    }
    lemma_trim_end_no_whitespace(t);
    assert forall|i: int| 0 <= i < t.len() implies '\0' <= #[trigger] t[i] <= '\u{7f}' by {
        if i < s.len() {
            assert(t[i] == s[i]);
        } else {
            assert(t[i] == c[i - s.len()]);
        }
    }
    is_ascii_chars_encode_utf8(t);
    assert(t.take(SALT_TEXT_LEN as int) =~= s);
    assert(t.skip(SALT_TEXT_LEN as int) =~= c);
    lemma_base64_value(salt);
    lemma_base64_value(ciphertext);
}

} // verus!
