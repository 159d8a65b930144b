use cipherator::crypto::{
    decrypt_block, decrypt_data, decrypt_layer, decrypt_layers, decrypt_step, derive_key_iv,
    encrypt_block, encrypt_data, encrypt_layer, encrypt_layers, seal_with_salt, str_eq,
};
use cipherator::error::CipherError;
use cipherator::token::{decode_token, encode_token, is_whitespace_char, trim_trailing};

fn is_base64_char(c: char) -> bool {
    c.is_ascii_alphanumeric() || c == '+' || c == '/' || c == '='
}

#[test]
fn round_trip_single_layer() {
    let token = encrypt_data("Seed phrase", "correct horse").unwrap();
    assert_eq!(decrypt_data(&token, "correct horse").unwrap(), "Seed phrase");
}

#[test]
fn round_trip_empty_and_unicode_text() {
    for text in ["", "a", "0123456789abcdef", "grüße, 世界 🚀\n"] {
        let token = encrypt_data(text, "pw").unwrap();
        assert_eq!(decrypt_data(&token, "pw").unwrap(), text);
    }
}

#[test]
fn two_encryptions_differ_and_both_decrypt() {
    let a = encrypt_data("Seed phrase", "correct horse").unwrap();
    let b = encrypt_data("Seed phrase", "correct horse").unwrap();
    assert_ne!(a, b);
    assert_ne!(a[..24], b[..24]);
    assert_eq!(decrypt_data(&a, "correct horse").unwrap(), "Seed phrase");
    assert_eq!(decrypt_data(&b, "correct horse").unwrap(), "Seed phrase");
}

#[test]
fn wrong_password_fails() {
    let token = encrypt_data("Seed phrase", "correct horse").unwrap();
    assert_eq!(decrypt_data(&token, "wrong horse"), Err(CipherError::DecryptionFailed));
    assert_eq!(decrypt_layer(&token, "wrong horse"), "Decryption failed");
}

#[test]
fn token_round_trip_exact() {
    let salt: Vec<u8> = (0u8..16).collect();
    for ct in [vec![], vec![1u8], vec![1u8, 2], vec![1u8, 2, 3], (0u8..=255).collect::<Vec<u8>>()] {
        let token = encode_token(&salt, &ct);
        assert_eq!(decode_token(&token).unwrap(), (salt.clone(), ct.clone()));
    }
}

#[test]
fn token_text_is_two_base64_parts() {
    let token = encode_token(&[0u8; 16], &[1, 2, 3]);
    assert_eq!(token, "AAAAAAAAAAAAAAAAAAAAAA==AQID");
}

#[test]
fn token_trailing_whitespace_is_trimmed() {
    let token = encode_token(&[7u8; 16], &[9, 8, 7, 6]);
    let padded = format!("{}  \n\t", token);
    assert_eq!(decode_token(&padded).unwrap(), (vec![7u8; 16], vec![9u8, 8, 7, 6]));
}

#[test]
fn malformed_tokens() {
    assert_eq!(decode_token(""), Err(CipherError::MalformedToken));
    assert_eq!(decode_token("short"), Err(CipherError::MalformedToken));
    assert_eq!(decode_token("AAAAAAAAAAAAAAAAAAAAAA==!!!!"), Err(CipherError::MalformedToken));
    assert_eq!(decode_token("AAAAAAAAAAAAAAAAAAAA!!!!AQID"), Err(CipherError::MalformedToken));
    assert_eq!(decode_token("AAAAAAAAAAAAAAAAAAAAAA==AQI"), Err(CipherError::MalformedToken));
    assert_eq!(decrypt_data("short", "pw"), Err(CipherError::DecryptionFailed));
}

#[test]
fn layer_fold_order() {
    let pws = vec!["alpha".to_string(), "beta".to_string()];
    let sealed = encrypt_layers("Seed phrase", &pws);
    assert_eq!(decrypt_layers(&sealed, &pws), "Seed phrase");
    let wrong = vec!["beta".to_string(), "alpha".to_string()];
    assert_eq!(decrypt_layers(&sealed, &wrong), "Decryption failed");
}

#[test]
fn layer_fold_three_and_none() {
    let pws = vec!["a".to_string(), "b".to_string(), "c".to_string()];
    let sealed = encrypt_layers("layered", &pws);
    assert_eq!(decrypt_layers(&sealed, &pws), "layered");
    assert_eq!(encrypt_layers("plain", &[]), "plain");
    assert_eq!(decrypt_layers("plain", &[]), "plain");
}

#[test]
fn failure_is_absorbing() {
    assert_eq!(decrypt_step("Decryption failed", "anything"), "Decryption failed");
    let pws = vec!["a".to_string(), "b".to_string()];
    assert_eq!(decrypt_layers("not a token", &pws), "Decryption failed");
}

#[test]
fn example_seed_phrase() {
    let token = encrypt_layer("Seed phrase", "correct horse");
    assert_eq!(token.chars().count(), 48);
    assert!(token.chars().all(is_base64_char));
    assert_eq!(decrypt_layer(&token, "correct horse"), "Seed phrase");
    assert_eq!(decrypt_layer(&token, "wrong horse"), "Decryption failed");
}

#[test]
fn derivation_is_deterministic() {
    let a = derive_key_iv(b"correct horse", &[1u8; 16]).unwrap();
    let b = derive_key_iv(b"correct horse", &[1u8; 16]).unwrap();
    let c = derive_key_iv(b"correct horse", &[2u8; 16]).unwrap();
    assert_eq!(a.len(), 32);
    assert_eq!(a, b);
    assert_ne!(a, c);
}

#[test]
fn block_cipher_round_trip_and_padding() {
    let key = [3u8; 16];
    let iv = [4u8; 16];
    let c = encrypt_block(&key, &iv, b"Seed phrase").unwrap();
    assert_eq!(c.len(), 16);
    assert_ne!(&c[..11], b"Seed phrase");
    assert_eq!(decrypt_block(&key, &iv, &c).unwrap(), b"Seed phrase");
    assert_eq!(encrypt_block(&key, &iv, &[0u8; 16]).unwrap().len(), 32);
}

#[test]
fn block_cipher_errors() {
    assert_eq!(encrypt_block(&[0u8; 15], &[0u8; 16], b"x"), Err(CipherError::InvalidKeyOrIv));
    assert_eq!(decrypt_block(&[0u8; 16], &[0u8; 17], b"x"), Err(CipherError::InvalidKeyOrIv));
    assert_eq!(decrypt_block(&[0u8; 16], &[0u8; 16], &[0u8; 15]), Err(CipherError::InvalidCiphertext));
}

#[test]
fn invalid_utf8_plaintext_fails() {
    let salt = [5u8; 16];
    let m = derive_key_iv(b"pw", &salt).unwrap();
    let c = encrypt_block(&m[..16], &m[16..], &[0xff, 0xfe]).unwrap();
    let token = encode_token(&salt, &c);
    assert_eq!(decrypt_data(&token, "pw"), Err(CipherError::DecryptionFailed));
}

#[test]
fn sealing_with_a_given_salt() {
    let salt = [9u8; 16];
    let a = seal_with_salt("text", "pw", &salt).unwrap();
    let b = seal_with_salt("text", "pw", &salt).unwrap();
    assert_eq!(a, b);
    assert_eq!(&a[..24], "CQkJCQkJCQkJCQkJCQkJCQ==");
    assert_eq!(decrypt_data(&a, "pw").unwrap(), "text");
}

#[test]
fn text_equality() {
    assert!(str_eq("abc", "abc"));
    assert!(!str_eq("abc", "abd"));
    assert!(!str_eq("abc", "ab"));
}

#[test]
fn token_lengths_follow_plaintext_length() {
    assert_eq!(encrypt_data("", "pw").unwrap().len(), 48);
    assert_eq!(encrypt_data("Seed phrase", "correct horse").unwrap().len(), 48);
    assert_eq!(encrypt_data("0123456789abcdef", "pw").unwrap().len(), 68);
}

#[test]
fn decryption_ignores_trailing_whitespace() {
    let token = encrypt_data("Seed phrase", "correct horse").unwrap();
    let padded = format!("{}\n \u{3000}", token);
    assert_eq!(decrypt_data(&padded, "correct horse").unwrap(), "Seed phrase");
}

#[test]
fn salt_part_may_decode_to_other_lengths() {
    assert_eq!(decode_token("AAAAAAAAAAAAAAAAAAAAAAAAAQID").unwrap(), (vec![0u8; 18], vec![1u8, 2, 3]));
    assert_eq!(decode_token("AAAAAAAAAAAAAAAAAAAAAAA=AQID").unwrap(), (vec![0u8; 17], vec![1u8, 2, 3]));
}

#[test]
fn sealed_token_is_salt_then_ciphertext() {
    let salt = [11u8; 16];
    let m = derive_key_iv("pw".as_bytes(), &salt).unwrap();
    let c = encrypt_block(&m[..16], &m[16..], "some text".as_bytes()).unwrap();
    assert_eq!(seal_with_salt("some text", "pw", &salt).unwrap(), encode_token(&salt, &c));
}

#[test]
fn trimming_trailing_whitespace() {
    assert_eq!(trim_trailing("ab c \t\n\u{a0}"), "ab c");
    assert_eq!(trim_trailing("   "), "");
    assert_eq!(trim_trailing(""), "");
    assert_eq!(trim_trailing(" x"), " x");
    assert!(is_whitespace_char('\u{2029}'));
    assert!(!is_whitespace_char('\u{200b}'));
    for c in ['a', ' ', '\t', '\u{85}', '\u{1680}', '\u{3000}', '='] {
        assert_eq!(is_whitespace_char(c), c.is_whitespace());
    }
}
