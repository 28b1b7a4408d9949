use aes::cipher::generic_array::GenericArray;
use aes::cipher::{BlockEncrypt, KeyInit};
use base64::Engine;
use neuro_arg::bytes::pkcs7::{is_padded, unpad};
use neuro_arg::bytes::{
    base64, decrypt_aes, decrypt_with, fuzzy_replace, malbolge, process_string, Cipher, CipherError,
};
use neuro_arg::numbers::{divide_by, prepend_digits, NumError, NumOp};
use neuro_arg::{filtered, numbers2, Noop, PuzzleError};
use num::BigInt;

fn encrypt_raw(key: &[u8], data: &[u8]) -> Vec<u8> {
    let mut data = data.to_vec();
    let cipher = aes::Aes128::new_from_slice(key).unwrap();
    for chunk in data.chunks_mut(16) {
        cipher.encrypt_block(GenericArray::from_mut_slice(chunk));
    }
    data
}

#[test]
fn cipher_errors_test() {
    let key = b"0123456789abcdef";
    assert_eq!(decrypt_with(b"short").process(&[0u8; 16]), Err(CipherError::InvalidAesKeyLength));
    assert_eq!(decrypt_with(key).process(&[0u8; 5]), Err(CipherError::InvalidCiphertextLength));
    // a block that decrypts to zeros ends in a zero byte: no valid padding
    let block = encrypt_raw(key, &[0u8; 16]);
    assert_eq!(decrypt_aes(&block, key), Err(CipherError::InvalidPadding));
    // a well padded block decrypts
    let mut plain = b"0123456789".to_vec();
    plain.extend_from_slice(&[6u8; 6]);
    let block = encrypt_raw(key, &plain);
    assert_eq!(decrypt_aes(&block, key), Ok(b"0123456789".to_vec()));
    assert_eq!(base64().process(b"A"), Err(CipherError::InvalidBase64));
    let text = base64::engine::general_purpose::STANDARD.encode(b"hi");
    assert_eq!(base64().process(text.as_bytes()), Ok(b"hi".to_vec()));
    // url-safe characters are read as the standard ones
    assert_eq!(base64().process(b"-_-_"), Ok(vec![0xfb, 0xff, 0xbf]));
    assert_eq!(malbolge().process(b"a"), Err(CipherError::InvalidMalbolgeOpcode));
    assert_eq!(malbolge().process(b"b"), Err(CipherError::MalbolgeProgramTooShort));
    assert_eq!(malbolge().process(b"ua"), Err(CipherError::MalbolgeInputExhausted));
    assert_eq!(
        fuzzy_replace(b"zz", b"", true).process(b"abc"),
        Err(CipherError::FuzzyMatchNotFound)
    );
    assert_eq!(fuzzy_replace(b"zz", b"", false).process(b"abc"), Ok(b"abc".to_vec()));
    assert_eq!(process_string(&[0xff], Noop), Err(CipherError::InvalidUtf8));
    assert_eq!(process_string(b"ok", Noop), Ok("ok".to_string()));
}

#[test]
fn chain_test() {
    // the chain runs its steps in order
    let text = base64::engine::general_purpose::STANDARD.encode(b"b42315");
    let mut chain = base64().chain(fuzzy_replace(b"12345", b"abc", true));
    assert_eq!(chain.process(text.as_bytes()), Ok(b"babc".to_vec()));
    let mut chain = Noop.chain(Noop);
    assert_eq!(chain.process(b"same"), Ok(b"same".to_vec()));
}

#[test]
fn pkcs7_test() {
    let mut data = vec![1u8, 2, 3, 2, 2];
    assert!(is_padded(&data));
    unpad(&mut data);
    assert_eq!(data, vec![1, 2, 3]);
    let mut empty: Vec<u8> = vec![];
    unpad(&mut empty);
    assert!(empty.is_empty());
    assert!(!is_padded(&[1, 0]));
    assert!(!is_padded(&[1, 3, 3]));
    assert!(!is_padded(&[5, 2]));
}

#[test]
fn num_errors_test() {
    assert_eq!(divide_by(BigInt::from(0)).apply(BigInt::from(5)), Err(NumError::DivisionByZero));
    assert_eq!(prepend_digits(BigInt::from(0)).apply(BigInt::from(5)), Err(NumError::ZeroDigits));
    assert_eq!(divide_by(BigInt::from(2)).apply(BigInt::from(-7)), Ok(BigInt::from(-3)));
}

#[test]
fn puzzle_errors_test() {
    let key = b"0123456789abcdef";
    let mut plain = b"nospacehere".to_vec();
    plain.extend_from_slice(&[5u8; 5]);
    let secret = base64::engine::general_purpose::STANDARD.encode(encrypt_raw(key, &plain));
    assert_eq!(numbers2::stage1(secret.as_bytes(), key), Err(PuzzleError::NoWhitespace));
    assert_eq!(filtered::answer("   ", "", b""), Err(PuzzleError::ShiftExhausted));
}

fn fibonacci_text(n: usize) -> String {
    let (mut a, mut b) = (num::BigUint::from(0u8), num::BigUint::from(1u8));
    let mut s = String::new();
    while s.len() < n {
        s += &a.to_string();
        let c = &a + &b;
        a = b;
        b = c;
    }
    s.truncate(n);
    s
}

#[test]
fn key_too_short_test() {
    let key1 = b"0123456789abcdef";
    let mut plain = b"stage one QUJD".to_vec();
    plain.extend_from_slice(&[2u8; 2]);
    let secret = base64::engine::general_purpose::STANDARD.encode(encrypt_raw(key1, &plain));
    assert_eq!(numbers2::stage1(secret.as_bytes(), key1).unwrap().1, "QUJD");
    // one list that is (as a multiset) the first 490 digits: they are cut out
    // of the 500 digits, and 10 are left for a key of 16
    let digits: Vec<u64> = fibonacci_text(490).bytes().map(|d| (d - b'0') as u64).collect();
    assert_eq!(
        numbers2::stage2(secret.as_bytes(), key1, &[digits]),
        Err(PuzzleError::KeyTooShort)
    );
}
