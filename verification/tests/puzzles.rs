use aes::cipher::generic_array::GenericArray;
use aes::cipher::{BlockEncrypt, KeyInit};
use base64::Engine;
use neuro_arg::candle::numbers_answer;
use neuro_arg::math::{Fibonacci, FibonacciDigits};
use neuro_arg::meaning_of_life::{answer as meaning_answer, hex};

use neuro_arg::schizo::{hex_to_bytes, reverse_numbers, RevShift};
use neuro_arg::filtered::Shift;
use neuro_arg::bytes::{base64 as base64_dec, decrypt_with, fuzzy_replace, Cipher};
use neuro_arg::images::Rect;
use neuro_arg::{split_off_last_word, PuzzleError};
use num::BigUint;

fn encrypt256(key: &[u8], plain: &[u8]) -> String {
    let mut data = plain.to_vec();
    let pad = 16 - data.len() % 16;
    for _ in 0..pad {
        data.push(pad as u8);
    }
    let cipher = aes::Aes256::new_from_slice(key).unwrap();
    for chunk in data.chunks_mut(16) {
        cipher.encrypt_block(GenericArray::from_mut_slice(chunk));
    }
    base64::engine::general_purpose::STANDARD.encode(&data)
}

#[test]
fn candle_test() {
    // "112358" is matched at the start of the digit stream 0112358...;
    // with the sixteen digits after it the key number is 1123581321345589144233
    let key_number = BigUint::parse_bytes(b"1123581321345589144233", 10).unwrap();
    let key = neuro_arg::numbers1::calc(key_number, "ghijkl").unwrap();
    assert_eq!(key, "h7k90j6k0ij79476jl4k94l744lk09i4");
    let secret = encrypt256(key.as_bytes(), b"candles");
    assert_eq!(
        numbers_answer(secret.as_bytes(), BigUint::from(112358u32), "ghijkl").unwrap(),
        "candles"
    );
    // a key of the wrong length fails the decryption
    assert!(matches!(
        numbers_answer(secret.as_bytes(), BigUint::from(1u32), "ghijkl"),
        Err(PuzzleError::Cipher(_))
    ));
}

#[test]
fn hex_test() {
    assert_eq!(hex("1001000 1101001\n+100001"), "Hi!");
    assert_eq!(hex(""), "");
    assert_eq!(hex_to_bytes("00ff7A+1"), vec![0, 255, 0x7a, 1]);
    assert_eq!(hex_to_bytes("abc"), vec![0xab]);
}

#[test]
fn sequences_test() {
    let mut f = Fibonacci::new();
    let firsts: Vec<String> = (0..8).map(|_| f.next().unwrap().to_string()).collect();
    assert_eq!(firsts, vec!["0", "1", "1", "2", "3", "5", "8", "13"]);
    let mut d = FibonacciDigits::new();
    let digits: String = (0..16).map(|_| d.next().unwrap()).collect();
    assert_eq!(digits, "0112358132134558");
    let mut f = Fibonacci::default();
    assert_eq!(f.next().unwrap().to_string(), "0");
    let mut d = FibonacciDigits::default();
    assert_eq!(d.next(), Some('0'));
    let mut r = RevShift::new("a b");
    assert_eq!(r.next().unwrap(), "a b");
    assert_eq!(r.next().unwrap(), "b c");
    let mut s = String::from("one two three");
    assert_eq!(split_off_last_word(&mut s), "three");
    assert_eq!(s, "one two");
}

#[test]
fn reverse_numbers_test() {
    let n = |x: u32| BigUint::from(x);
    assert_eq!(reverse_numbers("175fbfbf757f7bce"), vec![n(492048), n(692048)]);
    assert_eq!(reverse_numbers("a758986fff45f924"), vec![n(100000)]);
    assert_eq!(reverse_numbers("17b9037b7924"), vec![n(55)]);
    assert_eq!(reverse_numbers("be590d8e9859924"), vec![n(31337)]);
    assert_eq!(reverse_numbers("1724"), vec![]);
    assert_eq!(reverse_numbers("xyz1724"), vec![]);
    assert_eq!(reverse_numbers("0123456789a24"), vec![]);
    // the number found maps back to the text
    assert_eq!(neuro_arg::numbers1::calc(n(55), "abcdef").unwrap(), "17b9037b7924");
}

#[test]
fn meaning_of_life_answer_test() {
    let key = b"1416938177140585";
    let mut data = b"meaning".to_vec();
    data.extend_from_slice(&[9u8; 9]);
    let cipher = aes::Aes128::new_from_slice(key).unwrap();
    cipher.encrypt_block(GenericArray::from_mut_slice(&mut data));
    let text = base64::engine::general_purpose::STANDARD.encode(&data);
    assert_eq!(meaning_answer(text.as_bytes()), Ok(b"meaning".to_vec()));
    assert_eq!(
        meaning_answer(b"A"),
        Err(neuro_arg::bytes::CipherError::InvalidBase64)
    );
}

#[test]
fn shift_fused_test() {
    // shift 0 keeps U+E000; shift 1 gives a surrogate, so nothing is left
    let mut s = Shift::new("\u{E000}");
    assert_eq!(s.next(), Some("\u{E000}".to_string()));
    assert_eq!(s.next(), None);
    // at shift 0x801 the character would be U+D7FF, but the shift is over
    for _ in 0..0x900 {
        assert_eq!(s.next(), None);
    }
    let mut t = Shift::new("\u{E000}");
    assert_eq!(t.nth(3), None);
    assert_eq!(t.nth(0), None);
}

#[test]
fn hex_round_trip_test() {
    assert_eq!(hex_to_bytes("0aFF7"), vec![0x0a, 0xff]);
    let v: Vec<u8> = (0..=255u8).collect();
    let text: String = v.iter().map(|b| format!("{b:02x}")).collect();
    assert_eq!(hex_to_bytes(&text), v);
    let upper: String = v.iter().map(|b| format!("{b:02X}")).collect();
    assert_eq!(hex_to_bytes(&upper), v);
}

#[test]
fn chain_many_test() {
    let key = b"0123456789abcdef";
    let mut plain = b"b42315".to_vec();
    plain.extend_from_slice(&[10u8; 10]);
    let cipher = aes::Aes128::new_from_slice(key).unwrap();
    cipher.encrypt_block(GenericArray::from_mut_slice(&mut plain));
    let text = base64::engine::general_purpose::STANDARD.encode(&plain);
    let mut chain = base64_dec()
        .chain(decrypt_with(key))
        .chain(fuzzy_replace(b"12345", b"abc", true));
    let one = base64_dec().process(text.as_bytes()).unwrap();
    let two = decrypt_with(key).process(&one).unwrap();
    let three = fuzzy_replace(b"12345", b"abc", true).process(&two).unwrap();
    assert_eq!(chain.process(text.as_bytes()), Ok(three));
    assert_eq!(chain.process(text.as_bytes()).unwrap(), b"babc");
}

#[test]
fn rect_contains_test() {
    let r = Rect { x: -5, w: 10 };
    assert!(r.contains(0));
    assert!(r.contains(4));
    assert!(!r.contains(5));
    // u32::MAX reads as -1
    assert!(r.contains(u32::MAX));
    assert!(!r.contains(0x8000_0000));
}
