use aes::cipher::generic_array::GenericArray;
use aes::cipher::{BlockEncrypt, KeyInit};
use base64::Engine;
use neuro_arg::numbers1::answer;
use neuro_arg::study::{malbolge_code, phone};
use neuro_arg::{filtered, numbers2, soundcloud, PuzzleError};
use num::BigUint;

const HELLO: &[u8] = b"(=<`#9]~6ZY327Uv4-QsqpMn&+Ij\"'E%e{Ab~w=_:]Kw%o44Uqp0/Q?xNvL:`H%c#DD2^WV>gY;dts76qKJImZkj";

fn encrypt(key: &[u8], plain: &[u8]) -> String {
    let mut data = plain.to_vec();
    let pad = 16 - data.len() % 16;
    for _ in 0..pad {
        data.push(pad as u8);
    }
    for chunk in data.chunks_mut(16) {
        let block = GenericArray::from_mut_slice(chunk);
        match key.len() {
            16 => aes::Aes128::new_from_slice(key).unwrap().encrypt_block(block),
            24 => aes::Aes192::new_from_slice(key).unwrap().encrypt_block(block),
            32 => aes::Aes256::new_from_slice(key).unwrap().encrypt_block(block),
            _ => panic!("bad key length"),
        }
    }
    base64::engine::general_purpose::STANDARD.encode(&data)
}

#[test]
fn main_test() {
    // numbers1 and the phone number: the key comes from the number
    let number = BigUint::from(100000u32);
    let key = neuro_arg::numbers1::calc(number.clone(), "abcdef").unwrap();
    assert_eq!(key, "a758986fff45f924");
    let secret = encrypt(key.as_bytes(), b"the first answer");
    assert_eq!(answer(secret.as_bytes(), number.clone()).unwrap(), "the first answer");
    let secret = encrypt(key.as_bytes(), b"555-0100");
    assert_eq!(phone(secret.as_bytes(), number).unwrap(), "555-0100");
    // the Malbolge program
    assert_eq!(malbolge_code(HELLO).unwrap(), "Hello, world.");
    // numbers II: three stages
    let key2 = b"0112358132134558";
    let mut inner = b"stage two ".to_vec();
    inner.extend_from_slice(HELLO);
    let stage2_text = encrypt(key2, &inner);
    let key1 = b"0123456789abcdef";
    let outer = encrypt(key1, format!("stage one {}", stage2_text).as_bytes());
    let lists: Vec<Vec<u64>> = vec![];
    let (a, b, c) = numbers2::all_stages(outer.as_bytes(), key1, &lists).unwrap();
    assert_eq!(a, "stage one");
    assert_eq!(b, "stage two");
    assert_eq!(c, "Hello, world.");
    // soundcloud: the key hides in the image text between the last X and the first Y
    let image = "noiseX12pass45word67with9out8digitsYtail";
    assert_eq!(soundcloud::image_key(image), "passwordwithoutdigits");
    let key3 = b"passwordwithoutd";
    let image = "noiseX12pass45word67with9out8dYtail";
    let secret = encrypt(key3, b"from the image");
    assert_eq!(soundcloud::answer(image, secret.as_bytes()).unwrap(), "from the image");
    // filtered: the shifted title must be a program that prints "hello world!"
    let title: String = std::str::from_utf8(HELLO)
        .unwrap()
        .chars()
        .map(|c| char::from_u32(c as u32 + 784).unwrap())
        .collect();
    assert_eq!(
        filtered::answer(&title, "", b"unused"),
        Err(PuzzleError::CheckFailed)
    );
}
