//! The "Candles" puzzle: the digits of a number are looked for in the
//! stream of Fibonacci digits; with the sixteen digits that follow them they
//! make the number that the key is computed from.
use vstd::prelude::*;
use num::BigUint;
use crate::{from_cipher, puzzle_text, PuzzleError};
use crate::bigint::{
    all_digits, big_from_biguint, big_parse_decimal, big_to_string, dec_value, lemma_nat_decimal_digits,
    nat_decimal, uvalue, value,
};
use crate::bytes::{base64_aes_text, decrypt_base64};
use crate::math::{digit_stream, digit_stream_state, lemma_digit_stream, stream_char, FibonacciDigits};
use crate::numbers1::calc_output;
use crate::text::{chars_of, string_from_chars};

verus! {

/// How many digits of the stream the search reads at most.
pub const SEARCH_LIMIT: u64 = 0xffff_ffff_ffff_ffff;

/// How many of the first characters of `k0` are matched after `n` digits of
/// the stream. The matching is naive: on a mismatch it starts over with the
/// next digit, without trying the mismatched digit as a new start.
pub open spec fn match_len(k0: Seq<char>, n: nat) -> int
    decreases n,
{
    if n == 0 {
        0
    } else {
        let j = match_len(k0, (n - 1) as nat);
        if j >= k0.len() {
            j
        } else if k0[j] == stream_char((n - 1) as nat) {
            j + 1
        } else {
            0
        }
    }
}

/// `i` is the first position of the stream after a complete match of `k0`.
pub open spec fn found_at(k0: Seq<char>, i: nat) -> bool {
    &&& match_len(k0, i) == k0.len()
    &&& forall|m: nat| m < i ==> match_len(k0, m) < k0.len()
}

/// The digits of the key number: `k0`, then the sixteen stream digits from
/// position `i`.
pub open spec fn candle_digits(k0: Seq<char>, i: nat) -> Seq<char> {
    k0 + digit_stream(i + 16).skip(i as int)
}

/// The answer when the match of the number's digits ends before position
/// `i`: the key number's digits are mapped to the characters of `gist` and
/// decrypt the base64 text `encrypted`.
pub open spec fn numbers_answer_output(number: nat, gist: Seq<char>, encrypted: Seq<u8>, i: nat) -> Result<
    Seq<char>,
    PuzzleError,
> {
    match calc_output(dec_value(candle_digits(nat_decimal(number), i)) as nat, gist) {
        Ok(key) => from_cipher(base64_aes_text(encrypted, vstd::utf8::encode_utf8(key))),
        Err(e) => Err(PuzzleError::Num(e)),
    }
}

/// Reads the stream until the digits of `k0` have been matched, and returns
/// the stream positioned after them with that position.
fn search(k0: &Vec<char>) -> (r: Option<(FibonacciDigits, u64)>)
    requires
        k0@.len() > 0,
    ensures
        match r {
            Some((fd, i)) => {
                &&& fd@ == digit_stream_state(i as nat)
                &&& fd@.0.0 >= 0 && fd@.0.1 >= 0
                &&& i <= SEARCH_LIMIT
                &&& found_at(k0@, i as nat)
            },
            None => forall|m: nat| m <= SEARCH_LIMIT ==> match_len(k0@, m) < k0@.len(),
        },
{
    let mut fd = FibonacciDigits::new();
    let mut j: usize = 0;
    let mut n: u64 = 0;
    let len = k0.len();
    while n < SEARCH_LIMIT
        invariant
            k0@.len() > 0,
            len == k0@.len(),
            fd@ == digit_stream_state(n as nat),
            fd@.0.0 >= 0 && fd@.0.1 >= 0,
            j as int == match_len(k0@, n as nat),
            j < k0@.len(),
            forall|m: nat| m <= n ==> match_len(k0@, m) < k0@.len(),
        decreases SEARCH_LIMIT - n,
    {
        let x = fd.next().unwrap();
        assert(x == stream_char(n as nat));
        if k0[j] == x {
            j = j + 1;
        } else {
            j = 0;
        }
        n = n + 1;
        if j == len {
            assert(found_at(k0@, n as nat)) by {
                assert forall|m: nat| m < n implies match_len(k0@, m) < k0@.len() by {
                    assert(m <= n - 1);
                }
            }
            return Some((fd, n));
        }
        assert forall|m: nat| m <= n implies match_len(k0@, m) < k0@.len() by {
            if m < n {
                assert(m <= n - 1);
            }
        }
    }
    None
}

/// Decrypts the answer. The decimal digits of `number` are looked for in
/// the stream of Fibonacci digits; they and the sixteen digits that follow
/// the match make a number, whose key (mapped to the characters of `gist`)
/// decrypts the base64 text `encrypted`. `KeyNotFound` when no match ends
/// within the first `SEARCH_LIMIT` digits.
pub fn numbers_answer(encrypted: &[u8], number: BigUint, gist: &str) -> (r: Result<String, PuzzleError>)
    ensures
        (r == Err::<String, PuzzleError>(PuzzleError::KeyNotFound)) <==> (forall|m: nat|
            m <= SEARCH_LIMIT ==> match_len(nat_decimal(uvalue(number)), m) < nat_decimal(
                uvalue(number),
            ).len()),
        r != Err::<String, PuzzleError>(PuzzleError::KeyNotFound) ==> exists|i: nat|
            i <= SEARCH_LIMIT && found_at(nat_decimal(uvalue(number)), i) && puzzle_text(r)
                == numbers_answer_output(uvalue(number), gist@, encrypted@, i),
{
    let ghost k0s = nat_decimal(uvalue(number));
    let n = big_from_biguint(number);
    let text = big_to_string(&n);
    let k0 = chars_of(text.as_str());
    proof {
        lemma_nat_decimal_digits(uvalue(number));
    }
    assert(k0@ == k0s);
    let (mut fd, i) = match search(&k0) {
        Some(found) => found,
        None => return Err(PuzzleError::KeyNotFound),
    };
    let mut key = chars_of(text.as_str());
    let mut t: usize = 0;
    proof {
        lemma_digit_stream(i as nat);
        assert(digit_stream(i as nat).skip(i as int) =~= Seq::<char>::empty());
    }
    while t < 16
        invariant
            t <= 16,
            fd@ == digit_stream_state((i + t) as nat),
            fd@.0.0 >= 0 && fd@.0.1 >= 0,
            key@ == k0s + digit_stream((i + t) as nat).skip(i as int),
            all_digits(k0s),
        decreases 16 - t,
    {
        let x = fd.next().unwrap();
        proof {
            lemma_digit_stream((i + t) as nat);
            assert(digit_stream((i + t + 1) as nat) == digit_stream((i + t) as nat).push(x));
            assert(digit_stream((i + t + 1) as nat).skip(i as int) =~= digit_stream((i + t) as nat).skip(
                i as int,
            ).push(x));
        }
        key.push(x);
        t = t + 1;
    }
    proof {
        lemma_digit_stream((i + 16) as nat);
        assert(key@ == candle_digits(k0s, i as nat));
        assert(all_digits(key@)) by {
            let s = digit_stream((i + 16) as nat);
            assert forall|p: int| 0 <= p < key@.len() implies crate::bigint::is_digit(#[trigger] key@[p]) by {
                if p >= k0s.len() {
                    assert(key@[p] == s[p - k0s.len() + i]);
                }
            }
        }
    }
    let key_text = string_from_chars(key.as_slice());
    let key_num = big_parse_decimal(key_text.as_str());
    let cipher_key = match crate::numbers1::calc(key_num, gist) {
        Ok(k) => k,
        Err(e) => return Err(PuzzleError::Num(e)),
    };
    match decrypt_base64(encrypted, cipher_key.as_str().as_bytes()) {
        Ok(s) => Ok(s),
        Err(e) => Err(PuzzleError::Cipher(e)),
    }
}

} // verus!
