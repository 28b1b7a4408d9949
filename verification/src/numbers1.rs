//! The "Numbers" puzzle: a key computed from a number by a chain of digit
//! operations, then used to decrypt the answer.
use vstd::prelude::*;
use vstd::string::StringSliceAdditionalSpecFns;
use std::collections::HashMap;
use num::{BigInt, BigUint};
use crate::{from_cipher, puzzle_text, PuzzleError};
use crate::bigint::{big_from_biguint, big_from_u64, big_to_string, int_decimal, nat_decimal, uvalue, value};
use crate::bytes::{base64_aes_text, decrypt_base64};
use crate::numbers::{
    append_digits, apply_num_op, flip_digits, int_result, multiply, num_chain_output, prepend_digits,
    replace_digit, NumError, NumOp,
};
use crate::numbers::digits::{concat_output, flip_value, replace_value};
use crate::text::{chars_of, string_from_chars};

verus! {

/// Continues with `f` after a success.
pub open spec fn then_num(r: Result<int, NumError>, f: spec_fn(int) -> Result<int, NumError>) -> Result<int, NumError> {
    match r {
        Ok(v) => f(v),
        Err(e) => Err(e),
    }
}

/// The number that the key is made from: 2 is put in front of `n`, then 9,
/// 1 are appended, the result is multiplied by 5, 6 is appended, the digits
/// are reversed, every 2 becomes 3, the result is multiplied by 9, 24 is
/// appended and 17 put in front.
pub open spec fn calc_number(n: int) -> Result<int, NumError> {
    let r1 = concat_output(10u8, 2, false, n);
    let r2 = then_num(r1, |a: int| concat_output(10u8, 9, true, a));
    let r3 = then_num(r2, |a: int| concat_output(10u8, 1, true, a));
    let r4 = then_num(r3, |a: int| Ok(a * 5));
    let r5 = then_num(r4, |a: int| concat_output(10u8, 6, true, a));
    let r6 = then_num(r5, |a: int| Ok(flip_value(a, 10)));
    let r7 = then_num(r6, |a: int| Ok(replace_value(10, seq![2u8], seq![3u8], a)));
    let r8 = then_num(r7, |a: int| Ok(a * 9));
    let r9 = then_num(r8, |a: int| concat_output(10u8, 24, true, a));
    then_num(r9, |a: int| concat_output(10u8, 17, false, a))
}

/// The key character for `x`: the character of `key` at the last of the
/// first `k` positions where `src` holds `x`; `x` itself if there is none.
pub open spec fn key_map(src: Seq<char>, key: Seq<char>, k: int, x: char) -> char
    decreases k,
{
    if k <= 0 {
        x
    } else if src[k - 1] == x {
        key[k - 1]
    } else {
        key_map(src, key, k - 1, x)
    }
}

/// The computed number's decimal digits, each replaced by the key character
/// paired with it in the input number's digits.
pub open spec fn calc_output(n: nat, key: Seq<char>) -> Result<Seq<char>, NumError> {
    match calc_number(n as int) {
        Ok(v) => {
            let d = int_decimal(v);
            let s = nat_decimal(n);
            let k = if s.len() <= key.len() { s.len() as int } else { key.len() as int };
            Ok(Seq::new(d.len(), |i: int| key_map(s, key, k, d[i])))
        },
        Err(e) => Err(e),
    }
}

/// The table from each character of the first `k` of `src` (by its code)
/// to the key character at the last place where it occurs.
fn key_table(src: &Vec<char>, key: &Vec<char>, k: usize) -> (m: HashMap<u32, char>)
    requires
        k <= src@.len(),
        k <= key@.len(),
    ensures
        forall|c: char|
            #![trigger key_map(src@, key@, k as int, c)]
            (m@.contains_key(c as u32) ==> m@[c as u32] == key_map(src@, key@, k as int, c)) && (
            !m@.contains_key(c as u32) ==> key_map(src@, key@, k as int, c) == c),
{
    broadcast use vstd::std_specs::hash::group_hash_axioms;
    let mut m: HashMap<u32, char> = HashMap::new();
    let mut i: usize = 0;
    while i < k
        invariant
            i <= k,
            k <= src@.len(),
            k <= key@.len(),
            forall|c: char|
                #![trigger key_map(src@, key@, i as int, c)]
                (m@.contains_key(c as u32) ==> m@[c as u32] == key_map(src@, key@, i as int, c)) && (
                !m@.contains_key(c as u32) ==> key_map(src@, key@, i as int, c) == c),
        decreases k - i,
    {
        let ghost m0 = m@;
        let ghost i0 = i as int;
        m.insert(src[i] as u32, key[i]);
        i = i + 1;
        assert forall|c: char|
            #![trigger key_map(src@, key@, i as int, c)]
            (m@.contains_key(c as u32) ==> m@[c as u32] == key_map(src@, key@, i as int, c)) && (
            !m@.contains_key(c as u32) ==> key_map(src@, key@, i as int, c) == c) by {
            assert(key_map(src@, key@, i as int, c) == if src@[i0] == c {
                key@[i0]
            } else {
                key_map(src@, key@, i0, c)
            });
            assert(m@ == m0.insert(src@[i0] as u32, key@[i0]));
            if src@[i0] != c {
                vstd::utf8::char_u32_cast(c, c as u32);
                vstd::utf8::char_u32_cast(src@[i0], src@[i0] as u32);
                assert(src@[i0] as u32 != c as u32);
                assert(m@.contains_key(c as u32) == m0.contains_key(c as u32));
            }
        }
    }
    m
}

/// The key character for `x` in a table built by `key_table`.
fn lookup(m: &HashMap<u32, char>, x: char) -> (r: char)
    ensures
        m@.contains_key(x as u32) ==> r == m@[x as u32],
        !m@.contains_key(x as u32) ==> r == x,
{
    broadcast use vstd::std_specs::hash::group_hash_axioms;
    match m.get(&(x as u32)) {
        Some(v) => *v,
        None => x,
    }
}

/// The key that the number `num` gives, with its digits mapped to the
/// characters of `key`.
pub fn calc(num: BigUint, key: &str) -> (r: Result<String, NumError>)
    ensures
        match r {
            Ok(s) => calc_output(uvalue(num), key@) == Ok::<Seq<char>, NumError>(s@),
            Err(e) => calc_output(uvalue(num), key@) == Err::<Seq<char>, NumError>(e),
        },
{
    let n = big_from_biguint(num);
    let ghost nv = value(n);
    let src = chars_of(big_to_string(&n).as_str());
    let op = prepend_digits(big_from_u64(2)).chain(append_digits(big_from_u64(9))).chain(
        append_digits(big_from_u64(1)),
    ).chain(multiply(big_from_u64(5))).chain(append_digits(big_from_u64(6))).chain(flip_digits()).chain(
        replace_digit(2, 3),
    ).chain(multiply(big_from_u64(9))).chain(append_digits(big_from_u64(24))).chain(
        prepend_digits(big_from_u64(17)),
    );
    proof {
        assert(op@.len() == 10);
        reveal_with_fuel(num_chain_output, 11);
        assert(num_chain_output(op.num_steps(), nv) == calc_number(nv));
    }
    let ret = match apply_num_op(n, op) {
        Ok(v) => v,
        Err(e) => return Err(e),
    };
    let digits = chars_of(big_to_string(&ret).as_str());
    let key_chars = chars_of(key);
    let k = if src.len() <= key_chars.len() {
        src.len()
    } else {
        key_chars.len()
    };
    let ghost d = int_decimal(value(ret));
    let table = key_table(&src, &key_chars, k);
    let mut out: Vec<char> = Vec::new();
    let mut i: usize = 0;
    while i < digits.len()
        invariant
            i <= digits@.len(),
            digits@ == d,
            k <= src@.len(),
            k <= key_chars@.len(),
            forall|c: char|
                #![trigger key_map(src@, key_chars@, k as int, c)]
                (table@.contains_key(c as u32) ==> table@[c as u32] == key_map(src@, key_chars@, k as int, c)) && (
                !table@.contains_key(c as u32) ==> key_map(src@, key_chars@, k as int, c) == c),
            out@ == Seq::new(d.len(), |j: int| key_map(src@, key_chars@, k as int, d[j])).take(i as int),
        decreases digits@.len() - i,
    {
        let c = lookup(&table, digits[i]);
        assert(c == key_map(src@, key_chars@, k as int, digits@[i as int]));
        out.push(c);
        i = i + 1;
        assert(out@ =~= Seq::new(d.len(), |j: int| key_map(src@, key_chars@, k as int, d[j])).take(
            i as int,
        ));
    }
    assert(out@ =~= Seq::new(d.len(), |j: int| key_map(src@, key_chars@, k as int, d[j])));
    Ok(string_from_chars(out.as_slice()))
}

/// What an answer of this puzzle is: the key that `number` gives (with the
/// key characters `abcdef`) decrypts the base64 text `encrypted`.
pub open spec fn answer_output(encrypted: Seq<u8>, number: nat) -> Result<Seq<char>, PuzzleError> {
    match calc_output(number, "abcdef"@) {
        Ok(key) => from_cipher(base64_aes_text(encrypted, vstd::utf8::encode_utf8(key))),
        Err(e) => Err(PuzzleError::Num(e)),
    }
}

/// Decrypts the answer: the key is computed from `number`.
pub fn answer(encrypted: &[u8], number: BigUint) -> (r: Result<String, PuzzleError>)
    ensures
        puzzle_text(r) == answer_output(encrypted@, uvalue(number)),
{
    let key = match calc(number, "abcdef") {
        Ok(k) => k,
        Err(e) => return Err(PuzzleError::Num(e)),
    };
    match decrypt_base64(encrypted, key.as_str().as_bytes()) {
        Ok(s) => Ok(s),
        Err(e) => Err(PuzzleError::Cipher(e)),
    }
}

} // verus!
