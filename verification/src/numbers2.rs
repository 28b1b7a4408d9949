//! The "Numbers II" puzzle, in three stages: a first decryption, a key taken
//! from the digits of the Fibonacci numbers, and a Malbolge program.
use vstd::prelude::*;
use vstd::string::StringSliceAdditionalSpecFns;
use vstd::utf8::encode_utf8;
use crate::{from_cipher, last_ws, split_off_last_word, Noop, PuzzleError};
use crate::bytes::{
    base64_aes_text, chain_output, decrypt_base64, fuzzy_replace, lemma_chain_concat, malbolge,
    process_string, utf8_text, CipherError, CipherStep, Chain,
};
use crate::bytes::fuzzy::fuzzy_output;
use crate::bytes::malbolge::malbolge_output;
use crate::math::{digit_stream, digit_stream_state, FibonacciDigits};
use crate::text::string_from_chars;

verus! {

/// A text split at its last whitespace character: what stands before it and
/// the word after it.
pub open spec fn split_last_word(t: Seq<char>) -> Result<(Seq<char>, Seq<char>), PuzzleError> {
    let p = last_ws(t);
    if p >= 0 {
        Ok((t.take(p), t.skip(p + 1)))
    } else {
        Err(PuzzleError::NoWhitespace)
    }
}

/// A pair of strings by their views.
pub open spec fn pair_result(r: Result<(String, String), PuzzleError>) -> Result<(Seq<char>, Seq<char>), PuzzleError> {
    match r {
        Ok((a, b)) => Ok((a@, b@)),
        Err(e) => Err(e),
    }
}

/// The first stage: `encrypted` decrypted under `key`, split at its last
/// whitespace character.
pub open spec fn stage1_output(encrypted: Seq<u8>, key: Seq<u8>) -> Result<(Seq<char>, Seq<char>), PuzzleError> {
    match from_cipher(base64_aes_text(encrypted, key)) {
        Ok(t) => split_last_word(t),
        Err(e) => Err(e),
    }
}

fn decrypt_and_split(encrypted: &[u8], key: &[u8]) -> (r: Result<(String, String), PuzzleError>)
    ensures
        pair_result(r) == stage1_output(encrypted@, key@),
{
    let mut text = match decrypt_base64(encrypted, key) {
        Ok(t) => t,
        Err(e) => return Err(PuzzleError::Cipher(e)),
    };
    if !has_whitespace(text.as_str()) {
        return Err(PuzzleError::NoWhitespace);
    }
    let cipher = split_off_last_word(&mut text);
    Ok((text, cipher))
}

fn has_whitespace(s: &str) -> (r: bool)
    ensures
        r == (last_ws(s@) >= 0),
{
    let cs = crate::text::chars_of(s);
    let mut i = cs.len();
    assert(cs@.take(i as int) == cs@);
    while i > 0
        invariant
            i <= cs@.len(),
            cs@ == s@,
            last_ws(cs@) == last_ws(cs@.take(i as int)),
        decreases i,
    {
        let c = cs[i - 1];
        assert(cs@.take(i as int).drop_last() == cs@.take(i - 1));
        assert(cs@.take(i as int).last() == c);
        if c == ' ' || c == '\t' || c == '\n' || c == '\x0C' || c == '\r' {
            return true;
        }
        i = i - 1;
    }
    false
}

/// The first stage of the puzzle: the text decrypted under `key`, and its
/// last word, which the next stage decrypts.
pub fn stage1(encrypted: &[u8], key: &[u8]) -> (r: Result<(String, String), PuzzleError>)
    ensures
        pair_result(r) == stage1_output(encrypted@, key@),
{
    decrypt_and_split(encrypted, key)
}

/// The ASCII decimal digits of `n`.
pub open spec fn dec_bytes(n: nat) -> Seq<u8>
    decreases n,
{
    if n < 10 {
        seq![(48 + n) as u8]
    } else {
        dec_bytes(n / 10).push((48 + n % 10) as u8)
    }
}

/// The digits of the numbers of a list, written one after another.
pub open spec fn list_pattern(nums: Seq<u64>) -> Seq<u8>
    decreases nums.len(),
{
    if nums.len() == 0 {
        seq![]
    } else {
        list_pattern(nums.drop_last()) + dec_bytes(nums.last() as nat)
    }
}

/// The lists by their views.
pub open spec fn list_views(lists: Seq<Vec<u64>>) -> Seq<Seq<u64>> {
    Seq::new(lists.len(), |i: int| lists[i]@)
}

/// `data` with, for each list in turn, one window holding the digits of the
/// list (in any order) removed.
pub open spec fn delete_patterns(lists: Seq<Seq<u64>>, data: Seq<u8>) -> Result<Seq<u8>, CipherError>
    decreases lists.len(),
{
    if lists.len() == 0 {
        Ok(data)
    } else {
        match delete_patterns(lists.drop_last(), data) {
            Ok(d) => fuzzy_output(list_pattern(lists.last()), seq![], true, d),
            Err(e) => Err(e),
        }
    }
}

/// The key of the second stage: the first 500 Fibonacci digits with the
/// lists' digits removed, cut to the first 16 bytes.
pub open spec fn stage2_key(lists: Seq<Seq<u64>>) -> Result<Seq<u8>, PuzzleError> {
    match utf8_text(delete_patterns(lists, encode_utf8(digit_stream(500)))) {
        Ok(t) => {
            let b = encode_utf8(t);
            if b.len() >= 16 && (b.len() == 16 || !vstd::utf8::is_continuation_byte(b[16])) {
                Ok(b.take(16))
            } else {
                Err(PuzzleError::KeyTooShort)
            }
        },
        Err(e) => Err(PuzzleError::Cipher(e)),
    }
}

/// The second stage: the last word of the first stage decrypted under the
/// Fibonacci key, split at its last whitespace character.
pub open spec fn stage2_output(encrypted: Seq<u8>, key1: Seq<u8>, lists: Seq<Seq<u64>>) -> Result<(Seq<char>, Seq<char>), PuzzleError> {
    match stage2_key(lists) {
        Ok(key) => match stage1_output(encrypted, key1) {
            Ok(p) => stage1_output(encode_utf8(p.1), key),
            Err(e) => Err(e),
        },
        Err(e) => Err(e),
    }
}

/// The third stage: what the last word of the second stage prints when run
/// as a Malbolge program.
pub open spec fn stage3_output(encrypted: Seq<u8>, key1: Seq<u8>, lists: Seq<Seq<u64>>) -> Result<Seq<char>, PuzzleError> {
    match stage2_output(encrypted, key1, lists) {
        Ok(p) => from_cipher(utf8_text(malbolge_output(encode_utf8(p.1)))),
        Err(e) => Err(e),
    }
}

fn push_decimal(out: &mut Vec<u8>, x: u64)
    ensures
        final(out)@ == old(out)@ + dec_bytes(x as nat),
    decreases x,
{
    if x >= 10 {
        push_decimal(out, x / 10);
    }
    out.push(48 + (x % 10) as u8);
    assert(old(out)@ + dec_bytes(x as nat) =~= final(out)@) by {
        if x >= 10 {
            assert(dec_bytes(x as nat) == dec_bytes((x / 10) as nat).push((48 + x % 10) as u8));
        }
    }
}

fn pattern_of(nums: &Vec<u64>) -> (r: Vec<u8>)
    ensures
        r@ == list_pattern(nums@),
{
    let mut out: Vec<u8> = Vec::new();
    let mut i: usize = 0;
    while i < nums.len()
        invariant
            i <= nums@.len(),
            out@ == list_pattern(nums@.take(i as int)),
        decreases nums@.len() - i,
    {
        assert(nums@.take(i + 1).drop_last() == nums@.take(i as int));
        push_decimal(&mut out, nums[i]);
        i = i + 1;
    }
    assert(nums@.take(nums@.len() as int) == nums@);
    out
}

fn fibonacci_text(n: usize) -> (r: String)
    ensures
        r@ == digit_stream(n as nat),
{
    let mut fd = FibonacciDigits::new();
    let mut out: Vec<char> = Vec::new();
    let mut i: usize = 0;
    while i < n
        invariant
            i <= n,
            fd@ == digit_stream_state(i as nat),
            fd@.0.0 >= 0,
            fd@.0.1 >= 0,
            out@ == digit_stream(i as nat),
        decreases n - i,
    {
        let c = fd.next().unwrap();
        out.push(c);
        i = i + 1;
    }
    string_from_chars(out.as_slice())
}

fn stage2_key_exec(lists: &[Vec<u64>]) -> (r: Result<Vec<u8>, PuzzleError>)
    ensures
        match r {
            Ok(k) => stage2_key(list_views(lists@)) == Ok::<Seq<u8>, PuzzleError>(k@),
            Err(e) => stage2_key(list_views(lists@)) == Err::<Seq<u8>, PuzzleError>(e),
        },
{
    let text = fibonacci_text(500);
    let data = text.as_str().as_bytes();
    let empty: Vec<u8> = Vec::new();
    let mut op: Chain = Noop.chain(Noop);
    proof {
        reveal_with_fuel(chain_output, 3);
        assert(chain_output(op@, data@) == delete_patterns(list_views(lists@).take(0), data@));
    }
    let mut i: usize = 0;
    while i < lists.len()
        invariant
            i <= lists@.len(),
            empty@.len() == 0,
            chain_output(op@, data@) == delete_patterns(list_views(lists@).take(i as int), data@),
        decreases lists@.len() - i,
    {
        let pat = pattern_of(&lists[i]);
        let f = fuzzy_replace(pat.as_slice(), empty.as_slice(), true);
        let ghost old_steps = op@;
        let ghost fs = seq![CipherStep::FuzzyReplace(f)];
        op = op.chain(f);
        proof {
            lemma_chain_concat(old_steps, fs, data@);
            reveal_with_fuel(chain_output, 2);
            let l = list_views(lists@);
            assert(l.take(i + 1).drop_last() == l.take(i as int));
            assert(l.take(i + 1).last() == lists@[i as int]@);
            assert(empty@ == Seq::<u8>::empty());
        }
        i = i + 1;
    }
    assert(list_views(lists@).take(lists@.len() as int) == list_views(lists@));
    let out = match process_string(data, op) {
        Ok(s) => s,
        Err(e) => return Err(PuzzleError::Cipher(e)),
    };
    let b = out.as_str().as_bytes();
    if b.len() < 16 || (b.len() > 16 && 0x80 <= b[16] && b[16] <= 0xBF) {
        return Err(PuzzleError::KeyTooShort);
    }
    Ok(vstd::slice::slice_to_vec(vstd::slice::slice_subrange(b, 0, 16)))
}

/// The second stage of the puzzle: the last word of the first stage,
/// decrypted under a key taken from the Fibonacci digits with the digits of
/// each of `lists` removed once; the text and its last word are returned.
pub fn stage2(encrypted: &[u8], key1: &[u8], lists: &[Vec<u64>]) -> (r: Result<(String, String), PuzzleError>)
    ensures
        pair_result(r) == stage2_output(encrypted@, key1@, list_views(lists@)),
{
    let key = match stage2_key_exec(lists) {
        Ok(k) => k,
        Err(e) => return Err(e),
    };
    let (_, cipher) = match stage1(encrypted, key1) {
        Ok(p) => p,
        Err(e) => return Err(e),
    };
    decrypt_and_split(cipher.as_str().as_bytes(), key.as_slice())
}

/// The third stage: what the last word of the second stage prints when run
/// as a Malbolge program.
pub fn stage3(encrypted: &[u8], key1: &[u8], lists: &[Vec<u64>]) -> (r: Result<String, PuzzleError>)
    ensures
        crate::puzzle_text(r) == stage3_output(encrypted@, key1@, list_views(lists@)),
{
    let (_, code) = match stage2(encrypted, key1, lists) {
        Ok(p) => p,
        Err(e) => return Err(e),
    };
    proof {
        reveal_with_fuel(chain_output, 2);
    }
    match process_string(code.as_str().as_bytes(), malbolge()) {
        Ok(s) => Ok(s),
        Err(e) => Err(PuzzleError::Cipher(e)),
    }
}

/// The answers of the three stages.
pub fn all_stages(encrypted: &[u8], key1: &[u8], lists: &[Vec<u64>]) -> (r: Result<(String, String, String), PuzzleError>)
    ensures
        match r {
            Ok((a, b, c)) => {
                &&& stage1_output(encrypted@, key1@) matches Ok(p) && p.0 == a@
                &&& stage2_output(encrypted@, key1@, list_views(lists@)) matches Ok(q) && q.0 == b@
                &&& stage3_output(encrypted@, key1@, list_views(lists@)) == Ok::<Seq<char>, PuzzleError>(c@)
            },
            Err(e) => {
                ||| stage1_output(encrypted@, key1@) == Err::<(Seq<char>, Seq<char>), PuzzleError>(e)
                ||| (stage1_output(encrypted@, key1@) is Ok && stage2_output(encrypted@, key1@, list_views(lists@))
                    == Err::<(Seq<char>, Seq<char>), PuzzleError>(e))
                ||| (stage1_output(encrypted@, key1@) is Ok && stage2_output(encrypted@, key1@, list_views(lists@)) is Ok
                    && stage3_output(encrypted@, key1@, list_views(lists@)) == Err::<Seq<char>, PuzzleError>(e))
            },
        },
{
    let (a, _) = match stage1(encrypted, key1) {
        Ok(p) => p,
        Err(e) => return Err(e),
    };
    let (b, _) = match stage2(encrypted, key1, lists) {
        Ok(p) => p,
        Err(e) => return Err(e),
    };
    let c = match stage3(encrypted, key1, lists) {
        Ok(s) => s,
        Err(e) => return Err(e),
    };
    Ok((a, b, c))
}

} // verus!
