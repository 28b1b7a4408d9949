//! The "Meaning of life" puzzle: text written as binary numbers, and a
//! guessed key for its base64 text.
use vstd::prelude::*;
use crate::bytes::{aes_output, base64, base64_output, bytes_result, decrypt_with, Cipher, CipherError};
use crate::text::{chars_of, string_from_chars};

verus! {

/// The characters that `char::is_whitespace` accepts (Unicode White_Space).
pub open spec fn is_white_space(c: char) -> bool {
    let v = c as u32;
    (9 <= v <= 13) || v == 32 || v == 0x85 || v == 0xA0 || v == 0x1680 || (0x2000 <= v <= 0x200A)
        || v == 0x2028 || v == 0x2029 || v == 0x202F || v == 0x205F || v == 0x3000
}

/// The words finished so far, and the word being read.
pub open spec fn split_words(s: Seq<char>) -> (Seq<Seq<char>>, Seq<char>)
    decreases s.len(),
{
    if s.len() == 0 {
        (seq![], seq![])
    } else {
        let (done, cur) = split_words(s.drop_last());
        if is_white_space(s.last()) {
            if cur.len() > 0 {
                (done.push(cur), seq![])
            } else {
                (done, cur)
            }
        } else {
            (done, cur.push(s.last()))
        }
    }
}

/// The whitespace-separated words of `s`.
pub open spec fn words(s: Seq<char>) -> Seq<Seq<char>> {
    let (done, cur) = split_words(s);
    if cur.len() > 0 {
        done.push(cur)
    } else {
        done
    }
}

/// The value of binary digits, or -1 when one is not a binary digit.
pub open spec fn bin_value(d: Seq<char>) -> int
    decreases d.len(),
{
    if d.len() == 0 {
        0
    } else {
        let p = bin_value(d.drop_last());
        if p < 0 {
            -1
        } else if d.last() == '0' {
            2 * p
        } else if d.last() == '1' {
            2 * p + 1
        } else {
            -1
        }
    }
}

/// What `u8::from_str_radix(w, 2)` reads: binary digits after an optional
/// `+`; -1 where it reports an error (a value past 255 reads as itself).
pub open spec fn word_value(w: Seq<char>) -> int {
    let d = if w.len() > 1 && w[0] == '+' { w.drop_first() } else { w };
    if d.len() == 0 {
        -1
    } else {
        bin_value(d)
    }
}

/// Every word is a binary number of at most eight bits.
pub open spec fn binary_text_ok(s: Seq<char>) -> bool {
    forall|i: int| 0 <= i < words(s).len() ==> 0 <= #[trigger] word_value(words(s)[i]) <= 255
}

/// The character of each word's value.
pub open spec fn binary_text(s: Seq<char>) -> Seq<char> {
    Seq::new(words(s).len(), |i: int| (word_value(words(s)[i]) as u8) as char)
}

proof fn lemma_done_prefix(s: Seq<char>, i: int, j: int)
    requires
        0 <= i <= j <= s.len(),
    ensures
        split_words(s.take(i)).0.len() <= split_words(s.take(j)).0.len(),
        split_words(s.take(i)).0 == split_words(s.take(j)).0.take(split_words(s.take(i)).0.len() as int),
    decreases j - i,
{
    if i < j {
        lemma_done_prefix(s, i, j - 1);
        assert(s.take(j).drop_last() == s.take(j - 1));
    }
}

proof fn lemma_bin_prefix(d: Seq<char>, i: int)
    requires
        bin_value(d) >= 0,
        0 <= i <= d.len(),
    ensures
        0 <= bin_value(d.take(i)) <= bin_value(d),
    decreases d.len(),
{
    if i < d.len() {
        lemma_bin_prefix(d.drop_last(), i);
        assert(d.drop_last().take(i) == d.take(i));
    } else {
        assert(d.take(i) == d);
    }
}

fn parse_word(w: &Vec<char>) -> (r: u8)
    requires
        0 <= word_value(w@) <= 255,
    ensures
        r as int == word_value(w@),
{
    let start: usize = if w.len() > 1 && w[0] == '+' { 1 } else { 0 };
    let ghost d = if w@.len() > 1 && w@[0] == '+' { w@.drop_first() } else { w@ };
    assert(d == w@.skip(start as int));
    let mut v: u16 = 0;
    let mut i = start;
    while i < w.len()
        invariant
            start <= i <= w@.len(),
            d == w@.skip(start as int),
            0 <= bin_value(d) <= 255,
            v as int == bin_value(d.take(i - start)),
        decreases w@.len() - i,
    {
        proof {
            lemma_bin_prefix(d, i - start + 1);
            assert(d.take(i - start + 1).drop_last() == d.take(i - start));
            assert(d.take(i - start + 1).last() == w@[i as int]);
        }
        if w[i] == '0' {
            v = 2 * v;
        } else {
            v = 2 * v + 1;
        }
        i = i + 1;
    }
    assert(d.take(w@.len() - start) == d);
    v as u8
}

fn is_white(c: char) -> (r: bool)
    ensures
        r == is_white_space(c),
{
    let v = c as u32;
    (9 <= v && v <= 13) || v == 32 || v == 0x85 || v == 0xA0 || v == 0x1680 || (0x2000 <= v && v
        <= 0x200A) || v == 0x2028 || v == 0x2029 || v == 0x202F || v == 0x205F || v == 0x3000
}

/// The text that whitespace-separated binary numbers spell, one character
/// per number.
pub fn hex(binary: &str) -> (r: String)
    requires
        binary_text_ok(binary@),
    ensures
        r@ == binary_text(binary@),
{
    let cs = chars_of(binary);
    let ghost s = cs@;
    let mut out: Vec<char> = Vec::new();
    let mut cur: Vec<char> = Vec::new();
    let mut i: usize = 0;
    while i < cs.len()
        invariant
            i <= cs@.len(),
            s == cs@,
            binary_text_ok(s),
            cur@ == split_words(s.take(i as int)).1,
            out@ == Seq::new(
                split_words(s.take(i as int)).0.len(),
                |j: int| (word_value(split_words(s.take(i as int)).0[j]) as u8) as char,
            ),
        decreases cs@.len() - i,
    {
        let c = cs[i];
        assert(s.take(i + 1).drop_last() == s.take(i as int));
        assert(s.take(i + 1).last() == c);
        if is_white(c) {
            if cur.len() > 0 {
                proof {
                    let done1 = split_words(s.take(i + 1)).0;
                    let k = split_words(s.take(i as int)).0.len() as int;
                    lemma_done_prefix(s, i + 1, s.len() as int);
                    assert(s.take(s.len() as int) == s);
                    assert(done1[k] == cur@);
                    assert(words(s)[k] == cur@);
                    assert(0 <= word_value(words(s)[k]) <= 255);
                }
                let v = parse_word(&cur);
                out.push(v as char);
                cur = Vec::new();
            }
        } else {
            cur.push(c);
        }
        i = i + 1;
        assert(out@ =~= Seq::new(
            split_words(s.take(i as int)).0.len(),
            |j: int| (word_value(split_words(s.take(i as int)).0[j]) as u8) as char,
        ));
    }
    assert(s.take(s.len() as int) == s);
    if cur.len() > 0 {
        let k = out.len();
        assert(words(s)[k as int] == cur@);
        assert(0 <= word_value(words(s)[k as int]) <= 255);
        let v = parse_word(&cur);
        out.push(v as char);
    }
    assert(out@ =~= binary_text(s));
    string_from_chars(out.as_slice())
}

/// An experiment that is switched off: it does nothing.
pub fn schizo() {
}

/// The guessed key: the ASCII digits `1416938177140585`.
pub open spec fn guessed_key() -> Seq<u8> {
    seq![49u8, 52, 49, 54, 57, 51, 56, 49, 55, 55, 49, 52, 48, 53, 56, 53]
}

/// The base64 text `encrypted`, decoded and decrypted with the guessed key.
pub fn answer(encrypted: &[u8]) -> (r: Result<Vec<u8>, CipherError>)
    ensures
        bytes_result(r) == match base64_output(encrypted@) {
            Ok(d) => aes_output(d, guessed_key()),
            Err(e) => Err(e),
        },
{
    let key: Vec<u8> = vec![49u8, 52, 49, 54, 57, 51, 56, 49, 55, 55, 49, 52, 48, 53, 56, 53];
    assert(key@ == guessed_key());
    let mut c = base64().chain(decrypt_with(key.as_slice()));
    proof {
        reveal_with_fuel(crate::bytes::chain_output, 3);
    }
    c.process(encrypted)
}

} // verus!
