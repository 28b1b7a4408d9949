//! Solvers for a series of puzzles: byte ciphers (base64, AES, Malbolge,
//! fuzzy replacement), operations on the digits of big integers, image
//! denoising, and the glue that chains them into answers.
use vstd::prelude::*;
use crate::bytes::CipherError;
use crate::numbers::NumError;
use crate::text::{chars_of, string_from_chars};

pub mod bigint;
pub mod bytes;
pub mod text;
pub mod numbers;
pub mod images;
pub mod qr;
pub mod math;
pub mod schizo;
pub mod numbers1;
pub mod study;
pub mod numbers2;
pub mod soundcloud;
pub mod filtered;
pub mod meaning_of_life;
pub mod candle;
pub mod parse;
pub mod video;
pub mod audio;
pub mod curvefit;

verus! {

/// The cipher and number operation that does nothing.
pub struct Noop;

/// Why solving a puzzle failed.
#[derive(Clone, Copy, Debug, PartialEq, Eq)]
pub enum PuzzleError {
    Cipher(CipherError),
    Num(NumError),
    NoWhitespace,
    ShiftExhausted,
    CheckFailed,
    KeyTooShort,
    KeyNotFound,
}

/// A result's text by its view.
pub open spec fn puzzle_text(r: Result<String, PuzzleError>) -> Result<Seq<char>, PuzzleError> {
    match r {
        Ok(s) => Ok(s@),
        Err(e) => Err(e),
    }
}

/// A cipher result as a puzzle result.
pub open spec fn from_cipher(r: Result<Seq<char>, CipherError>) -> Result<Seq<char>, PuzzleError> {
    match r {
        Ok(s) => Ok(s),
        Err(e) => Err(PuzzleError::Cipher(e)),
    }
}

/// The characters that `u8::is_ascii_whitespace` accepts.
pub open spec fn is_ascii_ws_char(c: char) -> bool {
    c == ' ' || c == '\t' || c == '\n' || c == '\x0C' || c == '\r'
}

/// The index of the last ASCII whitespace character, or -1.
pub open spec fn last_ws(s: Seq<char>) -> int
    decreases s.len(),
{
    if s.len() == 0 {
        -1
    } else if is_ascii_ws_char(s.last()) {
        s.len() - 1
    } else {
        last_ws(s.drop_last())
    }
}

proof fn lemma_last_ws(s: Seq<char>)
    ensures
        -1 <= last_ws(s) < s.len(),
        last_ws(s) >= 0 ==> is_ascii_ws_char(s[last_ws(s)]),
        forall|i: int| last_ws(s) < i < s.len() ==> !is_ascii_ws_char(#[trigger] s[i]),
    decreases s.len(),
{
    if s.len() > 0 {
        lemma_last_ws(s.drop_last());
        assert forall|i: int| last_ws(s) < i < s.len() implies !is_ascii_ws_char(#[trigger] s[i]) by {
            if i < s.len() - 1 {
                assert(s[i] == s.drop_last()[i]);
            }
        }
    }
}

fn is_ws(c: char) -> (r: bool)
    ensures
        r == is_ascii_ws_char(c),
{
    c == ' ' || c == '\t' || c == '\n' || c == '\x0C' || c == '\r'
}

/// Splits off the last word: `s` keeps what stands before its last
/// whitespace character, and what follows that character is returned.
pub fn split_off_last_word(s: &mut String) -> (r: String)
    requires
        last_ws(old(s)@) >= 0,
    ensures
        final(s)@ == old(s)@.take(last_ws(old(s)@)),
        r@ == old(s)@.skip(last_ws(old(s)@) + 1),
        old(s)@ == final(s)@ + seq![old(s)@[last_ws(old(s)@)]] + r@,
{
    let cs = chars_of(s.as_str());
    proof {
        lemma_last_ws(cs@);
    }
    let mut i = cs.len();
    while i > 0 && !is_ws(cs[i - 1])
        invariant
            i <= cs@.len(),
            last_ws(cs@) < i,
            -1 <= last_ws(cs@),
            last_ws(cs@) >= 0 ==> is_ascii_ws_char(cs@[last_ws(cs@)]),
            forall|k: int| i <= k < cs@.len() ==> !is_ascii_ws_char(#[trigger] cs@[k]),
        decreases i,
    {
        i = i - 1;
    }
    let pos = i - 1;
    assert(pos == last_ws(cs@)) by {
        if last_ws(cs@) < pos {
            assert(!is_ascii_ws_char(cs@[pos as int]));
        }
    }
    let head = vstd::slice::slice_subrange(cs.as_slice(), 0, pos);
    let tail = vstd::slice::slice_subrange(cs.as_slice(), pos + 1, cs.len());
    let ret = string_from_chars(tail);
    *s = string_from_chars(head);
    assert(cs@ =~= head@ + seq![cs@[pos as int]] + tail@);
    ret
}

} // verus!
