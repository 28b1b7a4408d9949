//! The "[Filtered]" puzzle: a title shifted down character by character
//! gives a Malbolge program whose tail is the key.
use vstd::prelude::*;
use vstd::string::StringSliceAdditionalSpecFns;
use vstd::utf8::encode_utf8;
use crate::{from_cipher, puzzle_text, PuzzleError};
use crate::bytes::{base64_aes_text, decrypt_base64, malbolge, Cipher};
use crate::bytes::malbolge::malbolge_output;
use crate::text::{char_from_u32, chars_of, is_char_code, string_from_chars};

verus! {

/// The code `x` moves to when shifted down by `k`: at least the space.
pub open spec fn shifted_code(x: char, k: u32) -> u32 {
    let v: int = if x as u32 >= k { x as u32 - k } else { 0 };
    if v < 32 {
        32
    } else {
        v as u32
    }
}

/// The text shifted down by `k`; codes that are no character are dropped.
pub open spec fn shift_text(s: Seq<char>, k: u32) -> Seq<char>
    decreases s.len(),
{
    if s.len() == 0 {
        seq![]
    } else if is_char_code(shifted_code(s.last(), k)) {
        shift_text(s.drop_last(), k).push(shifted_code(s.last(), k) as char)
    } else {
        shift_text(s.drop_last(), k)
    }
}

/// A character shifted down by `k`: one that would fall below the space
/// becomes a space.
pub open spec fn shift_char(c: char, k: u32) -> char {
    if c as u32 >= k + 32 {
        ((c as u32 - k) as u32) as char
    } else {
        ' '
    }
}

/// Shifting drops no character of a text below the surrogate range: every
/// character moves down by `k`, one that would fall below the space
/// becomes a space, and the text keeps its length.
pub proof fn lemma_shift_keeps_all(s: Seq<char>, k: u32)
    requires
        forall|i: int| #![trigger s[i]] 0 <= i < s.len() ==> (s[i] as u32) < 0xD800,
    ensures
        shift_text(s, k) == s.map_values(|c: char| shift_char(c, k)),
        shift_text(s, k).len() == s.len(),
    decreases s.len(),
{
    if s.len() > 0 {
        let t = s.drop_last();
        assert forall|i: int| #![trigger t[i]] 0 <= i < t.len() implies (t[i] as u32) < 0xD800 by {
            assert(t[i] == s[i]);
        }
        lemma_shift_keeps_all(t, k);
        let c = s.last();
        assert((c as u32) < 0xD800);
        vstd::utf8::char_u32_cast(' ', ' ' as u32);
        assert(' ' as u32 == 32);
        assert(is_char_code(shifted_code(c, k)));
        assert((shifted_code(c, k) as char) == shift_char(c, k));
        assert(s.map_values(|c: char| shift_char(c, k)) =~= t.map_values(|c: char| shift_char(c, k)).push(
            shift_char(c, k),
        ));
    }
}

/// Some character survives the shift by `k` as something other than a space.
pub open spec fn shift_valid(s: Seq<char>, k: u32) -> bool
    decreases s.len(),
{
    if s.len() == 0 {
        false
    } else {
        shift_valid(s.drop_last(), k) || (is_char_code(shifted_code(s.last(), k)) && shifted_code(
            s.last(),
            k,
        ) != 32)
    }
}

/// For a text below the surrogate range, the shift by `k` yields nothing
/// exactly when every character would fall to the space or below it.
pub proof fn lemma_shift_exhausted(s: Seq<char>, k: u32)
    requires
        forall|i: int| #![trigger s[i]] 0 <= i < s.len() ==> (s[i] as u32) < 0xD800,
    ensures
        !shift_valid(s, k) <==> forall|i: int| #![trigger s[i]] 0 <= i < s.len() ==> (s[i] as u32) < k + 33,
    decreases s.len(),
{
    if s.len() > 0 {
        let t = s.drop_last();
        assert forall|i: int| #![trigger t[i]] 0 <= i < t.len() implies (t[i] as u32) < 0xD800 by {
            assert(t[i] == s[i]);
        }
        lemma_shift_exhausted(t, k);
        let c = s.last();
        assert((c as u32) < 0xD800);
        assert(is_char_code(shifted_code(c, k)));
        assert((shifted_code(c, k) != 32) <==> (c as u32) >= k + 33);
        if forall|i: int| #![trigger s[i]] 0 <= i < s.len() ==> (s[i] as u32) < k + 33 {
            assert forall|i: int| #![trigger t[i]] 0 <= i < t.len() implies (t[i] as u32) < k + 33 by {
                assert(t[i] == s[i]);
            }
        }
        if forall|i: int| #![trigger t[i]] 0 <= i < t.len() ==> (t[i] as u32) < k + 33 {
            if (c as u32) < k + 33 {
                assert forall|i: int| #![trigger s[i]] 0 <= i < s.len() implies (s[i] as u32) < k + 33 by {
                    if i < t.len() {
                        assert(t[i] == s[i]);
                    }
                }
            }
        }
    }
}

/// What one call of `next` yields at shift `k`.
pub open spec fn shift_output(s: Seq<char>, k: u32) -> Option<Seq<char>> {
    if shift_valid(s, k) {
        Some(shift_text(s, k))
    } else {
        None
    }
}

/// What `nth(n)` yields from shift `k`, and how many calls of `next` it makes.
pub open spec fn shift_nth(s: Seq<char>, k: u32, n: nat) -> (Option<Seq<char>>, nat)
    decreases n,
{
    if n == 0 {
        (shift_output(s, k), 1)
    } else if shift_output(s, k) is None {
        (None, 1)
    } else {
        let (r, c) = shift_nth(s, (k + 1) as u32, (n - 1) as nat);
        (r, c + 1)
    }
}

/// A text shifted down by one more code point per call. Once a call has
/// yielded nothing, every later call yields nothing too (the third field
/// records that).
pub struct Shift(Vec<char>, u32, bool);

impl View for Shift {
    type V = (Seq<char>, u32, bool);

    closed spec fn view(&self) -> (Seq<char>, u32, bool) {
        (self.0@, self.1, self.2)
    }
}

impl Shift {
    /// The shifts of `s`, starting with no shift.
    pub fn new(s: &str) -> (r: Shift)
        ensures
            r@ == (s@, 0u32, false),
    {
        Shift(chars_of(s), 0, false)
    }

    /// The text at the current shift, or `None` when nothing but spaces
    /// would be left; the shift then grows by one. After the first `None`,
    /// every call gives `None` and leaves the state as it is.
    pub fn next(&mut self) -> (r: Option<String>)
        requires
            !old(self)@.2 ==> old(self)@.1 < u32::MAX,
        ensures
            old(self)@.2 ==> r is None && final(self)@ == old(self)@,
            !old(self)@.2 ==> final(self)@ == (
                old(self)@.0,
                (old(self)@.1 + 1) as u32,
                shift_output(old(self)@.0, old(self)@.1) is None,
            ),
            !old(self)@.2 ==> match r {
                Some(t) => shift_output(old(self)@.0, old(self)@.1) == Some(t@),
                None => shift_output(old(self)@.0, old(self)@.1) is None,
            },
    {
        if self.2 {
            return None;
        }
        let k = self.1;
        let mut valid = false;
        let mut out: Vec<char> = Vec::new();
        let mut i: usize = 0;
        while i < self.0.len()
            invariant
                i <= self.0@.len(),
                k == self.1,
                out@ == shift_text(self.0@.take(i as int), k),
                valid == shift_valid(self.0@.take(i as int), k),
            decreases self.0@.len() - i,
        {
            let x = self.0[i];
            assert(self.0@.take(i + 1).drop_last() == self.0@.take(i as int));
            let xv = x as u32;
            let v0 = if xv >= k { xv - k } else { 0 };
            let v = if v0 < 32 { 32 } else { v0 };
            match char_from_u32(v) {
                Some(c) => {
                    proof {
                        vstd::utf8::char_u32_cast(c, v);
                    }
                    if c != ' ' {
                        valid = true;
                    }
                    out.push(c);
                },
                None => {},
            }
            i = i + 1;
        }
        assert(self.0@.take(self.0@.len() as int) == self.0@);
        self.1 = self.1 + 1;
        if valid {
            Some(string_from_chars(out.as_slice()))
        } else {
            self.2 = true;
            None
        }
    }

    /// The text `n` calls of `next` further on, or `None` when one of the
    /// calls on the way yields nothing.
    pub fn nth(&mut self, n: u32) -> (r: Option<String>)
        requires
            !old(self)@.2 ==> old(self)@.1 as int + n < u32::MAX,
        ensures
            old(self)@.2 ==> r is None && final(self)@ == old(self)@,
            !old(self)@.2 ==> match r {
                Some(t) => shift_nth(old(self)@.0, old(self)@.1, n as nat).0 == Some(t@),
                None => shift_nth(old(self)@.0, old(self)@.1, n as nat).0 is None,
            },
            !old(self)@.2 ==> final(self)@ == (
                old(self)@.0,
                (old(self)@.1 + shift_nth(old(self)@.0, old(self)@.1, n as nat).1) as u32,
                r is None,
            ),
    {
        if self.2 {
            return None;
        }
        let mut i: u32 = 0;
        let ghost s = self@.0;
        let ghost k0 = self@.1;
        while i < n
            invariant
                i <= n,
                s == old(self)@.0,
                k0 == old(self)@.1,
                self@.0 == s,
                self@.1 == k0 + i,
                !self@.2,
                !old(self)@.2,
                k0 + n < u32::MAX,
                shift_nth(s, k0, n as nat) == ({
                    let (r, c) = shift_nth(s, self@.1, (n - i) as nat);
                    (r, (c + i) as nat)
                }),
            decreases n - i,
        {
            let ghost cur = self@.1;
            assert((n - i) as nat > 0);
            match self.next() {
                Some(_) => {},
                None => {
                    assert(shift_nth(s, cur, (n - i) as nat) == (None::<Seq<char>>, 1nat));
                    return None;
                },
            }
            i = i + 1;
        }
        self.next()
    }
}

/// The expected output of the program: `hello world!`.
pub open spec fn hello_world() -> Seq<u8> {
    seq![104u8, 101, 108, 108, 111, 32, 119, 111, 114, 108, 100, 33]
}

/// What the answer is: the title shifted 784 times, followed by the known
/// end of the code, must be a Malbolge program printing `hello world!`; its
/// last 16 bytes are the key of the base64 text `encrypted`.
pub open spec fn filtered_output(title: Seq<char>, code_end: Seq<char>, encrypted: Seq<u8>) -> Result<Seq<char>, PuzzleError> {
    match shift_nth(title, 0, 784).0 {
        None => Err(PuzzleError::ShiftExhausted),
        Some(t) => {
            let code = encode_utf8(t + code_end);
            match malbolge_output(code) {
                Err(e) => Err(PuzzleError::Cipher(e)),
                Ok(out) => if out != hello_world() {
                    Err(PuzzleError::CheckFailed)
                } else if code.len() < 16 || vstd::utf8::is_continuation_byte(code[code.len() - 16]) {
                    Err(PuzzleError::KeyTooShort)
                } else {
                    from_cipher(base64_aes_text(encrypted, code.skip(code.len() - 16)))
                },
            }
        },
    }
}

fn is_hello_world(v: &Vec<u8>) -> (r: bool)
    ensures
        r == (v@ == hello_world()),
{
    let expected: [u8; 12] = [104, 101, 108, 108, 111, 32, 119, 111, 114, 108, 100, 33];
    assert(expected@ == hello_world());
    if v.len() != 12 {
        return false;
    }
    let mut i: usize = 0;
    while i < 12
        invariant
            i <= 12,
            v@.len() == 12,
            expected@ == hello_world(),
            forall|j: int| 0 <= j < i ==> v@[j] == expected@[j],
        decreases 12 - i,
    {
        if v[i] != expected[i] {
            return false;
        }
        i = i + 1;
    }
    assert(v@ =~= hello_world());
    true
}

/// The answer of the puzzle.
pub fn answer(title: &str, code_end: &str, encrypted: &[u8]) -> (r: Result<String, PuzzleError>)
    ensures
        puzzle_text(r) == filtered_output(title@, code_end@, encrypted@),
{
    let mut shift = Shift::new(title);
    let t = match shift.nth(784) {
        Some(t) => t,
        None => return Err(PuzzleError::ShiftExhausted),
    };
    let mut code_chars = chars_of(t.as_str());
    let mut end_chars = chars_of(code_end);
    code_chars.append(&mut end_chars);
    let code = string_from_chars(code_chars.as_slice());
    let bytes = code.as_str().as_bytes();
    let out = match malbolge().process(bytes) {
        Ok(o) => o,
        Err(e) => {
            proof {
                reveal_with_fuel(crate::bytes::chain_output, 2);
            }
            return Err(PuzzleError::Cipher(e));
        },
    };
    proof {
        reveal_with_fuel(crate::bytes::chain_output, 2);
    }
    if !is_hello_world(&out) {
        return Err(PuzzleError::CheckFailed);
    }
    let len = bytes.len();
    if len < 16 || (0x80 <= bytes[len - 16] && bytes[len - 16] <= 0xBF) {
        return Err(PuzzleError::KeyTooShort);
    }
    let key = vstd::slice::slice_subrange(bytes, len - 16, len);
    match decrypt_base64(encrypted, key) {
        Ok(s) => Ok(s),
        Err(e) => Err(PuzzleError::Cipher(e)),
    }
}

} // verus!
