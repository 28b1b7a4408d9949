//! Experimental helpers: hex decoding and a forward character shift.
use vstd::prelude::*;
use vstd::string::StringSliceAdditionalSpecFns;
use crate::text::{char_from_u32, chars_of, is_char_code, string_from_chars};

pub mod reverse;

pub use reverse::reverse_numbers;



verus! {

/// The value of a hexadecimal digit, or -1.
pub open spec fn hex_val(b: u8) -> int {
    if 48 <= b <= 57 {
        b - 48
    } else if 97 <= b <= 102 {
        b - 87
    } else if 65 <= b <= 70 {
        b - 55
    } else {
        -1
    }
}

/// The byte that `u8::from_str_radix(.., 16)` reads from two characters:
/// two hex digits, or `+` and one hex digit; -1 where it reports an error.
pub open spec fn pair_value(c0: u8, c1: u8) -> int {
    if c0 == 43 {
        hex_val(c1)
    } else if hex_val(c0) >= 0 && hex_val(c1) >= 0 {
        hex_val(c0) * 16 + hex_val(c1)
    } else {
        -1
    }
}

/// Every whole pair of bytes reads as a byte.
pub open spec fn hex_pairs_ok(b: Seq<u8>) -> bool {
    forall|k: int| 0 <= k < b.len() / 2 ==> #[trigger] pair_value(b[2 * k], b[2 * k + 1]) >= 0
}

/// The bytes that the pairs read as; a trailing odd byte is ignored.
pub open spec fn hex_decoded(b: Seq<u8>) -> Seq<u8> {
    Seq::new((b.len() / 2) as nat, |k: int| pair_value(b[2 * k], b[2 * k + 1]) as u8)
}

/// The lower-case hexadecimal digit of `d` (below 16).
pub open spec fn hex_char(d: int) -> u8 {
    if d < 10 {
        (48 + d) as u8
    } else {
        (87 + d) as u8
    }
}

/// Bytes written as hexadecimal text, two lower-case digits each.
pub open spec fn hex_text(v: Seq<u8>) -> Seq<u8> {
    Seq::new(
        2 * v.len(),
        |i: int|
            if i % 2 == 0 {
                hex_char((v[i / 2] / 16) as int)
            } else {
                hex_char((v[i / 2] % 16) as int)
            },
    )
}

/// Hex text decodes back to its bytes: when each pair of `t` is two hex
/// digits, of either case, that write the byte of `v` at its place (one
/// byte more at the end is allowed and ignored), the pairs of `t` all read
/// and give `v`. In particular this holds of `hex_text(v)`.
pub proof fn lemma_hex_round_trip(v: Seq<u8>, t: Seq<u8>)
    requires
        t.len() == 2 * v.len() || t.len() == 2 * v.len() + 1,
        forall|k: int|
            0 <= k < v.len() ==> hex_val(#[trigger] t[2 * k]) >= 0 && hex_val(t[2 * k + 1]) >= 0
                && hex_val(t[2 * k]) * 16 + hex_val(t[2 * k + 1]) == v[k],
    ensures
        hex_pairs_ok(t),
        hex_decoded(t) == v,
{
    assert(t.len() / 2 == v.len());
    assert forall|k: int| 0 <= k < t.len() / 2 implies #[trigger] pair_value(t[2 * k], t[2 * k + 1]) >= 0 by {
        assert(hex_val(t[2 * k]) >= 0);
    }
    assert forall|k: int| 0 <= k < v.len() implies #[trigger] hex_decoded(t)[k] == v[k] by {
        assert(hex_val(t[2 * k]) >= 0);
    }
    assert(hex_decoded(t) =~= v);
}

/// The lower-case hex text of any bytes decodes back to them.
pub proof fn lemma_hex_text(v: Seq<u8>)
    ensures
        hex_pairs_ok(hex_text(v)),
        hex_decoded(hex_text(v)) == v,
{
    let t = hex_text(v);
    assert forall|k: int|
        0 <= k < v.len() implies hex_val(#[trigger] t[2 * k]) >= 0 && hex_val(t[2 * k + 1]) >= 0
            && hex_val(t[2 * k]) * 16 + hex_val(t[2 * k + 1]) == v[k] by {
        assert((2 * k) % 2 == 0 && (2 * k) / 2 == k);
        assert((2 * k + 1) % 2 == 1 && (2 * k + 1) / 2 == k);
        let hi = v[k] / 16;
        let lo = v[k] % 16;
        assert(hi < 16 && lo < 16);
        assert(t[2 * k] == hex_char(hi as int));
        assert(t[2 * k + 1] == hex_char(lo as int));
        assert(hi * 16 + lo == v[k]);
    }
    lemma_hex_round_trip(v, t);
}

fn hex_digit(b: u8) -> (r: i16)
    ensures
        r == hex_val(b),
{
    if 48 <= b && b <= 57 {
        (b - 48) as i16
    } else if 97 <= b && b <= 102 {
        (b - 87) as i16
    } else if 65 <= b && b <= 70 {
        (b - 55) as i16
    } else {
        -1
    }
}

/// The bytes that a string of hexadecimal pairs denotes.
pub fn hex_to_bytes(s: &str) -> (r: Vec<u8>)
    requires
        hex_pairs_ok(s.spec_bytes()),
    ensures
        r@ == hex_decoded(s.spec_bytes()),
{
    let b = s.as_bytes();
    let len = b.len();
    let n = len / 2;
    let mut out: Vec<u8> = Vec::new();
    let mut k: usize = 0;
    while k < n
        invariant
            k <= n,
            n == len / 2,
            len == b@.len(),
            b@ == s.spec_bytes(),
            hex_pairs_ok(b@),
            out@ == hex_decoded(b@).take(k as int),
        decreases n - k,
    {
        assert(2 * k + 1 < b@.len());
        let c0 = b[2 * k];
        let c1 = b[2 * k + 1];
        assert(pair_value(b@[2 * k], b@[2 * k + 1]) >= 0);
        let v: u8 = if c0 == 43 {
            hex_digit(c1) as u8
        } else {
            (hex_digit(c0) * 16 + hex_digit(c1)) as u8
        };
        out.push(v);
        k = k + 1;
        assert(out@ =~= hex_decoded(b@).take(k as int));
    }
    assert(hex_decoded(b@).take(n as int) =~= hex_decoded(b@));
    out
}

/// Each character other than a space moves `shift` code points up (at
/// least to the space); moves that land on no character drop it.
pub open spec fn rev_shifted(s: Seq<char>, shift: u32) -> Seq<char>
    decreases s.len(),
{
    if s.len() == 0 {
        seq![]
    } else {
        let rest = rev_shifted(s.drop_last(), shift);
        let x = s.last();
        if x == ' ' {
            rest.push(' ')
        } else {
            let v = if x as u32 + shift >= 32 { x as u32 + shift } else { 32 };
            if is_char_code(v as u32) {
                rest.push(v as char)
            } else {
                rest
            }
        }
    }
}

/// A string whose characters move up by one more code point per call.
pub struct RevShift(Vec<char>, u32);

impl View for RevShift {
    type V = (Seq<char>, u32);

    closed spec fn view(&self) -> (Seq<char>, u32) {
        (self.0@, self.1)
    }
}

impl RevShift {
    /// The shifts of `s`, starting with `s` itself.
    pub fn new(s: &str) -> (r: RevShift)
        ensures
            r@ == (s@, 0u32),
    {
        RevShift(chars_of(s), 0)
    }

    /// The string shifted by the current amount; the amount then grows by one.
    pub fn next(&mut self) -> (r: Option<String>)
        requires
            old(self)@.1 < u32::MAX,
            forall|i: int|
                #![trigger old(self)@.0[i]]
                0 <= i < old(self)@.0.len() && old(self)@.0[i] != ' ' ==> old(self)@.0[i] as u32 + old(self)@.1
                    <= u32::MAX,
        ensures
            final(self)@ == (old(self)@.0, (old(self)@.1 + 1) as u32),
            r matches Some(s) && s@ == rev_shifted(old(self)@.0, old(self)@.1),
    {
        let shift = self.1;
        assert forall|j: int| 0 <= j < self.0@.len() && self.0@[j] != ' ' implies #[trigger] self.0@[j] as u32 + shift
            <= u32::MAX by {
            assert(old(self)@.0[j] == self.0@[j]);
        }
        let mut out: Vec<char> = Vec::new();
        let mut i: usize = 0;
        while i < self.0.len()
            invariant
                i <= self.0@.len(),
                shift == self.1,
                shift < u32::MAX,
                forall|j: int|
                    #![trigger self.0@[j]]
                    0 <= j < self.0@.len() && self.0@[j] != ' ' ==> self.0@[j] as u32 + shift <= u32::MAX,
                out@ == rev_shifted(self.0@.take(i as int), shift),
            decreases self.0@.len() - i,
        {
            let x = self.0[i];
            assert(self.0@.take(i + 1).drop_last() == self.0@.take(i as int));
            if x == ' ' {
                out.push(' ');
            } else {
                proof {
                    vstd::utf8::char_is_scalar(x);
                }
                let v0 = x as u32 + shift;
                let v = if v0 >= 32 { v0 } else { 32 };
                match char_from_u32(v) {
                    Some(c) => {
                        proof {
                            vstd::utf8::char_u32_cast(c, v);
                        }
                        out.push(c);
                    },
                    None => {},
                }
            }
            i = i + 1;
        }
        assert(self.0@.take(self.0@.len() as int) == self.0@);
        self.1 = self.1 + 1;
        Some(string_from_chars(out.as_slice()))
    }
}

} // verus!
