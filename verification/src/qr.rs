//! Pieces of a QR code: the bit fields of its format information and the
//! data masks.
use vstd::prelude::*;

pub mod code;

verus! {

/// Bit `i` (counted from the least significant) of `x`.
pub open spec fn bit_of(x: u8, i: nat) -> bool {
    (x as nat / vstd::arithmetic::power2::pow2(i)) % 2 == 1
}

/// The lowest `n` bits of `x`, most significant first.
pub open spec fn low_bits(x: u8, n: nat) -> Seq<bool> {
    Seq::new(n, |j: int| bit_of(x, (n - 1 - j) as nat))
}

/// The lowest `n` bits of `x`, most significant first (`n` at most 8).
pub fn bits(x: u8, n: usize) -> (r: Vec<bool>)
    requires
        n <= 8,
    ensures
        r@ == low_bits(x, n as nat),
{
    let mut ret: Vec<bool> = Vec::new();
    let mut j: usize = 0;
    while j < n
        invariant
            j <= n,
            n <= 8,
            ret@ == low_bits(x, n as nat).take(j as int),
        decreases n - j,
    {
        let i = (n - 1 - j) as u8;
        let b = x & (1u8 << i) != 0;
        proof {
            vstd::bits::lemma_u8_pow2_no_overflow(i as nat);
            assert(b == bit_of(x, i as nat)) by {
                vstd::bits::lemma_u8_shl_is_mul(1, i);
                lemma_and_single_bit(x, i);
            }
        }
        ret.push(b);
        j = j + 1;
        assert(ret@ =~= low_bits(x, n as nat).take(j as int));
    }
    ret
}

proof fn lemma_and_single_bit(x: u8, i: u8)
    requires
        i < 8,
    ensures
        (x & (1u8 << i) != 0) == bit_of(x, i as nat),
{
    vstd::bits::lemma_u8_shr_is_div(x, i);
    vstd::bits::lemma_u8_pow2_no_overflow(i as nat);
    assert((x & (1u8 << i) != 0) == ((x >> i) % 2 == 1)) by (bit_vector)
        requires
            i < 8,
    ;
}

fn bits4(x: u8) -> (r: [bool; 4])
    ensures
        r@ == low_bits(x, 4),
{
    let v = bits(x, 4);
    let r = [v[0], v[1], v[2], v[3]];
    assert(r@ =~= v@);
    r
}

fn bits3(x: u8) -> (r: [bool; 3])
    ensures
        r@ == low_bits(x, 3),
{
    let v = bits(x, 3);
    let r = [v[0], v[1], v[2]];
    assert(r@ =~= v@);
    r
}

fn bits2(x: u8) -> (r: [bool; 2])
    ensures
        r@ == low_bits(x, 2),
{
    let v = bits(x, 2);
    let r = [v[0], v[1]];
    assert(r@ =~= v@);
    r
}

/// The encoding mode of a QR code's data.
#[derive(Copy, Clone, Debug, PartialEq, Eq)]
pub enum Mode {
    Numeric,
    Alphanumeric,
    Byte,
    Kanji,
    Eci,
}

impl Mode {
    /// The mode indicator.
    pub open spec fn spec_code(self) -> u8 {
        match self {
            Mode::Numeric => 1,
            Mode::Alphanumeric => 2,
            Mode::Byte => 4,
            Mode::Kanji => 8,
            Mode::Eci => 7,
        }
    }

    /// The mode indicator.
    pub fn code(self) -> (r: u8)
        ensures
            r == self.spec_code(),
    {
        match self {
            Mode::Numeric => 1,
            Mode::Alphanumeric => 2,
            Mode::Byte => 4,
            Mode::Kanji => 8,
            Mode::Eci => 7,
        }
    }

    /// The four bits of the mode indicator.
    pub fn bits(self) -> (r: [bool; 4])
        ensures
            r@ == low_bits(self.spec_code(), 4),
    {
        bits4(self.code())
    }
}

/// A data mask pattern; the variants are listed in the order of their
/// three-bit codes.
#[derive(Copy, Clone, Debug, PartialEq, Eq)]
pub enum Mask {
    M5,
    M4,
    M7,
    M6,
    M1,
    M0,
    M3,
    M2,
}

impl Mask {
    /// The mask's three-bit code.
    pub open spec fn spec_code(self) -> u8 {
        match self {
            Mask::M5 => 0,
            Mask::M4 => 1,
            Mask::M7 => 2,
            Mask::M6 => 3,
            Mask::M1 => 4,
            Mask::M0 => 5,
            Mask::M3 => 6,
            Mask::M2 => 7,
        }
    }

    /// The mask's three-bit code.
    pub fn code(self) -> (r: u8)
        ensures
            r == self.spec_code(),
    {
        match self {
            Mask::M5 => 0,
            Mask::M4 => 1,
            Mask::M7 => 2,
            Mask::M6 => 3,
            Mask::M1 => 4,
            Mask::M0 => 5,
            Mask::M3 => 6,
            Mask::M2 => 7,
        }
    }

    /// The three bits of the mask's code.
    pub fn bits(self) -> (r: [bool; 3])
        ensures
            r@ == low_bits(self.spec_code(), 3),
    {
        bits3(self.code())
    }

    /// Whether the mask flips the module at column `col`, row `row`.
    pub open spec fn spec_flip(self, col: u32, row: u32) -> bool {
        match self {
            Mask::M0 => (row + col) % 2 == 0,
            Mask::M1 => row % 2 == 0,
            Mask::M2 => col % 3 == 0,
            Mask::M3 => (row + col) % 3 == 0,
            Mask::M4 => (row / 2 + col / 3) % 2 == 0,
            Mask::M5 => (row * col) % 2 + (row * col) % 3 == 0,
            Mask::M6 => ((row * col) % 2 + (row * col) % 3) % 2 == 0,
            Mask::M7 => ((row + col) % 2 + (row * col) % 3) % 2 == 0,
        }
    }

    /// Whether the mask flips the module at column `col`, row `row`.
    pub fn flip(self, col: u32, row: u32) -> (r: bool)
        requires
            row + col <= u32::MAX,
            row * col <= u32::MAX,
        ensures
            r == self.spec_flip(col, row),
    {
        match self {
            Mask::M0 => (row + col) % 2 == 0,
            Mask::M1 => row % 2 == 0,
            Mask::M2 => col % 3 == 0,
            Mask::M3 => (row + col) % 3 == 0,
            Mask::M4 => (row / 2 + col / 3) % 2 == 0,
            Mask::M5 => (row * col) % 2 + (row * col) % 3 == 0,
            Mask::M6 => ((row * col) % 2 + (row * col) % 3) % 2 == 0,
            Mask::M7 => ((row + col) % 2 + (row * col) % 3) % 2 == 0,
        }
    }
}

/// Every mask pattern repeats every twelve modules along a row and along a
/// column, and the masks 0, 3, 5, 6 and 7 are the same with row and column
/// exchanged.
pub proof fn lemma_mask_period(m: Mask, col: u32, row: u32)
    requires
        col + 12 <= u32::MAX,
        row + 12 <= u32::MAX,
    ensures
        m.spec_flip((col + 12) as u32, row) == m.spec_flip(col, row),
        m.spec_flip(col, (row + 12) as u32) == m.spec_flip(col, row),
        (m is M0 || m is M3 || m is M5 || m is M6 || m is M7) ==> m.spec_flip(row, col) == m.spec_flip(
            col,
            row,
        ),
{
    let c = col as int;
    let r = row as int;
    assert((r + c + 12) % 2 == (r + c) % 2 && (r + c + 12) % 3 == (r + c) % 3) by (nonlinear_arith)
        requires
            r >= 0,
            c >= 0,
    ;
    assert((r * (c + 12)) % 2 == (r * c) % 2 && (r * (c + 12)) % 3 == (r * c) % 3) by (nonlinear_arith)
        requires
            r >= 0,
            c >= 0,
    ;
    assert(((r + 12) * c) % 2 == (r * c) % 2 && ((r + 12) * c) % 3 == (r * c) % 3) by (nonlinear_arith)
        requires
            r >= 0,
            c >= 0,
    ;
    assert((c + 12) % 3 == c % 3 && (r + 12) % 2 == r % 2) by (nonlinear_arith)
        requires
            r >= 0,
            c >= 0,
    ;
    assert((r / 2 + (c + 12) / 3) % 2 == (r / 2 + c / 3) % 2) by (nonlinear_arith)
        requires
            r >= 0,
            c >= 0,
    ;
    assert(((r + 12) / 2 + c / 3) % 2 == (r / 2 + c / 3) % 2) by (nonlinear_arith)
        requires
            r >= 0,
            c >= 0,
    ;
    assert(r * c == c * r) by (nonlinear_arith);
}

/// The error correction level; the variants are listed in the order of
/// their two-bit codes.
#[derive(Copy, Clone, Debug, PartialEq, Eq)]
pub enum EcLevel {
    H,
    Q,
    M,
    L,
}

impl EcLevel {
    /// The level's two-bit code.
    pub open spec fn spec_code(self) -> u8 {
        match self {
            EcLevel::H => 0,
            EcLevel::Q => 1,
            EcLevel::M => 2,
            EcLevel::L => 3,
        }
    }

    /// The level's two-bit code.
    pub fn code(self) -> (r: u8)
        ensures
            r == self.spec_code(),
    {
        match self {
            EcLevel::H => 0,
            EcLevel::Q => 1,
            EcLevel::M => 2,
            EcLevel::L => 3,
        }
    }

    /// The two bits of the level's code.
    pub fn bits(self) -> (r: [bool; 2])
        ensures
            r@ == low_bits(self.spec_code(), 2),
    {
        bits2(self.code())
    }
}

} // verus!
