//! Operations on the digits of an integer in some base.
use vstd::prelude::*;
use std::collections::VecDeque;
use num::BigInt;
use crate::bigint::{nat_decimal, abs, big_add, big_clone, big_div_rem, big_eq, big_from_u64, big_ge, big_is_zero, big_mul, tdiv, trem, value};
use crate::numbers::{int_result, NumError};

verus! {

/// `b` to the power `e`.
pub open spec fn ipow(b: int, e: nat) -> int
    decreases e,
{
    if e == 0 {
        1
    } else {
        b * ipow(b, (e - 1) as nat)
    }
}

/// How many digits `b` has past its first one (zero for `b < base`).
pub open spec fn extra_width(b: int, base: int) -> nat
    decreases b,
{
    if base >= 2 && b >= base {
        proof {
            vstd::arithmetic::div_mod::lemma_div_decreases(b, base);
            vstd::arithmetic::div_mod::lemma_div_pos_is_pos(b, base);
        }
        1 + extra_width(b / base, base)
    } else {
        0
    }
}

/// The digits of `a` followed by the digits of `b`: `a` shifted left by
/// the number of digits of `b`, plus `b`.
pub open spec fn concat_value(a: int, b: int, base: int) -> int {
    a * ipow(base, 1 + extra_width(b, base)) + b
}

/// What concatenating digits makes of `n`: the constant's digits come before
/// `n`'s, or after them when `after`. The leading part must not be zero.
pub open spec fn concat_output(base: u8, digits: int, after: bool, n: int) -> Result<int, NumError> {
    let a = if after { n } else { digits };
    let b = if after { digits } else { n };
    if a == 0 {
        Err(NumError::ZeroDigits)
    } else {
        Ok(concat_value(a, b, base as int))
    }
}

/// The digits of `m`, least significant first (none for zero).
pub open spec fn digits_le(m: nat, base: nat) -> Seq<int>
    decreases m,
{
    if base < 2 || m == 0 {
        seq![]
    } else {
        proof {
            vstd::arithmetic::div_mod::lemma_div_decreases(m as int, base as int);
        }
        seq![(m % base) as int] + digits_le(m / base, base)
    }
}

/// The number whose digits, most significant first, are `s`.
pub open spec fn horner(s: Seq<int>, base: int) -> int
    decreases s.len(),
{
    if s.len() == 0 {
        0
    } else {
        horner(s.drop_last(), base) * base + s.last()
    }
}

/// `n` with its digits in reverse order, keeping its sign.
pub open spec fn flip_value(n: int, base: int) -> int {
    let h = horner(digits_le(abs(n) as nat, base as nat), base);
    if n < 0 {
        -h
    } else {
        h
    }
}

/// The remainders met while dividing `n` by `base` until it is zero.
pub open spec fn rem_digits(n: int, base: int) -> Seq<int>
    decreases abs(n),
{
    if base < 2 || n == 0 {
        seq![]
    } else {
        proof {
            lemma_tdiv_shrinks(n, base);
        }
        seq![trem(n, base)] + rem_digits(tdiv(n, base), base)
    }
}

/// The digits that the replacement scans: at least one, even for zero.
pub open spec fn scanned_digits(n: int, base: int) -> Seq<int> {
    if n == 0 {
        seq![0]
    } else {
        rem_digits(n, base)
    }
}

/// Bytes read as integers.
pub open spec fn as_ints(s: Seq<u8>) -> Seq<int> {
    Seq::new(s.len(), |i: int| s[i] as int)
}

/// The digits emitted so far, and the window of the latest digits.
pub type ReplaceState = (Seq<int>, Seq<int>);

/// One digit enters the window; the window's oldest digit is emitted when
/// the window grows past the pattern's length; a window equal to the
/// (non-empty) pattern becomes the replacement.
pub open spec fn replace_step(a: Seq<int>, b: Seq<int>, st: ReplaceState, x: int) -> ReplaceState {
    let c1 = st.1.push(x);
    let out = if c1.len() > a.len() { st.0.push(c1[0]) } else { st.0 };
    let c2 = if c1.len() > a.len() { c1.drop_first() } else { c1 };
    if a.len() > 0 && c2 == a {
        (out, b)
    } else {
        (out, c2)
    }
}

/// The state after scanning the digits `s` in order.
pub open spec fn replace_scan(a: Seq<int>, b: Seq<int>, s: Seq<int>) -> ReplaceState
    decreases s.len(),
{
    if s.len() == 0 {
        (seq![], seq![])
    } else {
        replace_step(a, b, replace_scan(a, b, s.drop_last()), s.last())
    }
}

/// What replacing the digit string `a` by `b` makes of `n`: the digits of
/// `n` are scanned from the most significant one, through its flip, and
/// every window equal to `a` becomes `b`.
pub open spec fn replace_value(base: int, a: Seq<u8>, b: Seq<u8>, n: int) -> int {
    let st = replace_scan(as_ints(a), as_ints(b), scanned_digits(flip_value(n, base), base));
    horner(st.0 + st.1, base)
}

pub proof fn lemma_tdiv_shrinks(n: int, base: int)
    requires
        base >= 2,
        n != 0,
    ensures
        0 <= abs(tdiv(n, base)) < abs(n),
        abs(tdiv(n, base)) == abs(n) / base,
{
    vstd::arithmetic::div_mod::lemma_div_decreases(abs(n), base);
    vstd::arithmetic::div_mod::lemma_div_pos_is_pos(abs(n), base);
}

proof fn lemma_tdiv_trem(n: int, base: int)
    requires
        base >= 2,
    ensures
        tdiv(n, base) == (if n < 0 { -(abs(n) / base) } else { abs(n) / base }),
        trem(n, base) == (if n < 0 { -(abs(n) % base) } else { abs(n) % base }),
{
}

proof fn lemma_horner_cons(x: int, s: Seq<int>, b: int)
    ensures
        horner(seq![x] + s, b) == x * ipow(b, s.len()) + horner(s, b),
    decreases s.len(),
{
    if s.len() == 0 {
        assert((seq![x] + s).drop_last() =~= seq![]);
        assert(horner(seq![], b) == 0);
    } else {
        let t = seq![x] + s;
        assert(t.drop_last() =~= seq![x] + s.drop_last());
        lemma_horner_cons(x, s.drop_last(), b);
        let p = ipow(b, (s.len() - 1) as nat);
        let h = horner(s.drop_last(), b);
        assert((x * p + h) * b + s.last() == x * (b * p) + (h * b + s.last())) by (nonlinear_arith);
    }
}

proof fn lemma_ipow_pos(b: int, e: nat)
    requires
        b >= 1,
    ensures
        ipow(b, e) >= 1,
    decreases e,
{
    if e > 0 {
        lemma_ipow_pos(b, (e - 1) as nat);
        let p = ipow(b, (e - 1) as nat);
        assert(b * p >= 1) by (nonlinear_arith)
            requires
                b >= 1,
                p >= 1,
        ;
    }
}

/// Concatenates the digits of a constant with those of a number.
pub struct ConcatDigits {
    base: u8,
    digits: BigInt,
    after: bool,
}

impl View for ConcatDigits {
    type V = (u8, int, bool);

    closed spec fn view(&self) -> (u8, int, bool) {
        (self.base, value(self.digits), self.after)
    }
}

impl ConcatDigits {
    #[verifier::type_invariant]
    spec fn base_ok(self) -> bool {
        self.base >= 2
    }

    /// Digit concatenation in base `base`, with `digits` after the number
    /// when `after`.
    pub(crate) fn new(base: u8, digits: BigInt, after: bool) -> (r: ConcatDigits)
        requires
            base >= 2,
        ensures
            r@ == (base, value(digits), after),
    {
        ConcatDigits { base, digits, after }
    }

    /// The digits of the constant and of `num`, in the configured order.
    /// The leading part (`num` when the constant goes after it, else the
    /// constant) must not be zero.
    pub fn concat(&self, num: BigInt) -> (r: BigInt)
        requires
            (if self@.2 { value(num) } else { self@.1 }) != 0,
        ensures
            concat_output(self@.0, self@.1, self@.2, value(num)) == Ok::<int, NumError>(value(r)),
    {
        proof {
            use_type_invariant(self);
        }
        let (mut a, b) = if self.after {
            (num, big_clone(&self.digits))
        } else {
            (big_clone(&self.digits), num)
        };
        let ghost a0 = value(a);
        let ghost bv = value(b);
        let base = big_from_u64(self.base as u64);
        let ghost bs = self.base as int;
        a = big_mul(&a, &base);
        let mut pow = big_clone(&b);
        let ghost w0 = extra_width(bv, bs);
        assert(ipow(bs, 1 + w0) == bs * ipow(bs, w0));
        assert((a0 * bs) * ipow(bs, w0) == a0 * (bs * ipow(bs, w0))) by (nonlinear_arith);
        while big_ge(&pow, &base)
            invariant
                value(base) == bs,
                bs >= 2,
                value(a) * ipow(bs, extra_width(value(pow), bs)) == a0 * ipow(bs, 1 + extra_width(bv, bs)),
            decreases value(pow),
        {
            let ghost p0 = value(pow);
            let ghost w = extra_width(p0 / bs, bs);
            let ghost av = value(a);
            assert(extra_width(p0, bs) == 1 + w);
            assert(ipow(bs, 1 + w) == bs * ipow(bs, w));
            assert(av * (bs * ipow(bs, w)) == (av * bs) * ipow(bs, w)) by (nonlinear_arith);
            a = big_mul(&a, &base);
            let (q, _r) = big_div_rem(&pow, &base);
            proof {
                lemma_tdiv_trem(p0, bs);
                vstd::arithmetic::div_mod::lemma_div_decreases(p0, bs);
            }
            pow = q;
        }
        assert(extra_width(value(pow), bs) == 0);
        big_add(&a, &b)
    }

    /// `concat` for any number, as an operation in a chain meets it: a zero
    /// leading part gives `ZeroDigits`, which stands in for a panic.
    pub(crate) fn concat_checked(&self, num: BigInt) -> (r: Result<BigInt, NumError>)
        ensures
            int_result(r) == concat_output(self@.0, self@.1, self@.2, value(num)),
    {
        let lead_zero = if self.after {
            big_is_zero(&num)
        } else {
            big_is_zero(&self.digits)
        };
        if lead_zero {
            return Err(NumError::ZeroDigits);
        }
        Ok(self.concat(num))
    }
}

/// Reverses the digits of a number.
pub struct FlipDigits {
    base: u8,
}

impl View for FlipDigits {
    type V = u8;

    closed spec fn view(&self) -> u8 {
        self.base
    }
}

/// `n` with its digits reversed, sign kept.
fn flip_in_base(base_u8: u8, n: BigInt) -> (r: BigInt)
    requires
        base_u8 >= 2,
    ensures
        value(r) == flip_value(value(n), base_u8 as int),
{
    let ghost b = base_u8 as int;
    let ghost n0 = value(n);
    let ghost s: int = if n0 < 0 { -1 } else { 1 };
    let base = big_from_u64(base_u8 as u64);
    let mut ret = big_from_u64(0);
    let mut num = n;
    proof {
        lemma_ipow_pos(b, digits_le(abs(n0) as nat, b as nat).len());
    }
    while !big_is_zero(&num)
        invariant
            value(base) == b,
            b >= 2,
            s == 1 || s == -1,
            value(num) == s * abs(value(num)),
            flip_value(n0, b) == value(ret) * ipow(b, digits_le(abs(value(num)) as nat, b as nat).len())
                + s * horner(digits_le(abs(value(num)) as nat, b as nat), b),
        decreases abs(value(num)),
    {
        let ghost m = abs(value(num));
        let ghost r0 = value(ret);
        let ghost rest = digits_le((m / b) as nat, b as nat);
        let ghost p = ipow(b, rest.len());
        assert(digits_le(m as nat, b as nat) == seq![m % b] + rest);
        proof {
            lemma_horner_cons(m % b, rest, b);
            lemma_tdiv_trem(value(num), b);
            lemma_tdiv_shrinks(value(num), b);
        }
        let ghost nv = value(num);
        proof {
            if s == 1 {
                assert(nv == m);
            } else {
                assert(nv == -m) by (nonlinear_arith)
                    requires
                        s == -1,
                        nv == s * m,
                ;
            }
        }
        ret = big_mul(&ret, &base);
        let (div, rem) = big_div_rem(&num, &base);
        num = div;
        ret = big_add(&ret, &rem);
        assert(value(rem) == s * (m % b));
        assert(value(num) == s * (m / b));
        proof {
            vstd::arithmetic::div_mod::lemma_div_pos_is_pos(m, b);
        }
        assert(r0 * (b * p) + s * ((m % b) * p + horner(rest, b)) == (r0 * b + s * (m % b)) * p + s
            * horner(rest, b)) by (nonlinear_arith);
    }
    assert(digits_le(abs(value(num)) as nat, b as nat).len() == 0);
    ret
}

impl FlipDigits {
    #[verifier::type_invariant]
    spec fn base_ok(self) -> bool {
        self.base >= 2
    }

    /// Digit reversal in base `base`.
    pub(crate) fn new(base: u8) -> (r: FlipDigits)
        requires
            base >= 2,
        ensures
            r@ == base,
    {
        FlipDigits { base }
    }

    /// `num` with its digits reversed; trailing zeros of `num` are lost.
    pub fn flip(&self, num: BigInt) -> (r: BigInt)
        ensures
            value(r) == flip_value(value(num), self@ as int),
    {
        proof {
            use_type_invariant(self);
        }
        flip_in_base(self.base, num)
    }
}

/// Replaces a string of digits by another.
pub struct ReplaceDigits {
    base: u8,
    a: Vec<u8>,
    b: Vec<u8>,
}

impl View for ReplaceDigits {
    type V = (u8, Seq<u8>, Seq<u8>);

    closed spec fn view(&self) -> (u8, Seq<u8>, Seq<u8>) {
        (self.base, self.a@, self.b@)
    }
}

/// Integers by their values.
pub open spec fn vals(s: Seq<BigInt>) -> Seq<int> {
    Seq::new(s.len(), |i: int| value(s[i]))
}

fn bytes_to_bigs(s: &Vec<u8>) -> (r: Vec<BigInt>)
    ensures
        vals(r@) == as_ints(s@),
{
    let mut r: Vec<BigInt> = Vec::new();
    let mut i: usize = 0;
    while i < s.len()
        invariant
            i <= s.len(),
            r@.len() == i,
            vals(r@) == as_ints(s@).take(i as int),
        decreases s.len() - i,
    {
        let ghost r0 = r@;
        r.push(big_from_u64(s[i] as u64));
        assert(forall|j: int| 0 <= j < i ==> r@[j] == r0[j]);
        assert(forall|j: int| 0 <= j < i ==> vals(r0)[j] == as_ints(s@).take(i as int)[j]);
        i = i + 1;
        assert(vals(r@) =~= as_ints(s@).take(i as int));
    }
    assert(as_ints(s@).take(s.len() as int) =~= as_ints(s@));
    r
}

fn bigs_to_deque(s: &Vec<BigInt>) -> (r: VecDeque<BigInt>)
    ensures
        vals(r@) == vals(s@),
{
    let mut r: VecDeque<BigInt> = VecDeque::new();
    let mut i: usize = 0;
    while i < s.len()
        invariant
            i <= s.len(),
            r@.len() == i,
            vals(r@) == vals(s@).take(i as int),
        decreases s.len() - i,
    {
        let ghost r0 = r@;
        r.push_back(big_clone(&s[i]));
        assert(forall|j: int| 0 <= j < i ==> r@[j] == r0[j]);
        assert(forall|j: int| 0 <= j < i ==> vals(r0)[j] == vals(s@).take(i as int)[j]);
        i = i + 1;
        assert(vals(r@) =~= vals(s@).take(i as int));
    }
    assert(vals(s@).take(s.len() as int) =~= vals(s@));
    r
}

fn window_equals(a: &Vec<BigInt>, c: &VecDeque<BigInt>) -> (r: bool)
    ensures
        r == (vals(a@) == vals(c@)),
{
    if a.len() != c.len() {
        assert(vals(a@).len() != vals(c@).len());
        return false;
    }
    let mut i: usize = 0;
    while i < a.len()
        invariant
            i <= a.len(),
            a.len() == c@.len(),
            forall|k: int| 0 <= k < i ==> value(a@[k]) == value(#[trigger] c@[k]),
        decreases a.len() - i,
    {
        if !big_eq(&a[i], &c[i]) {
            assert(vals(a@)[i as int] != vals(c@)[i as int]);
            return false;
        }
        i = i + 1;
    }
    assert(vals(a@) =~= vals(c@));
    true
}

impl ReplaceDigits {
    #[verifier::type_invariant]
    spec fn base_ok(self) -> bool {
        self.base >= 2
    }

    /// Replacement of the digit string `a` by `b` in base `base`.
    pub(crate) fn new(base: u8, a: Vec<u8>, b: Vec<u8>) -> (r: ReplaceDigits)
        requires
            base >= 2,
        ensures
            r@ == (base, a@, b@),
    {
        ReplaceDigits { base, a, b }
    }

    /// `num` with every occurrence of the digit string `a` replaced by `b`,
    /// scanning from the most significant digit.
    pub fn replace(&self, num: BigInt) -> (r: BigInt)
        ensures
            value(r) == replace_value(self@.0 as int, self@.1, self@.2, value(num)),
    {
        proof {
            use_type_invariant(self);
        }
        let ghost bs = self.base as int;
        let ghost av = as_ints(self.a@);
        let ghost bvs = as_ints(self.b@);
        let base = big_from_u64(self.base as u64);
        let mut ret = big_from_u64(0);
        let a_deq = bytes_to_bigs(&self.a);
        let b_vec = bytes_to_bigs(&self.b);
        let mut c: VecDeque<BigInt> = VecDeque::new();
        let mut num = flip_in_base(self.base, num);
        let ghost digits = scanned_digits(value(num), bs);
        let ghost mut k: int = 0;
        let mut first = true;
        assert(vals(c@) =~= seq![]);
        while first || !big_is_zero(&num)
            invariant
                value(base) == bs,
                bs >= 2,
                vals(a_deq@) == av,
                vals(b_vec@) == bvs,
                0 <= k <= digits.len(),
                first ==> k == 0,
                digits.skip(k) == (if first && value(num) == 0 {
                    seq![0]
                } else {
                    rem_digits(value(num), bs)
                }),
                value(ret) == horner(replace_scan(av, bvs, digits.take(k)).0, bs),
                vals(c@) == replace_scan(av, bvs, digits.take(k)).1,
            decreases abs(value(num)) + (if first { 1int } else { 0int }),
        {
            let ghost st0 = replace_scan(av, bvs, digits.take(k));
            let ghost rest = digits.skip(k);
            proof {
                if value(num) != 0 {
                    lemma_tdiv_shrinks(value(num), bs);
                    assert(rem_digits(value(num), bs) == seq![trem(value(num), bs)] + rem_digits(
                        tdiv(value(num), bs),
                        bs,
                    ));
                }
                assert(rest.len() > 0);
                assert(k < digits.len());
                assert(rest[0] == digits[k]);
            }
            let ghost x = digits[k];
            proof {
                assert(x == trem(value(num), bs));
                assert(digits.take(k + 1).drop_last() == digits.take(k));
                assert(digits.take(k + 1).last() == x);
                assert(digits.skip(k + 1) == digits.skip(k).drop_first());
            }
            first = false;
            let (div, rem) = big_div_rem(&num, &base);
            c.push_back(rem);
            let ghost c1 = st0.1.push(x);
            assert(vals(c@) =~= c1);
            if c.len() > a_deq.len() {
                let digit = c.pop_front().unwrap();
                ret = big_mul(&ret, &base);
                ret = big_add(&ret, &digit);
                assert(vals(c@) =~= c1.drop_first());
                assert(st0.0.push(c1[0]).drop_last() == st0.0);
            }
            if a_deq.len() > 0 && window_equals(&a_deq, &c) {
                c = bigs_to_deque(&b_vec);
            }
            num = div;
            proof {
                k = k + 1;
            }
        }
        assert(digits.skip(k).len() == 0);
        assert(digits.take(k) == digits);
        let ghost out = replace_scan(av, bvs, digits).0;
        let ghost win = vals(c@);
        let n = c.len();
        let mut j: usize = 0;
        while j < n
            invariant
                j <= n,
                n == c@.len(),
                vals(c@) == win,
                value(base) == bs,
                value(ret) == horner(out + win.take(j as int), bs),
            decreases n - j,
        {
            assert((out + win.take(j + 1)).drop_last() == out + win.take(j as int));
            assert((out + win.take(j + 1)).last() == win[j as int]);
            ret = big_mul(&ret, &base);
            ret = big_add(&ret, &c[j]);
            j = j + 1;
        }
        assert(win.take(n as int) == win);
        ret
    }
}

proof fn lemma_concat_step(a: int, b: int)
    requires
        a >= 1,
        b >= 10,
    ensures
        extra_width(b, 10) == 1 + extra_width(b / 10, 10),
        concat_value(a, b, 10) / 10 == concat_value(a, b / 10, 10),
        concat_value(a, b, 10) % 10 == b % 10,
        concat_value(a, b, 10) >= 10,
{
    let k = extra_width(b / 10, 10);
    lemma_ipow_pos(10, 1 + k);
    let p = ipow(10, 1 + k);
    assert(ipow(10, 2 + k) == 10 * p);
    let v = a * (10 * p) + b;
    assert(concat_value(a, b, 10) == v);
    assert(v == 10 * (a * p + b / 10) + b % 10) by (nonlinear_arith)
        requires
            v == a * (10 * p) + b,
            b == 10 * (b / 10) + b % 10,
    ;
    vstd::arithmetic::div_mod::lemma_fundamental_div_mod_converse(v, 10, a * p + b / 10, b % 10);
    assert(a * p >= 1) by (nonlinear_arith)
        requires
            a >= 1,
            p >= 1,
    ;
}

/// Putting digits in front of a number, or after it, writes the two
/// decimal notations one after the other: for `x >= 1` and `y >= 0`, the
/// decimal digits of the number that `prepend_digits(x)` makes of `y`, and
/// of the one that `append_digits(y)` makes of `x`, are those of `x`
/// followed by those of `y`.
pub proof fn lemma_concat_decimal(x: nat, y: nat)
    requires
        x >= 1,
    ensures
        concat_output(10, x as int, false, y as int) == Ok::<int, NumError>(concat_value(x as int, y as int, 10)),
        concat_output(10, y as int, true, x as int) == Ok::<int, NumError>(concat_value(x as int, y as int, 10)),
        nat_decimal(concat_value(x as int, y as int, 10) as nat) == nat_decimal(x) + nat_decimal(y),
    decreases y,
{
    let v = concat_value(x as int, y as int, 10);
    if y < 10 {
        assert(extra_width(y as int, 10) == 0);
        assert(ipow(10, 0) == 1);
        assert(ipow(10, 1) == 10 * ipow(10, 0));
        assert(v == x * 10 + y);
        vstd::arithmetic::div_mod::lemma_fundamental_div_mod_converse(v, 10, x as int, y as int);
        assert(nat_decimal(v as nat) == nat_decimal((v / 10) as nat).push(crate::bigint::digit_char(v % 10)));
        assert(nat_decimal(y) =~= seq![crate::bigint::digit_char(y as int)]);
        assert(nat_decimal(v as nat) =~= nat_decimal(x) + nat_decimal(y));
    } else {
        lemma_concat_step(x as int, y as int);
        lemma_concat_decimal(x, (y / 10) as nat);
        let w = concat_value(x as int, (y / 10) as int, 10);
        assert(nat_decimal(v as nat) == nat_decimal(w as nat).push(crate::bigint::digit_char(y as int % 10)));
        assert(nat_decimal(y) == nat_decimal(y / 10).push(crate::bigint::digit_char((y % 10) as int)));
        assert(nat_decimal(v as nat) =~= nat_decimal(x) + nat_decimal(y));
    }
}

} // verus!
