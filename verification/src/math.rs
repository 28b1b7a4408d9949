//! The Fibonacci numbers and their decimal digits.
use vstd::prelude::*;
use num::BigInt;
use crate::bigint::{
    all_digits, big_add, big_clone, big_div_rem, big_from_u64, big_is_zero, big_to_string, big_to_u8,
    digit_char, is_digit, lemma_nat_decimal_digits, nat_decimal, tdiv, trem, value,
};
use crate::text::chars_of;

verus! {

/// The Fibonacci numbers, with `fib(-1) == 1` so that the recurrence holds
/// from `fib(1)` on.
pub open spec fn fib(n: int) -> int
    decreases n + 1,
{
    if n < 0 {
        1
    } else if n == 0 {
        0
    } else {
        fib(n - 1) + fib(n - 2)
    }
}

/// The Fibonacci numbers 0, 1, 1, 2, 3, 5, ..., one per call of `next`.
pub struct Fibonacci(BigInt, BigInt, bool);

impl View for Fibonacci {
    type V = (int, int, bool);

    closed spec fn view(&self) -> (int, int, bool) {
        (value(self.0), value(self.1), self.2)
    }
}

/// The state after one call of `next`, and the number it yields.
pub open spec fn fib_next(st: (int, int, bool)) -> ((int, int, bool), int) {
    if st.2 {
        ((st.0, st.1, false), st.1)
    } else {
        ((st.1, st.0 + st.1, false), st.0 + st.1)
    }
}

/// The state before any call.
pub open spec fn fib_start() -> (int, int, bool) {
    (1, 0, true)
}

/// The state after `n` calls of `next`.
pub open spec fn fib_state(n: nat) -> (int, int, bool)
    decreases n,
{
    if n == 0 {
        fib_start()
    } else {
        fib_next(fib_state((n - 1) as nat)).0
    }
}

impl Fibonacci {
    /// The sequence from its start.
    pub fn new() -> (r: Fibonacci)
        ensures
            r@ == fib_start(),
    {
        Fibonacci(big_from_u64(1), big_from_u64(0), true)
    }

    /// The next Fibonacci number; the sequence never ends.
    pub fn next(&mut self) -> (r: Option<BigInt>)
        ensures
            final(self)@ == fib_next(old(self)@).0,
            r matches Some(v) && value(v) == fib_next(old(self)@).1,
    {
        if self.2 {
            self.2 = false;
            return Some(big_clone(&self.1));
        }
        let sum = big_add(&self.0, &self.1);
        let b = big_clone(&self.1);
        self.0 = b;
        self.1 = sum;
        Some(big_clone(&self.1))
    }
}

impl Default for Fibonacci {
    /// The sequence from its start.
    fn default() -> (r: Fibonacci)
        ensures
            r@ == fib_start(),
    {
        Fibonacci::new()
    }
}

/// The `n`-th call of `next` (from zero) yields the Fibonacci number `n`.
pub proof fn lemma_fibonacci_sequence(n: nat)
    ensures
        fib_next(fib_state(n)).1 == fib(n as int),
        n > 0 ==> fib_state(n) == (fib(n - 2), fib(n - 1), false),
    decreases n,
{
    if n > 0 {
        lemma_fibonacci_sequence((n - 1) as nat);
    }
}

/// The decimal digits of the Fibonacci numbers, one character per call.
pub struct FibonacciDigits(Fibonacci, Vec<char>);

impl View for FibonacciDigits {
    type V = ((int, int, bool), Seq<char>);

    closed spec fn view(&self) -> ((int, int, bool), Seq<char>) {
        (self.0@, self.1@)
    }
}

/// The state after one call of `next`, and the character it yields: a
/// pending digit, or else the first digit of the next Fibonacci number.
pub open spec fn digits_next(st: ((int, int, bool), Seq<char>)) -> (((int, int, bool), Seq<char>), char) {
    if st.1.len() > 0 {
        ((st.0, st.1.drop_last()), st.1.last())
    } else {
        let (f, v) = fib_next(st.0);
        let d = nat_decimal(v as nat);
        ((f, d.drop_first().reverse()), d[0])
    }
}

proof fn lemma_nat_decimal_nonempty(n: nat)
    ensures
        nat_decimal(n).len() >= 1,
    decreases n,
{
    if n >= 10 {
        lemma_nat_decimal_nonempty(n / 10);
    }
}

/// The pending digits of `n`: least significant last in yield order, so
/// stored most significant last.
fn push_digits(pending: &mut Vec<char>, val: BigInt)
    requires
        value(val) > 0,
        old(pending)@.len() == 0,
    ensures
        final(pending)@ == nat_decimal(value(val) as nat).reverse(),
{
    let ten = big_from_u64(10);
    let mut val = val;
    let ghost n0 = value(val) as nat;
    assert(nat_decimal(n0).reverse() =~= pending@ + nat_decimal(value(val) as nat).reverse());
    while !big_is_zero(&val)
        invariant
            value(ten) == 10,
            value(val) >= 0,
            nat_decimal(n0).reverse() == (pending@ + if value(val) == 0 {
                seq![]
            } else {
                nat_decimal(value(val) as nat).reverse()
            }),
        decreases value(val),
    {
        let ghost m = value(val) as nat;
        let (div, rem) = big_div_rem(&val, &ten);
        assert(value(rem) == m % 10);
        assert(value(div) == m / 10);
        let s = big_to_string(&rem);
        let cs = chars_of(s.as_str());
        assert(cs@ == seq![digit_char((m % 10) as int)]);
        pending.push(cs[0]);
        proof {
            if m >= 10 {
                assert(nat_decimal(m) == nat_decimal(m / 10).push(digit_char((m % 10) as int)));
                assert(nat_decimal(m).reverse() =~= seq![digit_char((m % 10) as int)] + nat_decimal(
                    m / 10,
                ).reverse());
            } else {
                assert(nat_decimal(m).reverse() =~= seq![digit_char((m % 10) as int)]);
            }
        }
        val = div;
        proof {
            assert(nat_decimal(n0).reverse() =~= pending@ + if value(val) == 0 {
                seq![]
            } else {
                nat_decimal(value(val) as nat).reverse()
            });
        }
    }
}

impl Default for FibonacciDigits {
    /// The digits from the start of the sequence.
    fn default() -> (r: FibonacciDigits)
        ensures
            r@ == (fib_start(), Seq::<char>::empty()),
    {
        FibonacciDigits::new()
    }
}

impl FibonacciDigits {
    /// The digit stream from its start.
    pub fn new() -> (r: FibonacciDigits)
        ensures
            r@ == (fib_start(), Seq::<char>::empty()),
    {
        FibonacciDigits(Fibonacci::new(), Vec::new())
    }

    /// The next digit; the stream never ends.
    pub fn next(&mut self) -> (r: Option<char>)
        requires
            old(self)@.0.0 >= 0,
            old(self)@.0.1 >= 0,
        ensures
            final(self)@ == digits_next(old(self)@).0,
            r == Some(digits_next(old(self)@).1),
            final(self)@.0.0 >= 0,
            final(self)@.0.1 >= 0,
    {
        if self.1.len() > 0 {
            let c = self.1.pop().unwrap();
            return Some(c);
        }
        let v = self.0.next().unwrap();
        if big_is_zero(&v) {
            assert(nat_decimal(0) =~= seq!['0']);
            return Some('0');
        }
        let ghost d = nat_decimal(value(v) as nat);
        proof {
            lemma_nat_decimal_nonempty(value(v) as nat);
        }
        push_digits(&mut self.1, v);
        let c = self.1.pop().unwrap();
        assert(d.reverse().drop_last() =~= d.drop_first().reverse());
        Some(c)
    }
}

/// The state of the Fibonacci digit stream after `n` characters.
pub open spec fn digit_stream_state(n: nat) -> ((int, int, bool), Seq<char>)
    decreases n,
{
    if n == 0 {
        (fib_start(), seq![])
    } else {
        digits_next(digit_stream_state((n - 1) as nat)).0
    }
}

/// The first `n` characters of the Fibonacci digit stream.
pub open spec fn digit_stream(n: nat) -> Seq<char>
    decreases n,
{
    if n == 0 {
        seq![]
    } else {
        digit_stream((n - 1) as nat).push(digits_next(digit_stream_state((n - 1) as nat)).1)
    }
}

/// The character that the stream yields at position `m` (from zero).
pub open spec fn stream_char(m: nat) -> char {
    digits_next(digit_stream_state(m)).1
}

/// The stream yields only decimal digits, one per call.
pub proof fn lemma_digit_stream(n: nat)
    ensures
        digit_stream(n).len() == n,
        all_digits(digit_stream(n)),
        all_digits(digit_stream_state(n).1),
        is_digit(stream_char(n)),
    decreases n,
{
    if n > 0 {
        let p = digit_stream_state((n - 1) as nat);
        lemma_digit_stream((n - 1) as nat);
        lemma_digits_next(p);
    }
    lemma_digits_next(digit_stream_state(n));
}

proof fn lemma_digits_next(st: ((int, int, bool), Seq<char>))
    requires
        all_digits(st.1),
    ensures
        all_digits(digits_next(st).0.1),
        is_digit(digits_next(st).1),
{
    if st.1.len() == 0 {
        let v = fib_next(st.0).1;
        let d = nat_decimal(v as nat);
        lemma_nat_decimal_digits(v as nat);
        assert(is_digit(d[0]));
        let t = d.drop_first().reverse();
        assert forall|i: int| 0 <= i < t.len() implies is_digit(#[trigger] t[i]) by {
            assert(t[i] == d[d.len() - 1 - i]);
        }
    } else {
        assert(is_digit(st.1[st.1.len() - 1]));
    }
}

/// The decimal digits of the first `n` Fibonacci numbers, one number
/// after another.
pub open spec fn fib_digits(n: nat) -> Seq<char>
    decreases n,
{
    if n == 0 {
        seq![]
    } else {
        fib_digits((n - 1) as nat) + nat_decimal(fib(n - 1) as nat)
    }
}

proof fn lemma_fib_nonneg(n: int)
    requires
        n >= -1,
    ensures
        fib(n) >= 0,
    decreases n + 1,
{
    if n >= 1 {
        lemma_fib_nonneg(n - 1);
        lemma_fib_nonneg(n - 2);
    }
}

proof fn lemma_stream_segment(m: nat, f: (int, int, bool), rest: Seq<char>, j: nat)
    requires
        digit_stream_state(m) == (f, rest.reverse()),
        j <= rest.len(),
    ensures
        digit_stream_state(m + j) == (f, rest.skip(j as int).reverse()),
        digit_stream(m + j) == digit_stream(m) + rest.take(j as int),
    decreases j,
{
    if j == 0 {
        assert(rest.skip(0) == rest);
        assert(rest.take(0) =~= Seq::<char>::empty());
        assert(digit_stream(m) + rest.take(0) =~= digit_stream(m));
    } else {
        lemma_stream_segment(m, f, rest, (j - 1) as nat);
        let p = rest.skip(j - 1).reverse();
        assert(p.len() > 0);
        assert(p.last() == rest[j - 1]);
        assert(p.drop_last() =~= rest.skip(j as int).reverse());
        assert(digit_stream(m + j) == digit_stream((m + j - 1) as nat).push(rest[j - 1]));
        assert(digit_stream(m) + rest.take(j as int) =~= (digit_stream(m) + rest.take(j - 1)).push(rest[j - 1]));
    }
}

/// The digit stream yields the decimal digits of the Fibonacci numbers 0,
/// 1, 1, 2, 3, 5, ... one number after another: once the digits of the
/// first `n` numbers are out, they are exactly those digits, and nothing is
/// pending.
pub proof fn lemma_fibonacci_digits(n: nat)
    ensures
        digit_stream(fib_digits(n).len()) == fib_digits(n),
        digit_stream_state(fib_digits(n).len()) == (fib_state(n), Seq::<char>::empty()),
    decreases n,
{
    if n > 0 {
        let k = (n - 1) as nat;
        lemma_fibonacci_digits(k);
        let m = fib_digits(k).len();
        lemma_fibonacci_sequence(k);
        lemma_fib_nonneg(k as int);
        let v = fib(k as int);
        let d = nat_decimal(v as nat);
        lemma_nat_decimal_digits(v as nat);
        let rest = d.drop_first();
        assert(digit_stream_state(m + 1) == (fib_state(n), rest.reverse()));
        assert(digit_stream(m + 1) == fib_digits(k).push(d[0]));
        lemma_stream_segment(m + 1, fib_state(n), rest, rest.len());
        assert(rest.skip(rest.len() as int).reverse() =~= Seq::<char>::empty());
        assert(rest.take(rest.len() as int) == rest);
        assert(fib_digits(k).push(d[0]) + rest =~= fib_digits(n));
        assert(m + 1 + rest.len() == fib_digits(n).len());
    }
}

/// The decimal digits of `n` as numbers, most significant first.
pub open spec fn decimal_digits(n: nat) -> Seq<u8>
    decreases n,
{
    if n < 10 {
        seq![n as u8]
    } else {
        decimal_digits(n / 10).push((n % 10) as u8)
    }
}

/// The decimal digits of a non-negative number, most significant first
/// (`0` has the single digit 0).
pub fn digits(val: BigInt) -> (r: Vec<u8>)
    requires
        value(val) >= 0,
    ensures
        r@ == decimal_digits(value(val) as nat),
{
    if big_is_zero(&val) {
        return vec![0];
    }
    let ten = big_from_u64(10);
    let ghost n0 = value(val) as nat;
    let mut val = val;
    let mut ret: Vec<u8> = Vec::new();
    while !big_is_zero(&val)
        invariant
            value(ten) == 10,
            value(val) >= 0,
            value(val) == 0 ==> ret@.reverse() == decimal_digits(n0),
            value(val) > 0 ==> decimal_digits(n0) == decimal_digits(value(val) as nat) + ret@.reverse(),
        decreases value(val),
    {
        let ghost m = value(val) as nat;
        let (div, rem) = big_div_rem(&val, &ten);
        assert(value(rem) == m % 10);
        assert(value(div) == m / 10);
        let d = big_to_u8(&rem);
        let ghost r0 = ret@;
        ret.push(d);
        proof {
            assert(ret@.reverse() =~= seq![d] + r0.reverse());
            if m >= 10 {
                assert(decimal_digits(m) == decimal_digits(m / 10).push(d));
                assert(decimal_digits(n0) =~= decimal_digits(m / 10) + ret@.reverse());
            } else {
                assert(decimal_digits(m) == seq![d]);
                assert(decimal_digits(n0) =~= ret@.reverse());
            }
        }
        val = div;
    }
    let mut out: Vec<u8> = Vec::new();
    let n = ret.len();
    let mut i: usize = 0;
    while i < n
        invariant
            i <= n,
            n == ret@.len(),
            out@ == ret@.reverse().take(i as int),
        decreases n - i,
    {
        out.push(ret[n - 1 - i]);
        i = i + 1;
        assert(out@ =~= ret@.reverse().take(i as int));
    }
    assert(ret@.reverse().take(n as int) =~= ret@.reverse());
    out
}

} // verus!
