//! What the decimal digit operations do to the decimal text of a number.
use vstd::prelude::*;
use crate::bigint::{dec_value, digit_char, nat_decimal};
use crate::numbers::digits::{digits_le, flip_value, horner, rem_digits, replace_scan, replace_value, scanned_digits};

verus! {

/// The value of a decimal digit character.
pub open spec fn char_value(c: char) -> int {
    c as u32 - 48
}

/// The values of decimal digit characters, in order.
pub open spec fn char_values(s: Seq<char>) -> Seq<int> {
    s.map_values(|c: char| char_value(c))
}

/// The text with every character `x` written as `y`.
pub open spec fn replace_char(s: Seq<char>, x: char, y: char) -> Seq<char> {
    s.map_values(|c: char| if c == x { y } else { c })
}

proof fn lemma_digit_char(d: int)
    requires
        0 <= d < 10,
    ensures
        char_value(digit_char(d)) == d,
{
}

proof fn lemma_dec_value_horner(s: Seq<char>)
    ensures
        dec_value(s) == horner(char_values(s), 10),
    decreases s.len(),
{
    if s.len() > 0 {
        lemma_dec_value_horner(s.drop_last());
        assert(char_values(s).drop_last() =~= char_values(s.drop_last()));
    }
}

proof fn lemma_decimal_digits(m: nat)
    requires
        m > 0,
    ensures
        char_values(nat_decimal(m)) == digits_le(m, 10).reverse(),
    decreases m,
{
    if m < 10 {
        lemma_digit_char(m as int);
        assert(digits_le(m / 10, 10) =~= seq![]);
        assert(char_values(nat_decimal(m)) =~= digits_le(m, 10).reverse());
    } else {
        lemma_decimal_digits(m / 10);
        lemma_digit_char((m % 10) as int);
        let d = digits_le(m / 10, 10);
        assert(digits_le(m, 10) == seq![(m % 10) as int] + d);
        assert((seq![(m % 10) as int] + d).reverse() =~= d.reverse().push((m % 10) as int));
        assert(char_values(nat_decimal(m)) =~= char_values(nat_decimal(m / 10)).push((m % 10) as int));
    }
}

proof fn lemma_digits_le_range(m: nat, b: nat)
    requires
        b >= 2,
    ensures
        forall|i: int| 0 <= i < digits_le(m, b).len() ==> 0 <= #[trigger] digits_le(m, b)[i] < b,
        m > 0 ==> digits_le(m, b).len() > 0 && digits_le(m, b)[0] == m % b,
    decreases m,
{
    if m > 0 {
        vstd::arithmetic::div_mod::lemma_div_decreases(m as int, b as int);
        lemma_digits_le_range(m / b, b);
        let d = digits_le(m / b, b);
        assert forall|i: int| 0 <= i < digits_le(m, b).len() implies 0 <= #[trigger] digits_le(m, b)[i] < b by {
            if i > 0 {
                assert(digits_le(m, b)[i] == d[i - 1]);
            }
        }
    }
}

proof fn lemma_horner_reverse(m: nat, b: nat)
    requires
        b >= 2,
    ensures
        horner(digits_le(m, b).reverse(), b as int) == m,
    decreases m,
{
    if m > 0 {
        vstd::arithmetic::div_mod::lemma_div_decreases(m as int, b as int);
        lemma_horner_reverse(m / b, b);
        let d = digits_le(m / b, b);
        let r = (seq![(m % b) as int] + d).reverse();
        assert(r =~= d.reverse().push((m % b) as int));
        assert(r.drop_last() =~= d.reverse());
        assert((m / b) * b + m % b == m) by {
            vstd::arithmetic::div_mod::lemma_fundamental_div_mod(m as int, b as int);
        }
    } else {
        assert(digits_le(m, b).reverse() =~= seq![]);
    }
}

proof fn lemma_horner_nonneg(s: Seq<int>, b: int)
    requires
        b >= 2,
        forall|i: int| 0 <= i < s.len() ==> 0 <= #[trigger] s[i] < b,
    ensures
        horner(s, b) >= 0,
        s.len() > 0 && s[0] > 0 ==> horner(s, b) > 0,
    decreases s.len(),
{
    if s.len() > 0 {
        let t = s.drop_last();
        lemma_horner_nonneg(t, b);
        let h = horner(t, b);
        assert(h * b >= 0) by (nonlinear_arith)
            requires
                h >= 0,
                b >= 2,
        ;
        if t.len() > 0 && s[0] > 0 {
            assert(t[0] == s[0]);
            assert(h * b > 0) by (nonlinear_arith)
                requires
                    h > 0,
                    b >= 2,
            ;
        }
    }
}

proof fn lemma_digits_of_horner(s: Seq<int>, b: nat)
    requires
        b >= 2,
        s.len() > 0,
        s[0] > 0,
        forall|i: int| 0 <= i < s.len() ==> 0 <= #[trigger] s[i] < b,
    ensures
        digits_le(horner(s, b as int) as nat, b) == s.reverse(),
    decreases s.len(),
{
    let t = s.drop_last();
    let x = s.last();
    lemma_horner_nonneg(s, b as int);
    if t.len() == 0 {
        assert(horner(t, b as int) == 0);
        assert(horner(s, b as int) == x);
        assert(x % (b as int) == x) by {
            vstd::arithmetic::div_mod::lemma_small_mod(x as nat, b);
        }
        assert(x / (b as int) == 0) by {
            vstd::arithmetic::div_mod::lemma_basic_div(x, b as int);
        }
        assert(digits_le(0, b) =~= seq![]);
        assert(s.reverse() =~= seq![x]);
    } else {
        assert(t[0] == s[0]);
        lemma_digits_of_horner(t, b);
        lemma_horner_nonneg(t, b as int);
        let h = horner(t, b as int);
        let hh = h * b + x;
        assert(hh % (b as int) == x && hh / (b as int) == h) by {
            vstd::arithmetic::div_mod::lemma_fundamental_div_mod_converse(hh, b as int, h, x);
        }
        assert(s.reverse() =~= seq![x] + t.reverse());
    }
}

proof fn lemma_rem_digits_pos(m: nat, b: int)
    requires
        b >= 2,
    ensures
        rem_digits(m as int, b) == digits_le(m, b as nat),
    decreases m,
{
    if m > 0 {
        vstd::arithmetic::div_mod::lemma_div_decreases(m as int, b);
        lemma_rem_digits_pos(m / (b as nat), b);
    }
}

/// Reversing the decimal digits: `flip_digits()` makes of `n` the number
/// written by the decimal digits of `n` in reverse order (so the zeros that
/// `n` ends in are lost), and for `n` not ending in 0, flipping twice gives
/// `n` back.
pub proof fn lemma_flip_decimal(n: nat)
    ensures
        flip_value(n as int, 10) == dec_value(nat_decimal(n).reverse()),
        n % 10 != 0 ==> flip_value(flip_value(n as int, 10), 10) == n,
        n % 10 != 0 ==> digits_le(flip_value(n as int, 10) as nat, 10) == digits_le(n, 10).reverse(),
{
    lemma_dec_value_horner(nat_decimal(n).reverse());
    if n == 0 {
        assert(digits_le(0, 10) =~= seq![]);
        assert(nat_decimal(0).reverse() =~= seq![digit_char(0)]);
        lemma_digit_char(0);
        assert(char_values(nat_decimal(0).reverse()) =~= seq![0int]);
        assert(horner(seq![0int], 10) == horner(seq![0int].drop_last(), 10) * 10 + 0);
        assert(seq![0int].drop_last() =~= seq![]);
    } else {
        lemma_decimal_digits(n);
        let r = digits_le(n, 10);
        assert(char_values(nat_decimal(n).reverse()) =~= char_values(nat_decimal(n)).reverse());
        assert(r.reverse().reverse() =~= r);
        lemma_digits_le_range(n, 10);
        if n % 10 != 0 {
            lemma_digits_of_horner(r, 10);
            lemma_horner_nonneg(r, 10);
            lemma_horner_reverse(n, 10);
        }
    }
}

proof fn lemma_replace_scan_single(a: int, b: int, s: Seq<int>)
    ensures
        s.len() == 0 ==> replace_scan(seq![a], seq![b], s) == (Seq::<int>::empty(), Seq::<int>::empty()),
        s.len() > 0 ==> replace_scan(seq![a], seq![b], s) == (
            s.drop_last().map_values(|x: int| if x == a { b } else { x }),
            seq![if s.last() == a { b } else { s.last() }],
        ),
    decreases s.len(),
{
    if s.len() > 0 {
        let t = s.drop_last();
        lemma_replace_scan_single(a, b, t);
        if t.len() > 0 {
            assert(t.drop_last().map_values(|x: int| if x == a { b } else { x }).push(
                if t.last() == a { b } else { t.last() },
            ) =~= t.map_values(|x: int| if x == a { b } else { x }));
            assert(seq![if t.last() == a { b } else { t.last() }].push(s.last()).drop_first() =~= seq![s.last()]);
        } else {
            assert(t.map_values(|x: int| if x == a { b } else { x }) =~= seq![]);
        }
    }
}

/// Replacing a decimal digit rewrites the decimal text: for digits `a` and
/// `b` and a number `n` that is zero or does not end in 0,
/// `replace_digit(a, b)` makes of `n` the number whose decimal text is that
/// of `n` with every digit `a` written as `b`.
pub proof fn lemma_replace_decimal(a: u8, b: u8, n: nat)
    requires
        a <= 9,
        b <= 9,
        n == 0 || n % 10 != 0,
    ensures
        replace_value(10, seq![a], seq![b], n as int) == dec_value(
            replace_char(nat_decimal(n), digit_char(a as int), digit_char(b as int)),
        ),
{
    let ai = a as int;
    let bi = b as int;
    let t = replace_char(nat_decimal(n), digit_char(ai), digit_char(bi));
    lemma_dec_value_horner(t);
    lemma_digit_char(ai);
    lemma_digit_char(bi);
    assert(crate::numbers::digits::as_ints(seq![a]) =~= seq![ai]);
    assert(crate::numbers::digits::as_ints(seq![b]) =~= seq![bi]);
    let f = flip_value(n as int, 10);
    lemma_flip_decimal(n);
    let s = scanned_digits(f, 10);
    if n == 0 {
        assert(digits_le(0, 10) =~= seq![]);
        assert(f == 0);
        assert(s == seq![0int]);
    } else {
        lemma_digits_le_range(n, 10);
        lemma_horner_nonneg(digits_le(n, 10), 10);
        assert(f > 0);
        lemma_rem_digits_pos(f as nat, 10);
        lemma_decimal_digits(n);
        assert(s == char_values(nat_decimal(n)));
    }
    // here s is the digit values of `n`'s decimal text
    assert(s == char_values(nat_decimal(n))) by {
        if n == 0 {
            lemma_digit_char(0);
            assert(char_values(nat_decimal(0)) =~= seq![0int]);
        }
    }
    assert(s.len() > 0);
    lemma_replace_scan_single(ai, bi, s);
    let st = replace_scan(seq![ai], seq![bi], s);
    assert(st.0 + st.1 =~= char_values(t)) by {
        assert forall|i: int| 0 <= i < s.len() implies (st.0 + st.1)[i] == #[trigger] char_values(t)[i] by {
            let c = nat_decimal(n)[i];
            assert(char_value(c) == s[i]);
            if c == digit_char(ai) {
                assert(s[i] == ai);
            } else {
                assert(s[i] != ai) by {
                    lemma_nat_decimal_digit(n, i);
                }
            }
            if i < s.len() - 1 {
                assert(st.0[i] == (if s[i] == ai { bi } else { s[i] }));
            }
        }
    }
}

proof fn lemma_nat_decimal_digit(n: nat, i: int)
    requires
        0 <= i < nat_decimal(n).len(),
    ensures
        nat_decimal(n)[i] == digit_char(char_value(nat_decimal(n)[i])),
        0 <= char_value(nat_decimal(n)[i]) < 10,
    decreases n,
{
    if n < 10 {
        lemma_digit_char(n as int);
    } else if i < nat_decimal(n).len() - 1 {
        lemma_nat_decimal_digit(n / 10, i);
    } else {
        lemma_digit_char((n % 10) as int);
    }
}

} // verus!
