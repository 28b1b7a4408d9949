//! Searching for the numbers that the key computation maps to a given
//! text: the inverse of `numbers1::calc` with the key characters `abcdef`,
//! found by undoing its steps where they can be undone and trying every
//! possibility where they cannot.
use vstd::prelude::*;
use itertools::Itertools;
use num::{BigInt, BigUint};
use crate::bigint::{
    all_digits, big_div_rem, big_from_biguint, big_from_u64, big_ge, big_eq, big_is_zero, big_parse_decimal,
    big_to_biguint, big_to_string, dec_value, digit_char, lemma_nat_decimal_digits, nat_decimal, uvalue, value,
};
use crate::parse::views;
use crate::text::{chars_of, string_from_chars};
use std::collections::{HashMap, HashSet};

verus! {

/// A hexadecimal digit of either case.
pub open spec fn is_hex_char(c: char) -> bool {
    let v = c as u32;
    (48 <= v <= 57) || (97 <= v <= 102) || (65 <= v <= 70)
}

/// A decimal digit.
pub open spec fn is_dec_char(c: char) -> bool {
    48 <= c as u32 <= 57
}

/// The hexadecimal digits of either case.
pub open spec fn hex_symbols() -> Seq<char> {
    seq!['0', '1', '2', '3', '4', '5', '6', '7', '8', '9', 'a', 'b', 'c', 'd', 'e', 'f', 'A', 'B', 'C', 'D', 'E', 'F']
}

/// The letters among the hexadecimal digits.
pub open spec fn letter_symbols() -> Seq<char> {
    hex_symbols().skip(10)
}

/// The symbols of `syms` that occur in `s`, in the order of `syms`.
pub open spec fn present(s: Seq<char>, syms: Seq<char>) -> Seq<char>
    decreases syms.len(),
{
    if syms.len() == 0 {
        seq![]
    } else if s.contains(syms.last()) {
        present(s, syms.drop_last()).push(syms.last())
    } else {
        present(s, syms.drop_last())
    }
}

/// `s` with every `a` replaced by `b`.
pub open spec fn replace_char(s: Seq<char>, a: char, b: char) -> Seq<char> {
    s.map_values(|c: char| if c == a {
        b
    } else {
        c
    })
}

/// The value a character stands for: a digit its own, a letter the value
/// it was given in `m` (a list of letters and values).
pub open spec fn lookup(m: Seq<(char, u8)>, x: char) -> Option<int>
    decreases m.len(),
{
    if is_dec_char(x) {
        Some(x as u32 - 48)
    } else if m.len() == 0 {
        None
    } else if m.last().0 == x {
        Some(m.last().1 as int)
    } else {
        lookup(m.drop_last(), x)
    }
}

/// The character at the `k`-th anchor: the first two and the last two.
pub open spec fn anchor_char(src: Seq<char>, k: int) -> char {
    if k == 0 {
        src[0]
    } else if k == 1 {
        src[1]
    } else if k == 2 {
        src[src.len() - 2]
    } else {
        src[src.len() - 1]
    }
}

/// The digit the `k`-th anchor must stand for: the text starts with 17
/// and ends with 24.
pub open spec fn anchor_value(k: int) -> int {
    if k == 0 {
        1
    } else if k == 1 {
        7
    } else if k == 2 {
        2
    } else {
        4
    }
}

/// The first `k` anchors checked: a character with a value must have the
/// anchor's digit; a letter without one gets it, everywhere in the text.
/// `None` when an anchor contradicts a value.
pub open spec fn anchors(src: Seq<char>, k: nat) -> Option<(Seq<char>, Seq<(char, u8)>)>
    decreases k,
{
    if k == 0 {
        Some((src, seq![]))
    } else {
        match anchors(src, (k - 1) as nat) {
            None => None,
            Some((s, m)) => {
                let x = anchor_char(src, k - 1);
                let y = anchor_value(k - 1);
                match lookup(m, x) {
                    Some(v) => if v == y {
                        Some((s, m))
                    } else {
                        None
                    },
                    None => Some((replace_char(s, x, digit_char(y)), m.push((x, y as u8)))),
                }
            },
        }
    }
}

/// The digits below `d` that do not occur in `s`, in increasing order.
pub open spec fn missing_below(s: Seq<char>, d: nat) -> Seq<u8>
    decreases d,
{
    if d == 0 {
        seq![]
    } else if s.contains(digit_char(d - 1)) {
        missing_below(s, (d - 1) as nat)
    } else {
        missing_below(s, (d - 1) as nat).push((d - 1) as u8)
    }
}

/// The text after its anchors, the digits it lacks and the letters it still
/// holds; `None` when there is nothing to search: the text has other
/// characters than hexadecimal digits, fewer than 4 or more than 10
/// different ones, contradicting anchors, or more letters than missing
/// digits.
pub open spec fn prepared(src: Seq<char>) -> Option<(Seq<char>, Seq<u8>, Seq<char>)> {
    let n = src.to_set().len();
    if !(forall|i: int| 0 <= i < src.len() ==> is_hex_char(#[trigger] src[i])) || n < 4 || n > 10 {
        None
    } else {
        match anchors(src, 4) {
            None => None,
            Some((s, m)) => {
                let missing = missing_below(s, 10);
                let letters = present(s, letter_symbols());
                if missing.len() < letters.len() {
                    None
                } else {
                    Some((s, missing, letters))
                }
            },
        }
    }
}

/// The text with the `i` first letters replaced by the digits of `ms`.
pub open spec fn assign(s: Seq<char>, letters: Seq<char>, ms: Seq<u8>, i: nat) -> Seq<char>
    decreases i,
{
    if i == 0 {
        s
    } else {
        replace_char(assign(s, letters, ms, (i - 1) as nat), letters[i - 1], digit_char(ms[i - 1] as int))
    }
}

/// An ordering of all of `items`.
pub open spec fn is_arrangement(p: Seq<u8>, items: Seq<u8>) -> bool {
    &&& p.len() == items.len()
    &&& p.no_duplicates()
    &&& forall|i: int| 0 <= i < p.len() ==> items.contains(#[trigger] p[i])
}

/// The text between the leading 17 and the trailing 24, divided by 9 and
/// written backwards, without its last digit (which must be 6); `None`
/// where a step fails.
pub open spec fn middle_digits(s2: Seq<char>) -> Option<Seq<char>> {
    let n = s2.len();
    if n >= 4 && s2[0] == '1' && s2[1] == '7' && s2[n - 2] == '2' && s2[n - 1] == '4' {
        let t = s2.subrange(2, n - 2);
        if t.len() > 0 && all_digits(t) && dec_value(t) % 9 == 0 {
            let u = nat_decimal((dec_value(t) / 9) as nat).reverse();
            if u.last() == '6' {
                Some(u.drop_last())
            } else {
                None
            }
        } else {
            None
        }
    } else {
        None
    }
}

/// The digits each digit of `u` may have been: a 3 may have been a 2, a 2
/// cannot occur, any other digit stays.
pub open spec fn options(c: char) -> Seq<char> {
    if c == '3' {
        seq!['2', '3']
    } else if c == '2' {
        seq![]
    } else {
        seq![c]
    }
}

/// `v` is one of the digit strings `u` may have been.
pub open spec fn is_choice(v: Seq<char>, u: Seq<char>) -> bool {
    &&& v.len() == u.len()
    &&& forall|i: int| 0 <= i < v.len() ==> options(u[i]).contains(#[trigger] v[i])
}

/// `b` divided by 5 is written as 2, then the digits of `x`, then 91.
pub open spec fn unwraps_to(b: int, x: nat) -> bool {
    let w = nat_decimal((b / 5) as nat);
    &&& b % 5 == 0
    &&& w.len() >= 4
    &&& w[0] == '2'
    &&& w[w.len() - 2] == '9'
    &&& w[w.len() - 1] == '1'
    &&& dec_value(w.subrange(1, w.len() - 2)) == x
}

/// `x` comes out of the text `s2` for some way back through the 3s.
pub open spec fn decodes_to(s2: Seq<char>, x: nat) -> bool {
    match middle_digits(s2) {
        Some(u) => exists|v: Seq<char>| is_choice(v, u) && v.len() > 0 && unwraps_to(dec_value(v), x),
        None => false,
    }
}

/// `ms` orders the missing digits, and given to the letters in that order
/// they make a text that `x` comes out of.
pub open spec fn decoded_with(s: Seq<char>, missing: Seq<u8>, letters: Seq<char>, ms: Seq<u8>, x: nat) -> bool {
    is_arrangement(ms, missing) && decodes_to(assign(s, letters, ms, letters.len()), x)
}

/// `x` is found by the search for `src`: some assignment of the missing
/// digits to the letters makes a text that `x` comes out of.
pub open spec fn reverse_candidate(src: Seq<char>, x: nat) -> bool {
    let p = prepared(src);
    let q = p->0;
    &&& p is Some
    &&& exists|ms: Seq<u8>| #[trigger] decoded_with(q.0, q.1, q.2, ms, x)
}

/// The search's result: the candidates whose key, with the key characters
/// `abcdef`, is the text itself.
pub open spec fn reverse_result(src: Seq<char>, x: nat) -> bool {
    reverse_candidate(src, x) && crate::numbers1::calc_output(x, "abcdef"@) == Ok::<Seq<char>, crate::numbers::NumError>(src)
}


fn contains_char(v: &Vec<char>, c: char) -> (r: bool)
    ensures
        r == v@.contains(c),
{
    let mut i: usize = 0;
    while i < v.len()
        invariant
            i <= v@.len(),
            forall|j: int| 0 <= j < i ==> v@[j] != c,
        decreases v@.len() - i,
    {
        if v[i] == c {
            assert(v@[i as int] == c);
            return true;
        }
        i = i + 1;
    }
    false
}

fn present_in(s: &Vec<char>, syms: &[char]) -> (r: Vec<char>)
    ensures
        r@ == present(s@, syms@),
{
    let mut out: Vec<char> = Vec::new();
    let mut k: usize = 0;
    while k < syms.len()
        invariant
            k <= syms@.len(),
            out@ == present(s@, syms@.take(k as int)),
        decreases syms@.len() - k,
    {
        assert(syms@.take(k + 1).drop_last() == syms@.take(k as int));
        assert(syms@.take(k + 1).last() == syms@[k as int]);
        if contains_char(s, syms[k]) {
            out.push(syms[k]);
        }
        k = k + 1;
    }
    assert(syms@.take(syms@.len() as int) == syms@);
    out
}

fn replace_in(v: &Vec<char>, a: char, b: char) -> (r: Vec<char>)
    ensures
        r@ == replace_char(v@, a, b),
{
    let mut out: Vec<char> = Vec::new();
    let mut i: usize = 0;
    while i < v.len()
        invariant
            i <= v@.len(),
            out@ == replace_char(v@, a, b).take(i as int),
        decreases v@.len() - i,
    {
        out.push(if v[i] == a {
            b
        } else {
            v[i]
        });
        i = i + 1;
        assert(out@ =~= replace_char(v@, a, b).take(i as int));
    }
    assert(replace_char(v@, a, b).take(v@.len() as int) =~= replace_char(v@, a, b));
    out
}

/// The table agrees with `lookup(m, _)` on every character, by its code.
pub open spec fn table_agrees(t: Map<u32, u8>, m: Seq<(char, u8)>) -> bool {
    forall|c: char|
        #![trigger lookup(m, c)]
        (t.contains_key(c as u32) ==> lookup(m, c) == Some(t[c as u32] as int)) && (!t.contains_key(
            c as u32,
        ) ==> lookup(m, c) is None)
}

/// The table of values before any anchor: each decimal digit stands for
/// itself.
fn digit_table() -> (t: HashMap<u32, u8>)
    ensures
        table_agrees(t@, seq![]),
        forall|k: u32| #[trigger] t@.contains_key(k) ==> t@[k] <= 9,
{
    broadcast use vstd::std_specs::hash::group_hash_axioms;
    let mut t: HashMap<u32, u8> = HashMap::new();
    let mut d: u8 = 0;
    while d < 10
        invariant
            d <= 10,
            forall|k: u32| #[trigger] t@.contains_key(k) <==> 48 <= k < 48 + d,
            forall|k: u32| #[trigger] t@.contains_key(k) ==> t@[k] == k - 48,
        decreases 10 - d,
    {
        t.insert(48 + d as u32, d);
        d = d + 1;
    }
    assert forall|c: char|
        #![trigger lookup(seq![], c)]
        (t@.contains_key(c as u32) ==> lookup(seq![], c) == Some(t@[c as u32] as int)) && (
        !t@.contains_key(c as u32) ==> lookup(seq![], c) is None) by {}
    t
}

fn digit_of(d: u8) -> (r: char)
    requires
        d <= 9,
    ensures
        r == digit_char(d as int),
{
    ((d + 48) as char)
}

fn anchors_exec(src: &Vec<char>) -> (r: Option<Vec<char>>)
    requires
        src@.len() >= 4,
    ensures
        match r {
            Some(s) => anchors(src@, 4) matches Some(p) && p.0 == s@,
            None => anchors(src@, 4) is None,
        },
{
    let n = src.len();
    let mut s: Vec<char> = src.clone();
    assert(s@ =~= src@);
    let ghost mut m: Seq<(char, u8)> = seq![];
    let mut table = digit_table();
    let values: [u8; 4] = [1, 7, 2, 4];
    let positions: [usize; 4] = [0, 1, n - 2, n - 1];
    let mut k: usize = 0;
    while k < 4
        invariant
            k <= 4,
            n == src@.len(),
            n >= 4,
            values@ == seq![1u8, 7, 2, 4],
            positions@ == seq![0usize, 1, (n - 2) as usize, (n - 1) as usize],
            anchors(src@, k as nat) == Some((s@, m)),
            table_agrees(table@, m),
            forall|c: u32| #[trigger] table@.contains_key(c) ==> table@[c] <= 9,
        decreases 4 - k,
    {
        let x = src[positions[k]];
        let y = values[k];
        assert(x == anchor_char(src@, k as int));
        assert(y as int == anchor_value(k as int));
        assert(table_agrees(table@, m));
        assert(table@.contains_key(x as u32) ==> lookup(m, x) == Some(table@[x as u32] as int));
        assert(!table@.contains_key(x as u32) ==> lookup(m, x) is None);
        match table.get(&(x as u32)) {
            Some(v) => {
                if *v != y {
                    proof {
                        lemma_anchors_fail(src@, (k + 1) as nat);
                    }
                    return None;
                }
            },
            None => {
                let d = digit_of(y);
                s = replace_in(&s, x, d);
                let ghost t0 = table@;
                let ghost m0 = m;
                table.insert(x as u32, y);
                proof {
                    m = m.push((x, y));
                    assert forall|c: char|
                        #![trigger lookup(m, c)]
                        (table@.contains_key(c as u32) ==> lookup(m, c) == Some(table@[c as u32] as int)) && (
                        !table@.contains_key(c as u32) ==> lookup(m, c) is None) by {
                        assert(m.drop_last() == m0);
                        assert(lookup(m0, c) == lookup(m0, c));
                        if c != x {
                            vstd::utf8::char_u32_cast(c, c as u32);
                            vstd::utf8::char_u32_cast(x, x as u32);
                            assert(c as u32 != x as u32);
                        } else {
                            if is_dec_char(c) {
                                assert(lookup(m0, c) is Some);
                            }
                        }
                    }
                }
            },
        }
        k = k + 1;
    }
    Some(s)
}

proof fn lemma_anchors_fail(src: Seq<char>, k: nat)
    requires
        1 <= k <= 4,
        anchors(src, k) is None,
    ensures
        anchors(src, 4) is None,
    decreases 4 - k,
{
    if k < 4 {
        lemma_anchors_fail(src, k + 1);
    }
}

fn missing_exec(s: &Vec<char>) -> (r: Vec<u8>)
    ensures
        r@ == missing_below(s@, 10),
        forall|i: int| 0 <= i < r@.len() ==> #[trigger] r@[i] <= 9,
        r@.no_duplicates(),
{
    broadcast use vstd::std_specs::hash::group_hash_axioms;
    let set = code_set(s);
    let mut out: Vec<u8> = Vec::new();
    let mut d: u8 = 0;
    while d < 10
        invariant
            d <= 10,
            set@ == s@.to_set().map(|c: char| code_of(c)),
            out@ == missing_below(s@, d as nat),
            forall|i: int| 0 <= i < out@.len() ==> #[trigger] out@[i] < d,
            out@.no_duplicates(),
        decreases 10 - d,
    {
        let c = digit_of(d);
        let present = set.contains(&(48 + d as u32));
        proof {
            vstd::utf8::char_u32_cast(c, c as u32);
            assert(c as u32 == 48 + d) by {
                assert(c == ((d + 48) as char));
            }
            if s@.contains(c) {
                let j = choose|j: int| 0 <= j < s@.len() && s@[j] == c;
                assert(s@.to_set().contains(c));
                assert(set@.contains(code_of(c)));
            }
            if present {
                let x = choose|x: char| s@.to_set().contains(x) && code_of(x) == 48 + d;
                vstd::utf8::char_u32_cast(x, x as u32);
                assert(x == c);
                assert(s@.contains(c));
            }
        }
        if !present {
            out.push(d);
        }
        d = d + 1;
    }
    out
}

/// The character's code.
pub open spec fn code_of(c: char) -> u32 {
    c as u32
}

/// The set of the codes of the characters of `cs`.
fn code_set(cs: &Vec<char>) -> (set: HashSet<u32>)
    ensures
        set@ == cs@.to_set().map(|c: char| code_of(c)),
{
    broadcast use vstd::std_specs::hash::group_hash_axioms;
    let mut set: HashSet<u32> = HashSet::new();
    let mut i: usize = 0;
    while i < cs.len()
        invariant
            i <= cs@.len(),
            set@ == cs@.take(i as int).to_set().map(|c: char| code_of(c)),
        decreases cs@.len() - i,
    {
        proof {
            assert(cs@.take(i + 1) == cs@.take(i as int).push(cs@[i as int]));
            cs@.take(i as int).lemma_push_to_set_commute(cs@[i as int]);
            cs@.take(i as int).to_set().lemma_set_map_insert_commute(cs@[i as int], |c: char| code_of(c));
        }
        set.insert(cs[i] as u32);
        i = i + 1;
    }
    assert(cs@.take(cs@.len() as int) == cs@);
    set
}

/// How many different characters `cs` holds, counted in a set of their
/// codes.
fn distinct_count(cs: &Vec<char>) -> (r: usize)
    ensures
        r == cs@.to_set().len(),
{
    broadcast use vstd::std_specs::hash::group_hash_axioms;
    let set = code_set(cs);
    proof {
        vstd::seq_lib::seq_to_set_is_finite(cs@);
        assert(vstd::relations::injective_on(|c: char| code_of(c), cs@.to_set())) by {
            assert forall|a: char, b: char|
                cs@.to_set().contains(a) && cs@.to_set().contains(b) && #[trigger] code_of(a) == #[trigger] code_of(b)
                implies a == b by {
                vstd::utf8::char_u32_cast(a, a as u32);
                vstd::utf8::char_u32_cast(b, b as u32);
            }
        }
        vstd::set_lib::lemma_map_size(cs@.to_set(), set@, |c: char| code_of(c));
    }
    set.len()
}

/// The text, the missing digits and the letters (see `prepared`).
fn prepare(cs: &Vec<char>) -> (r: Option<(Vec<char>, Vec<u8>, Vec<char>)>)
    ensures
        match r {
            Some((s, missing, letters)) => prepared(cs@) == Some((s@, missing@, letters@)) && missing@.no_duplicates()
                && (forall|i: int| 0 <= i < missing@.len() ==> #[trigger] missing@[i] <= 9),
            None => prepared(cs@) is None,
        },
{
    let letter_syms: [char; 12] = ['a', 'b', 'c', 'd', 'e', 'f', 'A', 'B', 'C', 'D', 'E', 'F'];
    assert(letter_syms@ =~= letter_symbols());
    let mut i: usize = 0;
    while i < cs.len()
        invariant
            i <= cs@.len(),
            forall|j: int| 0 <= j < i ==> is_hex_char(#[trigger] cs@[j]),
        decreases cs@.len() - i,
    {
        let c = cs[i];
        let v = c as u32;
        if !((48 <= v && v <= 57) || (97 <= v && v <= 102) || (65 <= v && v <= 70)) {
            assert(!is_hex_char(cs@[i as int]));
            return None;
        }
        i = i + 1;
    }
    let n = distinct_count(cs);
    if n < 4 || n > 10 {
        return None;
    }
    proof {
        cs@.lemma_cardinality_of_set();
    }
    let s = match anchors_exec(cs) {
        Some(s) => s,
        None => return None,
    };
    let missing = missing_exec(&s);
    let letters = present_in(&s, &letter_syms);
    if missing.len() < letters.len() {
        return None;
    }
    Some((s, missing, letters))
}

/// The views of character vectors.
pub open spec fn char_views(v: Seq<Vec<char>>) -> Seq<Seq<char>> {
    v.map_values(|x: Vec<char>| x@)
}

/// `Itertools::permutations` taking all of `items` (which differ from each
/// other), collected: every ordering of them occurs among the results, and
/// only those.
#[verifier::external_body]
fn permutations_of(items: Vec<u8>) -> (r: Vec<Vec<u8>>)
    requires
        items@.no_duplicates(),
    ensures
        forall|p: Seq<u8>| views(r@).contains(p) <==> is_arrangement(p, items@),
{
    let k = items.len();
    items.into_iter().permutations(k).collect()
}

/// `Itertools::multi_cartesian_product` over the option lists, collected:
/// the results are exactly the sequences that take, at each place, one of
/// that place's options (one empty sequence when there are no places).
#[verifier::external_body]
fn choices_of(opts: Vec<Vec<char>>) -> (r: Vec<Vec<char>>)
    ensures
        forall|v: Seq<char>|
            char_views(r@).contains(v) <==> (v.len() == opts@.len() && forall|i: int|
                0 <= i < v.len() ==> opts@[i]@.contains(#[trigger] v[i])),
{
    opts.into_iter().map(|o| o.into_iter()).multi_cartesian_product().collect()
}

/// A value among the big integers of `c`.
pub open spec fn cand_in(c: Seq<BigInt>, x: int) -> bool {
    exists|k: int| 0 <= k < c.len() && value(c[k]) == x
}

fn assign_exec(s: &Vec<char>, letters: &Vec<char>, ms: &Vec<u8>) -> (r: Vec<char>)
    requires
        ms@.len() >= letters@.len(),
        forall|i: int| 0 <= i < ms@.len() ==> #[trigger] ms@[i] <= 9,
    ensures
        r@ == assign(s@, letters@, ms@, letters@.len()),
{
    let mut t = s.clone();
    assert(t@ =~= s@);
    let mut i: usize = 0;
    while i < letters.len()
        invariant
            i <= letters@.len(),
            ms@.len() >= letters@.len(),
            forall|k: int| 0 <= k < ms@.len() ==> #[trigger] ms@[k] <= 9,
            t@ == assign(s@, letters@, ms@, i as nat),
        decreases letters@.len() - i,
    {
        let d = digit_of(ms[i]);
        t = replace_in(&t, letters[i], d);
        i = i + 1;
    }
    t
}

fn chars_equal(a: &Vec<char>, b: &Vec<char>) -> (r: bool)
    ensures
        r == (a@ == b@),
{
    if a.len() != b.len() {
        return false;
    }
    let mut i: usize = 0;
    while i < a.len()
        invariant
            i <= a@.len(),
            a@.len() == b@.len(),
            forall|j: int| 0 <= j < i ==> a@[j] == b@[j],
        decreases a@.len() - i,
    {
        if a[i] != b[i] {
            return false;
        }
        i = i + 1;
    }
    assert(a@ =~= b@);
    true
}

fn middle_exec(s2: &Vec<char>) -> (r: Option<Vec<char>>)
    ensures
        match r {
            Some(u) => middle_digits(s2@) == Some(u@),
            None => middle_digits(s2@) is None,
        },
{
    let n = s2.len();
    if !(n >= 4 && s2[0] == '1' && s2[1] == '7' && s2[n - 2] == '2' && s2[n - 1] == '4') {
        return None;
    }
    let tv = vstd::slice::slice_subrange(s2.as_slice(), 2, n - 2);
    let ghost t = s2@.subrange(2, n - 2);
    assert(tv@ == t);
    if tv.len() == 0 {
        return None;
    }
    let mut i: usize = 0;
    while i < tv.len()
        invariant
            i <= tv@.len(),
            tv@ == t,
            n == s2@.len(),
            n >= 4,
            s2@[0] == '1' && s2@[1] == '7' && s2@[n - 2] == '2' && s2@[n - 1] == '4',
            t == s2@.subrange(2, n - 2),
            forall|j: int| 0 <= j < i ==> crate::bigint::is_digit(#[trigger] tv@[j]),
        decreases tv@.len() - i,
    {
        let cv = tv[i] as u32;
        if !(48 <= cv && cv <= 57) {
            assert(!crate::bigint::is_digit(tv@[i as int]));
            assert(!all_digits(t));
            return None;
        }
        i = i + 1;
    }
    let text = string_from_chars(tv);
    let num = big_from_biguint(big_parse_decimal(text.as_str()));
    let nine = big_from_u64(9);
    let (q, rem) = big_div_rem(&num, &nine);
    proof {
        lemma_dec_value_nonneg(t);
    }
    if !big_is_zero(&rem) {
        return None;
    }
    let qs = chars_of(big_to_string(&q).as_str());
    proof {
        lemma_nat_decimal_digits((dec_value(t) / 9) as nat);
    }
    let ghost u = nat_decimal((dec_value(t) / 9) as nat).reverse();
    assert(qs@ == nat_decimal((dec_value(t) / 9) as nat));
    let m = qs.len();
    if qs[0] != '6' {
        return None;
    }
    let mut out: Vec<char> = Vec::new();
    let mut k: usize = m;
    while k > 1
        invariant
            1 <= k <= m,
            m == qs@.len(),
            u == qs@.reverse(),
            out@ == u.take((m - k) as int),
        decreases k,
    {
        out.push(qs[k - 1]);
        k = k - 1;
        assert(out@ =~= u.take((m - k) as int));
    }
    assert(u.last() == qs@[0]);
    assert(out@ =~= u.drop_last());
    Some(out)
}

proof fn lemma_dec_value_nonneg(t: Seq<char>)
    requires
        all_digits(t),
    ensures
        dec_value(t) >= 0,
    decreases t.len(),
{
    if t.len() > 0 {
        lemma_dec_value_nonneg(t.drop_last());
    }
}

fn options_exec(c: char) -> (r: Vec<char>)
    ensures
        r@ == options(c),
{
    let mut v: Vec<char> = Vec::new();
    if c == '3' {
        v.push('2');
        v.push('3');
    } else if c != '2' {
        v.push(c);
    }
    assert(v@ =~= options(c));
    v
}

/// The candidate that the digit string `v` unwraps to, if any.
fn unwrap_exec(v: &Vec<char>) -> (r: Option<BigInt>)
    requires
        v@.len() > 0,
        all_digits(v@),
    ensures
        match r {
            Some(x) => value(x) >= 0 && unwraps_to(dec_value(v@), value(x) as nat),
            None => forall|x: nat| !unwraps_to(dec_value(v@), x),
        },
{
    let text = string_from_chars(v.as_slice());
    let b = big_from_biguint(big_parse_decimal(text.as_str()));
    let five = big_from_u64(5);
    let (q, rem) = big_div_rem(&b, &five);
    proof {
        lemma_dec_value_nonneg(v@);
    }
    if !big_is_zero(&rem) {
        return None;
    }
    let w = chars_of(big_to_string(&q).as_str());
    let ghost wd = nat_decimal((dec_value(v@) / 5) as nat);
    assert(w@ == wd);
    let n = w.len();
    if !(n >= 4 && w[0] == '2' && w[n - 2] == '9' && w[n - 1] == '1') {
        return None;
    }
    let r = vstd::slice::slice_subrange(w.as_slice(), 1, n - 2);
    proof {
        lemma_nat_decimal_digits((dec_value(v@) / 5) as nat);
        assert(all_digits(r@)) by {
            assert forall|j: int| 0 <= j < r@.len() implies crate::bigint::is_digit(#[trigger] r@[j]) by {
                assert(r@[j] == wd[j + 1]);
            }
        }
        lemma_dec_value_nonneg(r@);
    }
    let rt = string_from_chars(r);
    let x = big_from_biguint(big_parse_decimal(rt.as_str()));
    Some(x)
}

/// Every candidate that comes out of the text `s2`.
fn decode_all(s2: &Vec<char>) -> (r: Vec<BigInt>)
    ensures
        forall|x: nat| cand_in(r@, x as int) <==> decodes_to(s2@, x),
        forall|k: int| 0 <= k < r@.len() ==> value(#[trigger] r@[k]) >= 0,
{
    let mut out: Vec<BigInt> = Vec::new();
    let u = match middle_exec(s2) {
        Some(u) => u,
        None => {
            return out;
        },
    };
    let mut opts: Vec<Vec<char>> = Vec::new();
    let mut i: usize = 0;
    while i < u.len()
        invariant
            i <= u@.len(),
            opts@.len() == i,
            forall|j: int| 0 <= j < i ==> #[trigger] opts@[j]@ == options(u@[j]),
        decreases u@.len() - i,
    {
        opts.push(options_exec(u[i]));
        i = i + 1;
    }
    assert(opts@.len() == u@.len());
    proof {
        lemma_middle_digits(s2@);
    }
    let combos = choices_of(opts);
    let ghost cv = char_views(combos@);
    assert forall|v: Seq<char>| cv.contains(v) <==> is_choice(v, u@) by {
        if cv.contains(v) {
            assert forall|j: int| 0 <= j < v.len() implies options(u@[j]).contains(#[trigger] v[j]) by {
                assert(opts@[j]@.contains(v[j]));
            }
        }
        if is_choice(v, u@) {
            assert forall|j: int| 0 <= j < v.len() implies opts@[j]@.contains(#[trigger] v[j]) by {
                assert(options(u@[j]).contains(v[j]));
            }
        }
    }
    let mut k: usize = 0;
    while k < combos.len()
        invariant
            k <= combos@.len(),
            cv == char_views(combos@),
            middle_digits(s2@) == Some(u@),
            all_digits(u@),
            forall|v: Seq<char>| cv.contains(v) <==> is_choice(v, u@),
            forall|x: nat| cand_in(out@, x as int) <==> exists|j: int|
                0 <= j < k && cv[j].len() > 0 && unwraps_to(dec_value(#[trigger] cv[j]), x),
            forall|t: int| 0 <= t < out@.len() ==> value(#[trigger] out@[t]) >= 0,
        decreases combos@.len() - k,
    {
        let v = &combos[k];
        assert(cv[k as int] == v@);
        let ghost out0 = out@;
        if v.len() > 0 {
            proof {
                assert(cv.contains(v@));
                assert(all_digits(v@)) by {
                    assert forall|j: int| 0 <= j < v@.len() implies crate::bigint::is_digit(#[trigger] v@[j]) by {
                        assert(options(u@[j]).contains(v@[j]));
                        assert(crate::bigint::is_digit(u@[j]));
                        if u@[j] != '3' && u@[j] != '2' {
                            assert(options(u@[j]) == seq![u@[j]]);
                            assert(v@[j] == u@[j]);
                        }
                    }
                }
            }
            match unwrap_exec(v) {
                Some(x) => {
                    out.push(x);
                },
                None => {},
            }
        }
        proof {
            assert forall|x: nat| cand_in(out@, x as int) <==> exists|j: int|
                0 <= j < k + 1 && cv[j].len() > 0 && unwraps_to(dec_value(#[trigger] cv[j]), x) by {
                if cand_in(out@, x as int) {
                    let t = choose|t: int| 0 <= t < out@.len() && value(out@[t]) == x;
                    if t < out0.len() {
                        assert(cand_in(out0, x as int));
                    } else {
                        assert(cv[k as int].len() > 0 && unwraps_to(dec_value(cv[k as int]), x));
                    }
                }
                if exists|j: int| 0 <= j < k + 1 && cv[j].len() > 0 && unwraps_to(dec_value(#[trigger] cv[j]), x) {
                    let j = choose|j: int| 0 <= j < k + 1 && cv[j].len() > 0 && unwraps_to(dec_value(#[trigger] cv[j]), x);
                    if j < k {
                        assert(cand_in(out0, x as int));
                        let t = choose|t: int| 0 <= t < out0.len() && value(out0[t]) == x;
                        assert(out@[t] == out0[t]);
                    } else {
                        lemma_unwraps_unique(dec_value(cv[j]), x, value(out@[out@.len() - 1]) as nat);
                        assert(value(out@[out@.len() - 1]) == x);
                    }
                }
            }
        }
        k = k + 1;
    }
    proof {
        assert forall|x: nat| cand_in(out@, x as int) <==> decodes_to(s2@, x) by {
            if cand_in(out@, x as int) {
                let j = choose|j: int| 0 <= j < combos@.len() && cv[j].len() > 0 && unwraps_to(dec_value(#[trigger] cv[j]), x);
                assert(cv.contains(cv[j]));
                assert(is_choice(cv[j], u@));
            }
            if decodes_to(s2@, x) {
                let v = choose|v: Seq<char>| is_choice(v, u@) && v.len() > 0 && unwraps_to(dec_value(v), x);
                assert(cv.contains(v));
                let j = choose|j: int| 0 <= j < cv.len() && cv[j] == v;
                assert(cv[j].len() > 0 && unwraps_to(dec_value(cv[j]), x));
            }
        }
    }
    out
}

proof fn lemma_unwraps_unique(b: int, x: nat, y: nat)
    requires
        unwraps_to(b, x),
        unwraps_to(b, y),
    ensures
        x == y,
{
}

proof fn lemma_middle_digits(s2: Seq<char>)
    requires
        middle_digits(s2) is Some,
    ensures
        all_digits(middle_digits(s2)->0),
{
    let t = s2.subrange(2, s2.len() - 2);
    let q = (dec_value(t) / 9) as nat;
    lemma_nat_decimal_digits(q);
    let u = nat_decimal(q).reverse();
    assert forall|j: int| 0 <= j < u.drop_last().len() implies crate::bigint::is_digit(#[trigger] u.drop_last()[j]) by {
        assert(u.drop_last()[j] == nat_decimal(q)[nat_decimal(q).len() - 1 - j]);
    }
}

/// The values are strictly increasing.
pub open spec fn increasing(v: Seq<BigInt>) -> bool {
    forall|i: int, j: int| 0 <= i < j < v.len() ==> value(#[trigger] v[i]) < value(#[trigger] v[j])
}

fn insert_sorted(v: &mut Vec<BigInt>, x: BigInt)
    requires
        increasing(old(v)@),
    ensures
        increasing(final(v)@),
        forall|y: int| cand_in(final(v)@, y) <==> (cand_in(old(v)@, y) || y == value(x)),
        forall|k: int| 0 <= k < final(v)@.len() ==> (exists|j: int| 0 <= j < old(v)@.len() && value(#[trigger] final(v)@[k]) == value(old(v)@[j])) || value(final(v)@[k]) == value(x),
{
    let ghost v0 = v@;
    let n = v.len();
    let mut p: usize = 0;
    while p < n && !big_ge(&v[p], &x)
        invariant
            p <= n,
            n == v@.len(),
            v@ == v0,
            forall|j: int| 0 <= j < p ==> value(#[trigger] v@[j]) < value(x),
        decreases n - p,
    {
        p = p + 1;
    }
    if p < n && big_eq(&v[p], &x) {
        proof {
            assert forall|y: int| cand_in(v@, y) <==> (cand_in(v0, y) || y == value(x)) by {
                if y == value(x) {
                    assert(value(v@[p as int]) == y);
                }
            }
            assert forall|k: int| 0 <= k < v@.len() implies (exists|j: int| 0 <= j < v0.len() && value(#[trigger] v@[k]) == value(v0[j])) || value(v@[k]) == value(x) by {
                assert(value(v@[k]) == value(v0[k]));
            }
        }
        return;
    }
    let ghost xv = value(x);
    v.insert(p, x);
    proof {
        assert(v@ == v0.insert(p as int, x));
        assert forall|i: int, j: int| 0 <= i < j < v@.len() implies value(#[trigger] v@[i]) < value(#[trigger] v@[j]) by {
            if j < p {
                assert(v@[i] == v0[i] && v@[j] == v0[j]);
            } else if j == p {
                assert(v@[i] == v0[i]);
            } else if i < p {
                assert(v@[i] == v0[i] && v@[j] == v0[j - 1]);
                assert(value(v0[j - 1]) >= xv);
            } else if i == p {
                assert(v@[j] == v0[j - 1]);
                assert(value(v0[p as int]) >= xv);
                assert(value(v0[p as int]) != xv);
                if j - 1 > p {
                    assert(value(v0[p as int]) < value(v0[j - 1]));
                }
            } else {
                assert(v@[i] == v0[i - 1] && v@[j] == v0[j - 1]);
            }
        }
        assert forall|y: int| cand_in(v@, y) <==> (cand_in(v0, y) || y == xv) by {
            if cand_in(v@, y) {
                let k = choose|k: int| 0 <= k < v@.len() && value(v@[k]) == y;
                if k < p {
                    assert(v@[k] == v0[k]);
                } else if k > p {
                    assert(v@[k] == v0[k - 1]);
                }
            }
            if cand_in(v0, y) {
                let k = choose|k: int| 0 <= k < v0.len() && value(v0[k]) == y;
                if k < p {
                    assert(v@[k] == v0[k]);
                } else {
                    assert(v@[k + 1] == v0[k]);
                }
            }
            if y == xv {
                assert(v@[p as int] == x);
            }
        }
        assert forall|k: int| 0 <= k < v@.len() implies (exists|j: int| 0 <= j < v0.len() && value(#[trigger] v@[k]) == value(v0[j])) || value(v@[k]) == xv by {
            if k < p {
                assert(v@[k] == v0[k]);
            } else if k > p {
                assert(v@[k] == v0[k - 1]);
            }
        }
    }
}

fn copy_bytes(v: &Vec<u8>) -> (r: Vec<u8>)
    ensures
        r@ == v@,
{
    let mut out: Vec<u8> = Vec::new();
    let mut i: usize = 0;
    while i < v.len()
        invariant
            i <= v@.len(),
            out@ == v@.take(i as int),
        decreases v@.len() - i,
    {
        out.push(v[i]);
        i = i + 1;
        assert(out@ =~= v@.take(i as int));
    }
    assert(v@.take(v@.len() as int) == v@);
    out
}

/// Every candidate of the search for `src` (see `reverse_candidate`), with
/// repetitions.
fn candidates(cs: &Vec<char>) -> (r: Vec<BigInt>)
    ensures
        forall|x: nat| cand_in(r@, x as int) <==> reverse_candidate(cs@, x),
        forall|k: int| 0 <= k < r@.len() ==> value(#[trigger] r@[k]) >= 0,
{
    let mut cands: Vec<BigInt> = Vec::new();
    let (s, missing, letters) = match prepare(cs) {
        Some(p) => p,
        None => {
            return cands;
        },
    };
    let h = letters.len();
    let perms = permutations_of(copy_bytes(&missing));
    let ghost pv = views(perms@);
    let mut i: usize = 0;
    while i < perms.len()
        invariant
            i <= perms@.len(),
            pv == views(perms@),
            prepared(cs@) == Some((s@, missing@, letters@)),
            missing@.no_duplicates(),
            missing@.len() >= letters@.len(),
            forall|t: int| 0 <= t < missing@.len() ==> #[trigger] missing@[t] <= 9,
            forall|p: Seq<u8>| pv.contains(p) <==> is_arrangement(p, missing@),
            forall|x: nat| cand_in(cands@, x as int) <==> exists|j: int|
                0 <= j < i && decodes_to(assign(s@, letters@, #[trigger] pv[j], letters@.len()), x),
            forall|k: int| 0 <= k < cands@.len() ==> value(#[trigger] cands@[k]) >= 0,
        decreases perms@.len() - i,
    {
        let ms = &perms[i];
        assert(pv[i as int] == ms@);
        proof {
            assert(pv.contains(ms@));
            assert forall|t: int| 0 <= t < ms@.len() implies #[trigger] ms@[t] <= 9 by {
                assert(missing@.contains(ms@[t]));
            }
        }
        let s2 = assign_exec(&s, &letters, ms);
        let mut found = decode_all(&s2);
        let ghost c0 = cands@;
        let ghost f0 = found@;
        cands.append(&mut found);
        proof {
            assert(cands@ == c0 + f0);
            assert forall|x: nat| cand_in(cands@, x as int) <==> exists|j: int|
                0 <= j < i + 1 && decodes_to(assign(s@, letters@, #[trigger] pv[j], letters@.len()), x) by {
                if cand_in(cands@, x as int) {
                    let t = choose|t: int| 0 <= t < cands@.len() && value(cands@[t]) == x;
                    if t < c0.len() {
                        assert(cands@[t] == c0[t]);
                        assert(cand_in(c0, x as int));
                    } else {
                        assert(cands@[t] == f0[t - c0.len()]);
                        assert(cand_in(f0, x as int));
                        assert(decodes_to(assign(s@, letters@, pv[i as int], letters@.len()), x));
                    }
                }
                if exists|j: int| 0 <= j < i + 1 && decodes_to(assign(s@, letters@, #[trigger] pv[j], letters@.len()), x) {
                    let j = choose|j: int| 0 <= j < i + 1 && decodes_to(assign(s@, letters@, #[trigger] pv[j], letters@.len()), x);
                    if j < i {
                        assert(cand_in(c0, x as int));
                        let t = choose|t: int| 0 <= t < c0.len() && value(c0[t]) == x;
                        assert(cands@[t] == c0[t]);
                    } else {
                        assert(cand_in(f0, x as int));
                        let t = choose|t: int| 0 <= t < f0.len() && value(f0[t]) == x;
                        assert(cands@[c0.len() + t] == f0[t]);
                    }
                }
            }
            assert forall|k: int| 0 <= k < cands@.len() implies value(#[trigger] cands@[k]) >= 0 by {
                if k < c0.len() {
                    assert(cands@[k] == c0[k]);
                } else {
                    assert(cands@[k] == f0[k - c0.len()]);
                }
            }
        }
        i = i + 1;
    }
    proof {
        assert forall|x: nat| cand_in(cands@, x as int) <==> reverse_candidate(cs@, x) by {
            assert(prepared(cs@) == Some((s@, missing@, letters@)));
            if cand_in(cands@, x as int) {
                let j = choose|j: int| 0 <= j < perms@.len() && decodes_to(assign(s@, letters@, #[trigger] pv[j], letters@.len()), x);
                assert(pv.contains(pv[j]));
                assert(is_arrangement(pv[j], missing@));
                lemma_candidate_intro(cs@, s@, missing@, letters@, pv[j], x);
            }
            if reverse_candidate(cs@, x) {
                let ms = choose|ms: Seq<u8>| decoded_with(s@, missing@, letters@, ms, x);
                assert(pv.contains(ms));
                let j = choose|j: int| 0 <= j < pv.len() && pv[j] == ms;
                assert(decodes_to(assign(s@, letters@, pv[j], letters@.len()), x));
            }
        }
    }
    cands
}

proof fn lemma_candidate_intro(src: Seq<char>, s: Seq<char>, missing: Seq<u8>, letters: Seq<char>, ms: Seq<u8>, x: nat)
    requires
        prepared(src) == Some((s, missing, letters)),
        is_arrangement(ms, missing),
        decodes_to(assign(s, letters, ms, letters.len()), x),
    ensures
        reverse_candidate(src, x),
{
    assert(decoded_with(s, missing, letters, ms, x));
    assert(exists|m: Seq<u8>| decoded_with(s, missing, letters, m, x));
    let q = prepared(src)->0;
    assert(q.0 == s);
    assert(q.1 == missing);
    assert(q.2 == letters);
    assert(exists|m: Seq<u8>| decoded_with(q.0, q.1, q.2, m, x));
}

/// The numbers that the key computation, with the key characters `abcdef`,
/// maps to `src`, among those the search finds (see `reverse_candidate`),
/// in increasing order. Nothing is searched when `src` is not made of 4 to
/// 10 different hexadecimal digits whose anchors fit.
pub fn reverse_numbers(src: &str) -> (r: Vec<BigUint>)
    ensures
        forall|i: int, j: int| 0 <= i < j < r@.len() ==> uvalue(#[trigger] r@[i]) < uvalue(#[trigger] r@[j]),
        forall|x: nat| (exists|i: int| 0 <= i < r@.len() && uvalue(r@[i]) == x) <==> reverse_result(src@, x),
{
    let cs = chars_of(src);
    let cands = candidates(&cs);
    let mut kept: Vec<BigInt> = Vec::new();
    let mut k: usize = 0;
    while k < cands.len()
        invariant
            k <= cands@.len(),
            cs@ == src@,
            forall|x: nat| cand_in(cands@, x as int) <==> reverse_candidate(cs@, x),
            forall|t: int| 0 <= t < cands@.len() ==> value(#[trigger] cands@[t]) >= 0,
            increasing(kept@),
            forall|t: int| 0 <= t < kept@.len() ==> value(#[trigger] kept@[t]) >= 0,
            forall|x: int| cand_in(kept@, x) <==> exists|j: int|
                0 <= j < k && value(#[trigger] cands@[j]) == x && crate::numbers1::calc_output(x as nat, "abcdef"@)
                    == Ok::<Seq<char>, crate::numbers::NumError>(src@),
        decreases cands@.len() - k,
    {
        let c = &cands[k];
        let num = big_to_biguint(c);
        let ok = match crate::numbers1::calc(num, "abcdef") {
            Ok(key) => chars_equal(&chars_of(key.as_str()), &cs),
            Err(_) => false,
        };
        let ghost kv = kept@;
        if ok {
            let y = crate::bigint::big_clone(c);
            insert_sorted(&mut kept, y);
        }
        proof {
            assert forall|t: int| 0 <= t < kept@.len() implies value(#[trigger] kept@[t]) >= 0 by {
                if ok {
                    if !(value(kept@[t]) == value(cands@[k as int])) {
                        let j = choose|j: int| 0 <= j < kv.len() && value(kept@[t]) == value(kv[j]);
                        assert(value(kv[j]) >= 0);
                    }
                }
            }
            assert forall|x: int| cand_in(kept@, x) <==> exists|j: int|
                0 <= j < k + 1 && value(#[trigger] cands@[j]) == x && crate::numbers1::calc_output(x as nat, "abcdef"@)
                    == Ok::<Seq<char>, crate::numbers::NumError>(src@) by {
                if exists|j: int|
                    0 <= j < k + 1 && value(#[trigger] cands@[j]) == x && crate::numbers1::calc_output(x as nat, "abcdef"@)
                        == Ok::<Seq<char>, crate::numbers::NumError>(src@) {
                    let j = choose|j: int|
                        0 <= j < k + 1 && value(#[trigger] cands@[j]) == x && crate::numbers1::calc_output(x as nat, "abcdef"@)
                            == Ok::<Seq<char>, crate::numbers::NumError>(src@);
                    if j == k {
                        assert(ok);
                    }
                }
            }
        }
        k = k + 1;
    }
    let mut out: Vec<BigUint> = Vec::new();
    let mut i: usize = 0;
    while i < kept.len()
        invariant
            i <= kept@.len(),
            out@.len() == i,
            forall|t: int| 0 <= t < kept@.len() ==> value(#[trigger] kept@[t]) >= 0,
            forall|t: int| 0 <= t < i ==> uvalue(#[trigger] out@[t]) as int == value(kept@[t]),
        decreases kept@.len() - i,
    {
        let u = big_to_biguint(&kept[i]);
        out.push(u);
        i = i + 1;
    }
    proof {
        assert forall|x: nat| (exists|i: int| 0 <= i < out@.len() && uvalue(out@[i]) == x) <==> reverse_result(src@, x) by {
            if exists|i: int| 0 <= i < out@.len() && uvalue(out@[i]) == x {
                let i = choose|i: int| 0 <= i < out@.len() && uvalue(out@[i]) == x;
                assert(cand_in(kept@, x as int));
                let j = choose|j: int|
                    0 <= j < cands@.len() && value(#[trigger] cands@[j]) == x && crate::numbers1::calc_output(x as nat, "abcdef"@)
                        == Ok::<Seq<char>, crate::numbers::NumError>(src@);
                assert(cand_in(cands@, x as int));
            }
            if reverse_result(src@, x) {
                assert(cand_in(cands@, x as int));
                let j = choose|j: int| 0 <= j < cands@.len() && value(cands@[j]) == x;
                assert(cand_in(kept@, x as int));
                let t = choose|t: int| 0 <= t < kept@.len() && value(kept@[t]) == x;
                assert(uvalue(out@[t]) == x);
            }
        }
    }
    out
}
} // verus!
