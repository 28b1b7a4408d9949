//! Reading text: splitting bytes at a separator, and decimal integers as
//! `str::parse` reads them.
use vstd::prelude::*;

verus! {

/// The pieces of `s` between occurrences of `sep`, as `split` gives them:
/// one more than there are separators, empty pieces included.
pub open spec fn segments(s: Seq<u8>, sep: u8) -> Seq<Seq<u8>>
    decreases s.len(),
{
    if s.len() == 0 {
        seq![seq![]]
    } else {
        let p = segments(s.drop_last(), sep);
        if s.last() == sep {
            p.push(seq![])
        } else {
            p.update(p.len() - 1, p.last().push(s.last()))
        }
    }
}

/// The non-empty pieces of `s` between occurrences of `sep`.
pub open spec fn fields(s: Seq<u8>, sep: u8) -> Seq<Seq<u8>> {
    segments(s, sep).filter(|x: Seq<u8>| x.len() > 0)
}

/// The views of byte vectors.
pub open spec fn views(v: Seq<Vec<u8>>) -> Seq<Seq<u8>> {
    v.map_values(|x: Vec<u8>| x@)
}

proof fn lemma_segments_nonempty(s: Seq<u8>, sep: u8)
    ensures
        segments(s, sep).len() >= 1,
    decreases s.len(),
{
    if s.len() > 0 {
        lemma_segments_nonempty(s.drop_last(), sep);
    }
}

/// `s` split at every `sep` (see `segments`).
pub fn split_bytes(s: &[u8], sep: u8) -> (r: Vec<Vec<u8>>)
    ensures
        views(r@) == segments(s@, sep),
{
    let mut out: Vec<Vec<u8>> = Vec::new();
    let mut cur: Vec<u8> = Vec::new();
    let mut i: usize = 0;
    while i < s.len()
        invariant
            i <= s@.len(),
            views(out@).push(cur@) == segments(s@.take(i as int), sep),
        decreases s@.len() - i,
    {
        let ghost p = segments(s@.take(i as int), sep);
        proof {
            lemma_segments_nonempty(s@.take(i as int), sep);
            assert(s@.take(i + 1).drop_last() == s@.take(i as int));
        }
        if s[i] == sep {
            let done = cur;
            out.push(done);
            cur = Vec::new();
            assert(views(out@) =~= views(out@).drop_last().push(done@));
            assert(views(out@).push(cur@) =~= p.push(seq![]));
        } else {
            cur.push(s[i]);
            assert(views(out@).push(cur@) =~= p.update(p.len() - 1, p.last().push(s@[i as int])));
        }
        i = i + 1;
    }
    assert(s@.take(s@.len() as int) == s@);
    let last = cur;
    out.push(last);
    assert(views(out@) =~= views(out@).drop_last().push(last@));
    out
}

/// The non-empty pieces of `s` between occurrences of `sep`.
pub fn split_fields(s: &[u8], sep: u8) -> (r: Vec<Vec<u8>>)
    ensures
        views(r@) == fields(s@, sep),
{
    let parts = split_bytes(s, sep);
    let ghost segs = segments(s@, sep);
    let mut out: Vec<Vec<u8>> = Vec::new();
    let mut i: usize = 0;
    let n = parts.len();
    while i < n
        invariant
            i <= n,
            n == parts@.len(),
            views(parts@) == segs,
            views(out@) == segs.take(i as int).filter(|x: Seq<u8>| x.len() > 0),
        decreases n - i,
    {
        proof {
            let t = segs.take(i + 1);
            assert(t.drop_last() == segs.take(i as int));
            reveal(Seq::filter);
            assert(t == segs.take(i as int).push(segs[i as int]));
            assert(segs[i as int] == parts@[i as int]@);
        }
        if parts[i].len() > 0 {
            let piece = parts[i].clone();
            assert(piece@ == parts@[i as int]@);
            out.push(piece);
            assert(views(out@) =~= views(out@).drop_last().push(piece@));
        }
        i = i + 1;
    }
    assert(segs.take(n as int) == segs);
    out
}

/// A decimal digit.
pub open spec fn is_dec_digit(b: u8) -> bool {
    48 <= b <= 57
}

/// The value of decimal digits, or -1 when one is not a digit or there are
/// none.
pub open spec fn digits_value(d: Seq<u8>) -> int
    decreases d.len(),
{
    if d.len() == 0 {
        -1
    } else {
        let p = if d.len() == 1 {
            0
        } else {
            digits_value(d.drop_last())
        };
        if p < 0 || !is_dec_digit(d.last()) {
            -1
        } else {
            10 * p + (d.last() - 48)
        }
    }
}

/// The integer that `str::parse` reads from `s`: an optional sign (`-`
/// only where `signed`) and at least one decimal digit, nothing else;
/// `None` otherwise. The range of the target type is checked apart.
pub open spec fn int_text(s: Seq<u8>, signed: bool) -> Option<int> {
    let neg = signed && s.len() > 0 && s[0] == 45;
    let d = if s.len() > 0 && (s[0] == 43 || neg) {
        s.drop_first()
    } else {
        s
    };
    let v = digits_value(d);
    if v < 0 {
        None
    } else if neg {
        Some(-v)
    } else {
        Some(v)
    }
}

/// `int_text`, within `lo..=hi`.
pub open spec fn int_in(s: Seq<u8>, signed: bool, lo: int, hi: int) -> Option<int> {
    match int_text(s, signed) {
        Some(v) => if lo <= v <= hi {
            Some(v)
        } else {
            None
        },
        None => None,
    }
}

proof fn lemma_digits_value_prefix(d: Seq<u8>, i: int)
    requires
        digits_value(d) >= 0,
        1 <= i <= d.len(),
    ensures
        0 <= digits_value(d.take(i)) <= digits_value(d),
    decreases d.len(),
{
    if i < d.len() {
        assert(d.drop_last().take(i) == d.take(i));
        lemma_digits_value_prefix(d.drop_last(), i);
    } else {
        assert(d.take(i) == d);
    }
}

/// Reads an integer from `s` as `str::parse` does for an integer type whose
/// range is `lo..=hi` (see `int_in`).
pub fn parse_int(s: &[u8], signed: bool, lo: i128, hi: i128) -> (r: Option<i128>)
    requires
        -0x1_0000_0000_0000_0000 <= lo <= 0,
        0 <= hi <= 0x1_0000_0000_0000_0000,
    ensures
        match r {
            Some(v) => int_in(s@, signed, lo as int, hi as int) == Some(v as int),
            None => int_in(s@, signed, lo as int, hi as int) is None,
        },
{
    let neg = signed && s.len() > 0 && s[0] == 45;
    let start: usize = if s.len() > 0 && (s[0] == 43 || neg) {
        1
    } else {
        0
    };
    let ghost d = if s@.len() > 0 && (s@[0] == 43 || neg) {
        s@.drop_first()
    } else {
        s@
    };
    assert(d == s@.skip(start as int));
    if start >= s.len() {
        assert(d.len() == 0);
        return None;
    }
    let bound: i128 = if neg {
        -lo
    } else {
        hi
    };
    let mut v: i128 = 0;
    let mut i = start;
    while i < s.len()
        invariant
            start < s@.len(),
            start <= i <= s@.len(),
            d == s@.skip(start as int),
            neg == (signed && s@.len() > 0 && s@[0] == 45),
            d == (if s@.len() > 0 && (s@[0] == 43 || neg) {
                s@.drop_first()
            } else {
                s@
            }),
            bound == (if neg {
                -lo
            } else {
                hi as int
            }),
            -0x1_0000_0000_0000_0000 <= lo <= 0,
            0 <= hi <= 0x1_0000_0000_0000_0000,
            0 <= bound <= 0x1_0000_0000_0000_0000,
            i > start ==> v as int == digits_value(d.take(i - start)),
            i == start ==> v == 0,
            0 <= v <= bound,
        decreases s@.len() - i,
    {
        let b = s[i];
        proof {
            let t = d.take(i - start + 1);
            assert(t.drop_last() == d.take(i - start));
            assert(t.last() == b);
        }
        if !(48 <= b && b <= 57) {
            proof {
                lemma_not_digits(d, i - start);
            }
            return None;
        }
        let nv = 10 * v + (b - 48) as i128;
        if nv > bound {
            proof {
                lemma_over_bound(d, i - start + 1, bound as int);
            }
            return None;
        }
        v = nv;
        i = i + 1;
    }
    assert(d.take(s@.len() - start) == d);
    if neg {
        Some(-v)
    } else {
        Some(v)
    }
}

proof fn lemma_not_digits(d: Seq<u8>, k: int)
    requires
        0 <= k < d.len(),
        !is_dec_digit(d[k]),
    ensures
        digits_value(d) < 0,
    decreases d.len(),
{
    if k < d.len() - 1 {
        lemma_not_digits(d.drop_last(), k);
    }
}

proof fn lemma_over_bound(d: Seq<u8>, k: int, bound: int)
    requires
        1 <= k <= d.len(),
        digits_value(d.take(k)) > bound,
    ensures
        digits_value(d) < 0 || digits_value(d) > bound,
    decreases d.len(),
{
    if digits_value(d) >= 0 {
        lemma_digits_value_prefix(d, k);
    }
}

} // verus!
