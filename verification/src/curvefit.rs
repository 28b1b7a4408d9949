//! The integer side of fitting a curve to points: reading the points and
//! comparing predicted values with them.
use vstd::prelude::*;
use crate::parse::{int_in, parse_int, segments, split_bytes, views};

verus! {

/// A field reads as an `i32`.
pub open spec fn i32_of(f: Seq<u8>) -> Option<int> {
    int_in(f, true, i32::MIN as int, i32::MAX as int)
}

/// Every field reads as an `i32`.
pub open spec fn all_i32(fs: Seq<Seq<u8>>) -> bool {
    forall|k: int| 0 <= k < fs.len() ==> #[trigger] i32_of(fs[k]) is Some
}

/// A line of a points file: comma-separated fields, taken in pairs, all
/// of them `i32`s; the point is the first pair. `None` when a field does
/// not read or one is left without a partner.
pub open spec fn point_of(line: Seq<u8>) -> Option<(i32, i32)> {
    let fs = segments(line, 44);
    if fs.len() % 2 == 0 && all_i32(fs) {
        Some((i32_of(fs[0])->0 as i32, i32_of(fs[1])->0 as i32))
    } else {
        None
    }
}

/// The point of every line, if all of them read.
pub open spec fn points_of(lines: Seq<Seq<u8>>) -> Option<Seq<(i32, i32)>>
    decreases lines.len(),
{
    if lines.len() == 0 {
        Some(seq![])
    } else {
        match (points_of(lines.drop_last()), point_of(lines.last())) {
            (Some(p), Some(x)) => Some(p.push(x)),
            _ => None,
        }
    }
}

/// The points of a points file: every line but the last piece after the
/// final newline (see `point_of`).
pub open spec fn points_text(text: Seq<u8>) -> Option<Seq<(i32, i32)>> {
    points_of(segments(text, 10).drop_last())
}

proof fn lemma_segments_nonempty(s: Seq<u8>, sep: u8)
    ensures
        segments(s, sep).len() >= 1,
    decreases s.len(),
{
    if s.len() > 0 {
        lemma_segments_nonempty(s.drop_last(), sep);
    }
}

fn read_point(line: &Vec<u8>) -> (r: Option<(i32, i32)>)
    ensures
        r == point_of(line@),
{
    let fs = split_bytes(line.as_slice(), 44);
    let ghost g = segments(line@, 44);
    proof {
        lemma_segments_nonempty(line@, 44);
    }
    if fs.len() % 2 != 0 {
        return None;
    }
    let mut vals: Vec<i32> = Vec::new();
    let mut k: usize = 0;
    while k < fs.len()
        invariant
            k <= fs@.len(),
            views(fs@) == g,
            g == segments(line@, 44),
            forall|t: int| 0 <= t < k ==> #[trigger] i32_of(g[t]) == Some(vals@[t] as int),
            vals@.len() == k,
        decreases fs@.len() - k,
    {
        assert(g[k as int] == fs@[k as int]@);
        match parse_int(fs[k].as_slice(), true, i32::MIN as i128, i32::MAX as i128) {
            Some(v) => {
                vals.push(v as i32);
            },
            None => {
                assert(i32_of(g[k as int]) is None);
                assert(!all_i32(g));
                return None;
            },
        }
        k = k + 1;
    }
    assert(all_i32(g));
    assert(i32_of(g[0]) == Some(vals@[0] as int));
    assert(i32_of(g[1]) == Some(vals@[1] as int));
    Some((vals[0], vals[1]))
}

/// Reads a points file (see `points_text`).
pub fn parse_points(text: &[u8]) -> (r: Option<Vec<(i32, i32)>>)
    ensures
        match r {
            Some(p) => points_text(text@) == Some(p@),
            None => points_text(text@) is None,
        },
{
    let parts = split_bytes(text, 10);
    let ghost ls = segments(text@, 10).drop_last();
    proof {
        lemma_segments_nonempty(text@, 10);
    }
    let n = parts.len() - 1;
    let mut out: Vec<(i32, i32)> = Vec::new();
    let mut i: usize = 0;
    while i < n
        invariant
            i <= n,
            n == parts@.len() - 1,
            views(parts@) == segments(text@, 10),
            ls == segments(text@, 10).drop_last(),
            points_of(ls.take(i as int)) == Some(out@),
        decreases n - i,
    {
        assert(ls.take(i + 1).drop_last() == ls.take(i as int));
        assert(ls.take(i + 1).last() == ls[i as int]);
        assert(ls[i as int] == parts@[i as int]@);
        match read_point(&parts[i]) {
            Some(pt) => out.push(pt),
            None => {
                proof {
                    lemma_points_fail(ls, i + 1);
                }
                return None;
            },
        }
        i = i + 1;
    }
    assert(ls.take(n as int) == ls);
    Some(out)
}

proof fn lemma_points_fail(ls: Seq<Seq<u8>>, k: int)
    requires
        1 <= k <= ls.len(),
        points_of(ls.take(k)) is None,
    ensures
        points_of(ls) is None,
    decreases ls.len() - k,
{
    if k < ls.len() {
        assert(ls.take(k + 1).drop_last() == ls.take(k));
        lemma_points_fail(ls, k + 1);
    } else {
        assert(ls.take(k) == ls);
    }
}

/// How many of the first `k` places hold different values.
pub open spec fn mismatch_count(a: Seq<i32>, b: Seq<i32>, k: int) -> int
    decreases k,
{
    if k <= 0 {
        0
    } else {
        mismatch_count(a, b, k - 1) + if a[k - 1] != b[k - 1] {
            1int
        } else {
            0
        }
    }
}

/// How many places of two equally long sequences hold different values.
pub fn mismatches(a: &[i32], b: &[i32]) -> (r: usize)
    requires
        a@.len() == b@.len(),
    ensures
        r as int == mismatch_count(a@, b@, a@.len() as int),
{
    let mut c: usize = 0;
    let mut i: usize = 0;
    while i < a.len()
        invariant
            i <= a@.len(),
            a@.len() == b@.len(),
            c as int == mismatch_count(a@, b@, i as int),
            c <= i,
        decreases a@.len() - i,
    {
        if a[i] != b[i] {
            c = c + 1;
        }
        i = i + 1;
    }
    c
}

} // verus!
