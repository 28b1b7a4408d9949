//! Sound: click tracks from counter readings, and sums over a repeating
//! period of samples.
use vstd::prelude::*;
use crate::parse::{fields, int_in, parse_int, split_fields, views};

verus! {

/// The readings of a counter file: one number per non-empty line, if every
/// line reads as a `u32`.
pub open spec fn readings(ls: Seq<Seq<u8>>) -> Option<Seq<u32>>
    decreases ls.len(),
{
    if ls.len() == 0 {
        Some(seq![])
    } else {
        match (readings(ls.drop_last()), int_in(ls.last(), false, 0, u32::MAX as int)) {
            (Some(r), Some(v)) => Some(r.push(v as u32)),
            _ => None,
        }
    }
}

/// Reads a counter file (see `readings`).
pub fn parse_readings(text: &[u8]) -> (r: Option<Vec<u32>>)
    ensures
        match r {
            Some(v) => readings(fields(text@, 10)) == Some(v@),
            None => readings(fields(text@, 10)) is None,
        },
{
    let lines = split_fields(text, 10);
    let ghost ls = fields(text@, 10);
    let mut out: Vec<u32> = Vec::new();
    let mut i: usize = 0;
    while i < lines.len()
        invariant
            i <= lines@.len(),
            views(lines@) == ls,
            ls == fields(text@, 10),
            readings(ls.take(i as int)) == Some(out@),
        decreases lines@.len() - i,
    {
        assert(ls.take(i + 1).drop_last() == ls.take(i as int));
        assert(ls[i as int] == lines@[i as int]@);
        match parse_int(lines[i].as_slice(), false, 0, u32::MAX as i128) {
            Some(v) => out.push(v as u32),
            None => {
                proof {
                    assert(ls.take(i + 1).last() == ls[i as int]);
                    lemma_readings_fail(ls, i + 1);
                }
                return None;
            },
        }
        i = i + 1;
    }
    assert(ls.take(lines@.len() as int) == ls);
    Some(out)
}

proof fn lemma_readings_fail(ls: Seq<Seq<u8>>, k: int)
    requires
        1 <= k <= ls.len(),
        readings(ls.take(k)) is None,
    ensures
        readings(ls) is None,
    decreases ls.len() - k,
{
    if k < ls.len() {
        assert(ls.take(k + 1).drop_last() == ls.take(k));
        lemma_readings_fail(ls, k + 1);
    } else {
        assert(ls.take(k) == ls);
    }
}

/// The largest reading.
pub open spec fn max_reading(d: Seq<u32>) -> int
    decreases d.len(),
{
    if d.len() == 0 {
        -1
    } else if max_reading(d.drop_last()) >= d.last() {
        max_reading(d.drop_last())
    } else {
        d.last() as int
    }
}

/// The click track for counter readings: 1470 samples for every value
/// from 0 to the largest reading, full scale where some reading has that
/// value and silent elsewhere, with alternate samples negated.
pub open spec fn geiger_track(d: Seq<u32>) -> Seq<i16> {
    Seq::new(
        ((max_reading(d) + 1) * 1470) as nat,
        |p: int|
            {
                let s: i16 = if d.contains((p / 1470) as u32) {
                    32767
                } else {
                    0
                };
                if (p % 1470) % 2 == 1 {
                    (-s) as i16
                } else {
                    s
                }
            },
    )
}

proof fn lemma_max_reading(d: Seq<u32>)
    ensures
        d.len() > 0 ==> 0 <= max_reading(d) <= u32::MAX,
        forall|k: int| 0 <= k < d.len() ==> d[k] <= max_reading(d),
        d.len() > 0 ==> d.contains(max_reading(d) as u32),
    decreases d.len(),
{
    if d.len() > 0 {
        lemma_max_reading(d.drop_last());
        assert forall|k: int| 0 <= k < d.len() implies d[k] <= max_reading(d) by {
            if k < d.len() - 1 {
                assert(d[k] == d.drop_last()[k]);
            }
        }
        if max_reading(d.drop_last()) >= d.last() {
            let m = max_reading(d.drop_last()) as u32;
            let j = choose|j: int| 0 <= j < d.drop_last().len() && d.drop_last()[j] == m;
            assert(d[j] == m);
        } else {
            assert(d[d.len() - 1] == d.last());
        }
    }
}

/// The click track for counter readings (see `geiger_track`).
pub fn geiger(data: &[u32]) -> (r: Vec<i16>)
    requires
        data@.len() > 0,
        (max_reading(data@) + 1) * 1470 <= usize::MAX,
    ensures
        r@ == geiger_track(data@),
{
    proof {
        lemma_max_reading(data@);
    }
    let mut max: u32 = 0;
    let mut k: usize = 0;
    while k < data.len()
        invariant
            k <= data@.len(),
            data@.len() > 0,
            k == 0 ==> max == 0,
            k > 0 ==> max as int == max_reading(data@.take(k as int)),
        decreases data@.len() - k,
    {
        assert(data@.take(k + 1).drop_last() == data@.take(k as int));
        assert(data@.take(k + 1).last() == data@[k as int]);
        let ghost t = data@.take(k + 1);
        assert(max_reading(t) == if max_reading(t.drop_last()) >= t.last() {
            max_reading(t.drop_last())
        } else {
            t.last() as int
        });
        if k == 0 {
            assert(t.drop_last().len() == 0);
        }
        if k == 0 || data[k] > max {
            max = data[k];
        }
        k = k + 1;
    }
    assert(data@.take(data@.len() as int) == data@);
    let n = max as usize + 1;
    let mut seen: Vec<bool> = Vec::new();
    let mut i: usize = 0;
    while i < n
        invariant
            i <= n,
            seen@ == Seq::new(i as nat, |j: int| false),
        decreases n - i,
    {
        seen.push(false);
        i = i + 1;
        assert(seen@ =~= Seq::new(i as nat, |j: int| false));
    }
    let mut k: usize = 0;
    while k < data.len()
        invariant
            k <= data@.len(),
            n == max + 1,
            max as int == max_reading(data@),
            forall|t: int| 0 <= t < data@.len() ==> data@[t] <= max,
            seen@.len() == n,
            forall|v: int| 0 <= v < n ==> #[trigger] seen@[v] == data@.take(k as int).contains(v as u32),
        decreases data@.len() - k,
    {
        let v = data[k] as usize;
        let ghost s0 = seen@;
        seen.set(v, true);
        proof {
            assert forall|w: int| 0 <= w < n implies #[trigger] seen@[w] == data@.take(k + 1).contains(w as u32) by {
                let t = data@.take(k + 1);
                assert(t == data@.take(k as int).push(data@[k as int]));
                if data@.take(k as int).contains(w as u32) {
                    let j = choose|j: int| 0 <= j < k && data@.take(k as int)[j] == w as u32;
                    assert(t[j] == w as u32);
                }
                if t.contains(w as u32) && w != v {
                    let j = choose|j: int| 0 <= j < k + 1 && t[j] == w as u32;
                    assert(j < k);
                    assert(data@.take(k as int)[j] == w as u32);
                }
                if w == v {
                    assert(t[k as int] == w as u32);
                }
            }
        }
        k = k + 1;
    }
    assert(data@.take(data@.len() as int) == data@);
    assert forall|v: int| 0 <= v < n implies #[trigger] seen@[v] == data@.contains(v as u32) by {
        assert(seen@[v] == data@.take(data@.len() as int).contains(v as u32));
    }
    let total = n * 1470;
    let mut out: Vec<i16> = Vec::new();
    let mut p: usize = 0;
    while p < total
        invariant
            p <= total,
            total == n * 1470,
            n == max_reading(data@) + 1,
            seen@.len() == n,
            forall|v: int| 0 <= v < n ==> #[trigger] seen@[v] == data@.contains(v as u32),
            out@ == geiger_track(data@).take(p as int),
        decreases total - p,
    {
        let i = p / 1470;
        let x = p % 1470;
        let s: i16 = if seen[i] {
            32767
        } else {
            0
        };
        let v: i16 = if x % 2 == 1 {
            -s
        } else {
            s
        };
        out.push(v);
        p = p + 1;
        assert(out@ =~= geiger_track(data@).take(p as int));
    }
    assert(geiger_track(data@).take(total as int) =~= geiger_track(data@));
    out
}

/// For each place in a period, the sum of the samples at that place in
/// every whole period.
pub open spec fn period_sum(samples: Seq<i16>, period: int, j: int, chunks: int) -> int
    decreases chunks,
{
    if chunks <= 0 {
        0
    } else {
        period_sum(samples, period, j, chunks - 1) + samples[(chunks - 1) * period + j]
    }
}

/// Sums the samples at each place of a repeating `period` over every whole
/// period.
pub fn period_sums(samples: &[i16], period: usize) -> (r: Vec<i64>)
    requires
        period > 0,
        samples@.len() <= 0x1_0000_0000_0000,
    ensures
        r@ == Seq::new(period as nat, |j: int| period_sum(samples@, period as int, j, samples@.len() as int / (period as int)) as i64),
{
    let slen = samples.len();
    let chunks = slen / period;
    let mut out: Vec<i64> = Vec::new();
    let mut j: usize = 0;
    while j < period
        invariant
            j <= period,
            slen == samples@.len(),
            chunks == samples@.len() as int / (period as int),
            samples@.len() <= 0x1_0000_0000_0000,
            out@ == Seq::new(period as nat, |t: int| period_sum(samples@, period as int, t, chunks as int) as i64).take(j as int),
        decreases period - j,
    {
        let mut s: i64 = 0;
        let mut c: usize = 0;
        while c < chunks
            invariant
                c <= chunks,
                j < period,
                slen == samples@.len(),
                chunks == samples@.len() as int / (period as int),
                samples@.len() <= 0x1_0000_0000_0000,
                s as int == period_sum(samples@, period as int, j as int, c as int),
                -32768 * c <= s <= 32767 * c,
            decreases chunks - c,
        {
            assert(c * period + j < samples@.len()) by (nonlinear_arith)
                requires
                    c < chunks,
                    j < period,
                    chunks == samples@.len() as int / (period as int),
                    period > 0,
            ;
            assert(chunks <= 0x1_0000_0000_0000) by (nonlinear_arith)
                requires
                    chunks == samples@.len() as int / (period as int),
                    period > 0,
                    samples@.len() <= 0x1_0000_0000_0000,
            ;
            let ghost cp = c * period;
            assert(cp + j < samples@.len());
            let idx = c * period + j;
            s = s + samples[idx] as i64;
            c = c + 1;
        }
        out.push(s);
        j = j + 1;
        assert(out@ =~= Seq::new(period as nat, |t: int| period_sum(samples@, period as int, t, chunks as int) as i64).take(j as int));
    }
    assert(Seq::new(period as nat, |t: int| period_sum(samples@, period as int, t, chunks as int) as i64).take(period as int) =~= Seq::new(period as nat, |t: int| period_sum(samples@, period as int, t, chunks as int) as i64));
    out
}

} // verus!
