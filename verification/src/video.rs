//! Analyses of video frames held as plain pixel data: runs of evenly spaced
//! values, row interleaving and frame differences.
use vstd::prelude::*;
use crate::bigint::nat_decimal;
use crate::parse::{fields, int_in, parse_int, split_fields, views};
use crate::text::string_from_chars;

verus! {

/// The index of the first space in `l`, or -1.
pub open spec fn first_space(l: Seq<u8>) -> int
    decreases l.len(),
{
    if l.len() == 0 {
        -1
    } else if first_space(l.drop_last()) >= 0 {
        first_space(l.drop_last())
    } else if l.last() == 32 {
        l.len() - 1
    } else {
        -1
    }
}

/// A line of a pattern file: a position and a value, split at the first
/// space; `None` when either does not read.
pub open spec fn pattern_entry(l: Seq<u8>) -> Option<(usize, i32)> {
    let p = first_space(l);
    if p < 0 {
        None
    } else {
        match (int_in(l.take(p), false, 0, usize::MAX as int), int_in(l.skip(p + 1), true, i32::MIN as int, i32::MAX as int)) {
            (Some(a), Some(b)) => Some((a as usize, b as i32)),
            _ => None,
        }
    }
}

/// Every line as an entry, if all of them read.
pub open spec fn pattern_entries(ls: Seq<Seq<u8>>) -> Option<Seq<(usize, i32)>>
    decreases ls.len(),
{
    if ls.len() == 0 {
        Some(seq![])
    } else {
        match (pattern_entries(ls.drop_last()), pattern_entry(ls.last())) {
            (Some(e), Some(x)) => Some(e.push(x)),
            _ => None,
        }
    }
}

/// `m` zeros, each entry's value then written at its position in turn.
pub open spec fn fill_entries(e: Seq<(usize, i32)>, m: nat) -> Seq<i32>
    decreases e.len(),
{
    if e.len() == 0 {
        Seq::new(m, |j: int| 0i32)
    } else {
        fill_entries(e.drop_last(), m).update(e.last().0 as int, e.last().1)
    }
}

/// The values that a pattern file describes: its non-empty lines as
/// entries, placed in as many values as the last entry's position needs.
/// `None` when a line does not read, there is no line, or an entry lies
/// past the last one's position.
pub open spec fn pattern_values(text: Seq<u8>) -> Option<Seq<i32>> {
    match pattern_entries(fields(text, 10)) {
        Some(e) => if e.len() == 0 || e.last().0 == usize::MAX || exists|k: int|
            0 <= k < e.len() && e[k].0 > e.last().0 {
            None
        } else {
            Some(fill_entries(e, (e.last().0 + 1) as nat))
        },
        None => None,
    }
}

/// A run found by `pattern_search`: values at `start`, `start + step`, ...
/// up to `end` that change by `diff` each time; `conf` of its `len` steps
/// confirmed the difference.
#[derive(Clone, Copy, Debug, PartialEq, Eq)]
pub struct PatternRun {
    pub start: usize,
    pub end: usize,
    pub step: usize,
    pub diff: i32,
    pub conf: i32,
    pub len: i32,
}

/// The state of one scan along a progression of positions.
#[derive(Clone, Copy, Debug, PartialEq, Eq)]
pub struct RunState {
    pub cur: i32,
    pub cur_start: usize,
    pub len: i32,
    pub conf: i32,
    pub old: Option<i32>,
    pub unconf_row: i32,
    pub ignore: bool,
    pub last_i: usize,
}

/// The state before a scan.
pub open spec fn run_start() -> RunState {
    RunState {
        cur: i32::MIN,
        cur_start: usize::MAX,
        len: 0,
        conf: 0,
        old: None,
        unconf_row: 0,
        ignore: true,
        last_i: 0,
    }
}

/// Whether a run ending is reported: long enough and confirmed often
/// enough, with a difference, started where nothing is marked and the value
/// before it is not zero.
pub open spec fn dump_hit(
    data: Seq<i32>,
    occ: Seq<bool>,
    step: int,
    len: int,
    conf: int,
    cur: i32,
    cur_start: usize,
) -> bool {
    &&& ((len > 4 && conf >= (len * 2) / 3) || (len >= 4 && conf == len))
    &&& cur != i32::MIN
    &&& cur_start != usize::MAX
    &&& !occ[cur_start - step]
    &&& data[cur_start - step] != 0
}

/// `occ` with the first `count` positions from `b` on, `step` apart, marked.
pub open spec fn mark(occ: Seq<bool>, b: int, step: int, count: int) -> Seq<bool> {
    Seq::new(occ.len(), |j: int| occ[j] || (j >= b && (j - b) % step == 0 && (j - b) / step < count))
}

/// Ending the run: it is reported if `dump_hit`, and one longer than eight
/// marks its positions and two more.
pub open spec fn dump(
    data: Seq<i32>,
    occ: Seq<bool>,
    found: Seq<PatternRun>,
    step: int,
    len: int,
    conf: int,
    cur: i32,
    cur_start: usize,
    i: int,
) -> (Seq<bool>, Seq<PatternRun>) {
    if dump_hit(data, occ, step, len, conf, cur, cur_start) {
        let run = PatternRun {
            start: (cur_start - step) as usize,
            end: (i - step) as usize,
            step: step as usize,
            diff: cur,
            conf: conf as i32,
            len: len as i32,
        };
        (if len > 8 {
            mark(occ, cur_start - step, step, len + 2)
        } else {
            occ
        }, found.push(run))
    } else {
        (occ, found)
    }
}

/// One value of the scan, at position `i`. Differences wrap around.
pub open spec fn elem_step(
    data: Seq<i32>,
    step: int,
    occ: Seq<bool>,
    found: Seq<PatternRun>,
    st: RunState,
    i: int,
) -> (Seq<bool>, Seq<PatternRun>, RunState) {
    let x = data[i];
    let (occ1, found1, st1) = match st.old {
        Some(old1) => {
            let d = x.wrapping_sub(old1);
            if !st.ignore && (x == 0 || d == st.cur) {
                let hit = d == st.cur;
                (
                    occ,
                    found,
                    RunState {
                        cur: st.cur,
                        cur_start: st.cur_start,
                        len: (st.len + 1) as i32,
                        conf: if hit {
                            (st.conf + 1) as i32
                        } else {
                            st.conf
                        },
                        old: Some(old1.wrapping_sub(st.cur)),
                        unconf_row: if hit {
                            0
                        } else {
                            (st.unconf_row + 1) as i32
                        },
                        ignore: st.ignore,
                        last_i: st.last_i,
                    },
                )
            } else {
                let len = st.len - st.unconf_row;
                let (o2, f2) = dump(data, occ, found, step, len, st.conf as int, st.cur, st.cur_start, i);
                (
                    o2,
                    f2,
                    RunState {
                        cur: d,
                        cur_start: i as usize,
                        len: 0,
                        conf: 0,
                        old: Some(old1.wrapping_sub(d)),
                        unconf_row: st.unconf_row,
                        ignore: x == 0 || o2[i],
                        last_i: st.last_i,
                    },
                )
            }
        },
        None => (occ, found, st),
    };
    (
        occ1,
        found1,
        RunState {
            cur: st1.cur,
            cur_start: st1.cur_start,
            len: st1.len,
            conf: st1.conf,
            old: if x != 0 {
                Some(x)
            } else {
                st1.old
            },
            unconf_row: st1.unconf_row,
            ignore: st1.ignore,
            last_i: i as usize,
        },
    )
}

/// The scan from position `i` on, `step` apart, then the final ending of
/// the run at the last position scanned.
pub open spec fn scan_from(
    data: Seq<i32>,
    step: int,
    occ: Seq<bool>,
    found: Seq<PatternRun>,
    st: RunState,
    i: int,
) -> (Seq<bool>, Seq<PatternRun>)
    decreases if i >= data.len() {
        0
    } else {
        data.len() - i
    },
{
    if i >= data.len() || step <= 0 {
        dump(data, occ, found, step, st.len as int, st.conf as int, st.cur, st.cur_start, st.last_i as int)
    } else {
        let (o, f, s) = elem_step(data, step, occ, found, st, i);
        scan_from(data, step, o, f, s, i + step)
    }
}

/// The scans for every start below `step`, from `start` on.
pub open spec fn starts_from(data: Seq<i32>, step: int, occ: Seq<bool>, found: Seq<PatternRun>, start: int) -> (
    Seq<bool>,
    Seq<PatternRun>,
)
    decreases step - start,
{
    if start >= step || step <= 0 {
        (occ, found)
    } else {
        let (o, f) = scan_from(data, step, occ, found, run_start(), start);
        starts_from(data, step, o, f, start + 1)
    }
}

/// The scans for every step below the data's length, from `step` on.
pub open spec fn steps_from(data: Seq<i32>, occ: Seq<bool>, found: Seq<PatternRun>, step: int) -> (
    Seq<bool>,
    Seq<PatternRun>,
)
    decreases data.len() - step,
{
    if step >= data.len() {
        (occ, found)
    } else {
        let (o, f) = starts_from(data, step, occ, found, 0);
        steps_from(data, o, f, step + 1)
    }
}

/// The runs that `pattern_search` reports, in order.
pub open spec fn pattern_runs(data: Seq<i32>) -> Seq<PatternRun> {
    steps_from(data, Seq::new(data.len(), |j: int| false), seq![], 0).1
}

/// The scan state's bounds while a scan with `step` is at position `i` of
/// data of length `n`.
pub open spec fn state_ok(st: RunState, step: int, i: int, n: int) -> bool {
    &&& st.cur_start != usize::MAX ==> step <= st.cur_start <= st.last_i < i && st.last_i < n
    &&& -i <= st.len <= i
    &&& 0 <= st.conf <= i
    &&& 0 <= st.unconf_row <= i
    &&& st.old is Some ==> step <= i
}

fn do_dump(
    data: &[i32],
    occ: &mut Vec<bool>,
    found: &mut Vec<PatternRun>,
    step: usize,
    len: i32,
    conf: i32,
    cur: i32,
    cur_start: usize,
    i: usize,
)
    requires
        old(occ)@.len() == data@.len(),
        step > 0,
        cur_start != usize::MAX ==> step <= cur_start <= i < data@.len(),
        -0x3fff_ffff <= len <= 0x3fff_ffff,
    ensures
        (final(occ)@, final(found)@) == dump(
            data@,
            old(occ)@,
            old(found)@,
            step as int,
            len as int,
            conf as int,
            cur,
            cur_start,
            i as int,
        ),
        final(occ)@.len() == data@.len(),
{
    if ((len > 4 && conf >= (len * 2) / 3) || (len >= 4 && conf == len)) && cur != i32::MIN && cur_start
        != usize::MAX && !occ[cur_start - step] && data[cur_start - step] != 0 {
        let b = cur_start - step;
        found.push(PatternRun { start: b, end: i - step, step, diff: cur, conf, len });
        if len > 8 {
            let ghost o0 = occ@;
            let count = len as usize + 2;
            let n = occ.len();
            let mut j = b;
            let mut k: usize = 0;
            while k < count && j < n
                invariant
                    occ@.len() == o0.len(),
                    o0.len() == data@.len(),
                    n == o0.len(),
                    step > 0,
                    b <= j <= n,
                    j < n ==> j == b + k * step,
                    j == n ==> b + k * step >= n,
                    k <= count,
                    forall|t: int|
                        0 <= t < o0.len() ==> #[trigger] occ@[t] == (o0[t] || (t >= b && (t - b) % (step as int)
                            == 0 && (t - b) / (step as int) < k)),
                decreases count - k,
            {
                proof {
                    assert forall|t: int| 0 <= t < o0.len() implies #[trigger] occ@.update(j as int, true)[t] == (
                    o0[t] || (t >= b && (t - b) % (step as int) == 0 && (t - b) / (step as int) < k + 1)) by {
                        lemma_progression(t - b, step as int, k as int);
                    }
                }
                occ.set(j, true);
                assert(b + (k + 1) * step == j + step) by (nonlinear_arith)
                    requires
                        j == b + k * step,
                ;
                k = k + 1;
                if step < n - j {
                    j = j + step;
                } else {
                    j = n;
                }
            }
            proof {
                lemma_mark_done(o0, occ@, b as int, step as int, k as int, count as int);
            }
        }
    }
}

/// A reported run is long enough and confirmed often enough: at least
/// four steps all confirmed, or more than four with at least two thirds
/// confirmed; it has a difference and a positive step.
pub open spec fn run_ok(r: PatternRun) -> bool {
    &&& (r.len > 4 && r.conf >= (r.len * 2) / 3) || (r.len >= 4 && r.conf == r.len)
    &&& r.diff != i32::MIN
    &&& r.step >= 1
}

/// Every run in `f` is `run_ok`.
pub open spec fn runs_ok(f: Seq<PatternRun>) -> bool {
    forall|k: int| 0 <= k < f.len() ==> run_ok(#[trigger] f[k])
}

proof fn lemma_dump_runs(
    data: Seq<i32>,
    occ: Seq<bool>,
    found: Seq<PatternRun>,
    step: int,
    len: int,
    conf: int,
    cur: i32,
    cur_start: usize,
    i: int,
)
    requires
        runs_ok(found),
        step >= 1,
        step <= usize::MAX,
        -0x4000_0000 <= len <= 0x4000_0000,
        0 <= conf <= 0x4000_0000,
        occ.len() == data.len(),
    ensures
        runs_ok(dump(data, occ, found, step, len, conf, cur, cur_start, i).1),
        dump(data, occ, found, step, len, conf, cur, cur_start, i).0.len() == data.len(),
{
    if dump_hit(data, occ, step, len, conf, cur, cur_start) {
        let f2 = dump(data, occ, found, step, len, conf, cur, cur_start, i).1;
        assert forall|k: int| 0 <= k < f2.len() implies run_ok(#[trigger] f2[k]) by {
            if k < found.len() {
                assert(f2[k] == found[k]);
            }
        }
    }
}

proof fn lemma_scan_runs(data: Seq<i32>, step: int, occ: Seq<bool>, found: Seq<PatternRun>, st: RunState, i: int)
    requires
        runs_ok(found),
        0 < step <= data.len(),
        data.len() <= 0x1fff_ffff,
        0 <= i < data.len() + step,
        occ.len() == data.len(),
        state_ok(st, step, i, data.len() as int),
    ensures
        runs_ok(scan_from(data, step, occ, found, st, i).1),
    decreases if i >= data.len() {
        0
    } else {
        data.len() - i
    },
{
    if i >= data.len() {
        lemma_dump_runs(data, occ, found, step, st.len as int, st.conf as int, st.cur, st.cur_start, st.last_i as int);
    } else {
        let (o, f, s) = elem_step(data, step, occ, found, st, i);
        match st.old {
            Some(old1) => {
                let x = data[i];
                let d = x.wrapping_sub(old1);
                if !(!st.ignore && (x == 0 || d == st.cur)) {
                    lemma_dump_runs(data, occ, found, step, st.len - st.unconf_row, st.conf as int, st.cur, st.cur_start, i);
                }
            },
            None => {},
        }
        assert(state_ok(s, step, i + step, data.len() as int));
        lemma_scan_runs(data, step, o, f, s, i + step);
    }
}

proof fn lemma_starts_runs(data: Seq<i32>, step: int, occ: Seq<bool>, found: Seq<PatternRun>, start: int)
    requires
        runs_ok(found),
        0 < step <= data.len(),
        data.len() <= 0x1fff_ffff,
        0 <= start,
        occ.len() == data.len(),
    ensures
        runs_ok(starts_from(data, step, occ, found, start).1),
        starts_from(data, step, occ, found, start).0.len() == data.len(),
    decreases step - start,
{
    if start < step {
        lemma_scan_runs(data, step, occ, found, run_start(), start);
        lemma_scan_len(data, step, occ, found, run_start(), start);
        let (o, f) = scan_from(data, step, occ, found, run_start(), start);
        lemma_starts_runs(data, step, o, f, start + 1);
    }
}

proof fn lemma_scan_len(data: Seq<i32>, step: int, occ: Seq<bool>, found: Seq<PatternRun>, st: RunState, i: int)
    requires
        step > 0,
        occ.len() == data.len(),
    ensures
        scan_from(data, step, occ, found, st, i).0.len() == data.len(),
    decreases if i >= data.len() {
        0
    } else {
        data.len() - i
    },
{
    if i < data.len() {
        let (o, f, s) = elem_step(data, step, occ, found, st, i);
        lemma_elem_len(data, step, occ, found, st, i);
        lemma_scan_len(data, step, o, f, s, i + step);
    } else {
        lemma_dump_len(data, occ, found, step, st.len as int, st.conf as int, st.cur, st.cur_start, st.last_i as int);
    }
}

proof fn lemma_dump_len(
    data: Seq<i32>,
    occ: Seq<bool>,
    found: Seq<PatternRun>,
    step: int,
    len: int,
    conf: int,
    cur: i32,
    cur_start: usize,
    i: int,
)
    requires
        occ.len() == data.len(),
    ensures
        dump(data, occ, found, step, len, conf, cur, cur_start, i).0.len() == data.len(),
{
}

proof fn lemma_elem_len(data: Seq<i32>, step: int, occ: Seq<bool>, found: Seq<PatternRun>, st: RunState, i: int)
    requires
        occ.len() == data.len(),
    ensures
        elem_step(data, step, occ, found, st, i).0.len() == data.len(),
{
    match st.old {
        Some(old1) => {
            lemma_dump_len(data, occ, found, step, st.len - st.unconf_row, st.conf as int, st.cur, st.cur_start, i);
        },
        None => {},
    }
}

/// Every run that `pattern_search` reports (for data it accepts) is long
/// enough and confirmed often enough (see `run_ok`).
pub proof fn lemma_pattern_runs_ok(data: Seq<i32>)
    requires
        data.len() <= 0x1fff_ffff,
    ensures
        runs_ok(pattern_runs(data)),
{
    lemma_steps_runs(data, Seq::new(data.len(), |j: int| false), seq![], 0);
}

proof fn lemma_steps_runs(data: Seq<i32>, occ: Seq<bool>, found: Seq<PatternRun>, step: int)
    requires
        runs_ok(found),
        data.len() <= 0x1fff_ffff,
        0 <= step,
        occ.len() == data.len(),
    ensures
        runs_ok(steps_from(data, occ, found, step).1),
    decreases data.len() - step,
{
    if step < data.len() {
        if step > 0 {
            lemma_starts_runs(data, step, occ, found, 0);
        }
        let (o, f) = starts_from(data, step, occ, found, 0);
        lemma_steps_runs(data, o, f, step + 1);
    }
}

fn scan_elem(
    data: &[i32],
    step: usize,
    occ: &mut Vec<bool>,
    found: &mut Vec<PatternRun>,
    st: RunState,
    i: usize,
) -> (r: RunState)
    requires
        old(occ)@.len() == data@.len(),
        data@.len() <= 0x1fff_ffff,
        0 < step,
        i < data@.len(),
        state_ok(st, step as int, i as int, data@.len() as int),
    ensures
        (final(occ)@, final(found)@, r) == elem_step(data@, step as int, old(occ)@, old(found)@, st, i as int),
        final(occ)@.len() == data@.len(),
        state_ok(r, step as int, i + step, data@.len() as int),
{
    let x = data[i];
    let mut st1 = st;
    match st.old {
        Some(old1) => {
            let d = x.wrapping_sub(old1);
            if !st.ignore && (x == 0 || d == st.cur) {
                let hit = d == st.cur;
                st1 = RunState {
                    cur: st.cur,
                    cur_start: st.cur_start,
                    len: st.len + 1,
                    conf: if hit {
                        st.conf + 1
                    } else {
                        st.conf
                    },
                    old: Some(old1.wrapping_sub(st.cur)),
                    unconf_row: if hit {
                        0
                    } else {
                        st.unconf_row + 1
                    },
                    ignore: st.ignore,
                    last_i: st.last_i,
                };
            } else {
                let len = st.len - st.unconf_row;
                do_dump(data, occ, found, step, len, st.conf, st.cur, st.cur_start, i);
                let ign = x == 0 || occ[i];
                st1 = RunState {
                    cur: d,
                    cur_start: i,
                    len: 0,
                    conf: 0,
                    old: Some(old1.wrapping_sub(d)),
                    unconf_row: st.unconf_row,
                    ignore: ign,
                    last_i: st.last_i,
                };
            }
        },
        None => {},
    }
    RunState {
        cur: st1.cur,
        cur_start: st1.cur_start,
        len: st1.len,
        conf: st1.conf,
        old: if x != 0 {
            Some(x)
        } else {
            st1.old
        },
        unconf_row: st1.unconf_row,
        ignore: st1.ignore,
        last_i: i,
    }
}

/// Searches `data` for runs of values that change by a constant amount,
/// over every step below its length and every start below the step; a
/// reported run longer than eight marks its positions so that no later run
/// starts there. The runs come in the order they are found.
///
/// The run counters are `i32`. A run's length and its unconfirmed tail are
/// bounded by the position reached, which stays below twice the length of
/// `data`; a run ends with their difference, which is doubled when the run
/// is judged. Below 2^29 values, all of these stay inside `i32`.
pub fn pattern_search(data: &[i32]) -> (r: Vec<PatternRun>)
    requires
        data@.len() <= 0x1fff_ffff,
    ensures
        r@ == pattern_runs(data@),
{
    let n = data.len();
    let mut occ: Vec<bool> = Vec::new();
    let mut k: usize = 0;
    while k < n
        invariant
            k <= n,
            occ@ == Seq::new(k as nat, |j: int| false),
        decreases n - k,
    {
        occ.push(false);
        k = k + 1;
        assert(occ@ =~= Seq::new(k as nat, |j: int| false));
    }
    let mut found: Vec<PatternRun> = Vec::new();
    assert(occ@ =~= Seq::new(data@.len(), |j: int| false));
    let ghost goal = steps_from(data@, occ@, found@, 0);
    let mut step: usize = 0;
    while step < n
        invariant
            n == data@.len(),
            n <= 0x1fff_ffff,
            step <= n,
            occ@.len() == n,
            steps_from(data@, occ@, found@, step as int) == goal,
        decreases n - step,
    {
        let ghost g2 = starts_from(data@, step as int, occ@, found@, 0);
        assert(steps_from(data@, occ@, found@, step as int) == steps_from(data@, g2.0, g2.1, step + 1));
        let mut start: usize = 0;
        while start < step
            invariant
                n == data@.len(),
                n <= 0x1fff_ffff,
                start <= step,
                step < n,
                occ@.len() == n,
                starts_from(data@, step as int, occ@, found@, start as int) == g2,
            decreases step - start,
        {
            let ghost g3 = scan_from(data@, step as int, occ@, found@, run_start(), start as int);
            assert(starts_from(data@, step as int, occ@, found@, start as int) == starts_from(
                data@,
                step as int,
                g3.0,
                g3.1,
                start + 1,
            ));
            let mut st = RunState {
                cur: i32::MIN,
                cur_start: usize::MAX,
                len: 0,
                conf: 0,
                old: None,
                unconf_row: 0,
                ignore: true,
                last_i: 0,
            };
            let mut i = start;
            while i < n
                invariant
                    n == data@.len(),
                    n <= 0x1fff_ffff,
                    0 < step < n,
                    i < n + step,
                    occ@.len() == n,
                    state_ok(st, step as int, i as int, n as int),
                    scan_from(data@, step as int, occ@, found@, st, i as int) == g3,
                decreases n + step - i,
            {
                st = scan_elem(data, step, &mut occ, &mut found, st, i);
                i = i + step;
            }
            do_dump(data, &mut occ, &mut found, step, st.len, st.conf, st.cur, st.cur_start, st.last_i);
            start = start + 1;
        }
        step = step + 1;
    }
    found
}

fn find_space(l: &Vec<u8>) -> (r: Option<usize>)
    ensures
        match r {
            Some(p) => first_space(l@) == p as int && p < l@.len(),
            None => first_space(l@) < 0,
        },
{
    let mut i: usize = 0;
    while i < l.len()
        invariant
            i <= l@.len(),
            first_space(l@.take(i as int)) < 0,
        decreases l@.len() - i,
    {
        assert(l@.take(i + 1).drop_last() == l@.take(i as int));
        if l[i] == 32 {
            proof {
                lemma_first_space_prefix(l@, i + 1);
            }
            assert(first_space(l@.take(i + 1)) == i);
            return Some(i);
        }
        i = i + 1;
    }
    assert(l@.take(l@.len() as int) == l@);
    None
}

proof fn lemma_first_space_prefix(l: Seq<u8>, k: int)
    requires
        0 <= k <= l.len(),
        first_space(l.take(k)) >= 0,
    ensures
        first_space(l) == first_space(l.take(k)),
    decreases l.len() - k,
{
    if k < l.len() {
        assert(l.take(k + 1).drop_last() == l.take(k));
        lemma_first_space_prefix(l, k + 1);
    } else {
        assert(l.take(k) == l);
    }
}

fn read_entry(l: &Vec<u8>) -> (r: Option<(usize, i32)>)
    ensures
        r == pattern_entry(l@),
{
    let p = match find_space(l) {
        Some(p) => p,
        None => return None,
    };
    let n = l.len();
    let a = vstd::slice::slice_subrange(l.as_slice(), 0, p);
    let b = vstd::slice::slice_subrange(l.as_slice(), p + 1, n);
    assert(a@ == l@.take(p as int));
    assert(b@ == l@.skip(p + 1));
    let av = parse_int(a, false, 0, usize::MAX as i128);
    let bv = parse_int(b, true, i32::MIN as i128, i32::MAX as i128);
    match (av, bv) {
        (Some(x), Some(y)) => Some((x as usize, y as i32)),
        _ => None,
    }
}

/// Reads a pattern file (see `pattern_values`).
pub fn parse_patterns(text: &[u8]) -> (r: Option<Vec<i32>>)
    ensures
        match r {
            Some(v) => pattern_values(text@) == Some(v@),
            None => pattern_values(text@) is None,
        },
{
    let lines = split_fields(text, 10);
    let ghost ls = fields(text@, 10);
    let mut entries: Vec<(usize, i32)> = Vec::new();
    let mut i: usize = 0;
    while i < lines.len()
        invariant
            i <= lines@.len(),
            views(lines@) == ls,
            ls == fields(text@, 10),
            pattern_entries(ls.take(i as int)) == Some(entries@),
        decreases lines@.len() - i,
    {
        assert(ls.take(i + 1).drop_last() == ls.take(i as int));
        assert(ls[i as int] == lines@[i as int]@);
        match read_entry(&lines[i]) {
            Some(e) => entries.push(e),
            None => {
                proof {
                    assert(pattern_entry(ls[i as int]) is None);
                    assert(ls.take(i + 1).last() == ls[i as int]);
                    assert(pattern_entries(ls.take(i + 1)) is None);
                    lemma_entries_fail(ls, i + 1);
                    assert(pattern_entries(ls) is None);
                }
                return None;
            },
        }
        i = i + 1;
    }
    assert(ls.take(lines@.len() as int) == ls);
    let ne = entries.len();
    if ne == 0 {
        return None;
    }
    let last = entries[ne - 1].0;
    if last == usize::MAX {
        return None;
    }
    let mut k: usize = 0;
    while k < ne
        invariant
            k <= ne,
            ne == entries@.len(),
            last == entries@[ne - 1].0,
            ls == fields(text@, 10),
            pattern_entries(ls) == Some(entries@),
            forall|t: int| 0 <= t < k ==> entries@[t].0 <= last,
        decreases ne - k,
    {
        if entries[k].0 > last {
            assert(entries@[k as int].0 > entries@.last().0);
            assert(pattern_entries(ls) == Some(entries@));
            return None;
        }
        k = k + 1;
    }
    let m = last + 1;
    let mut x: Vec<i32> = Vec::new();
    let mut j: usize = 0;
    while j < m
        invariant
            j <= m,
            x@ == Seq::new(j as nat, |t: int| 0i32),
        decreases m - j,
    {
        x.push(0);
        j = j + 1;
        assert(x@ =~= Seq::new(j as nat, |t: int| 0i32));
    }
    let mut k: usize = 0;
    while k < ne
        invariant
            k <= ne,
            ne == entries@.len(),
            m == last + 1,
            forall|t: int| 0 <= t < ne ==> entries@[t].0 <= last,
            x@ == fill_entries(entries@.take(k as int), m as nat),
            x@.len() == m,
        decreases ne - k,
    {
        proof {
            lemma_fill_len(entries@.take(k as int), m as nat);
        }
        assert(entries@.take(k + 1).drop_last() == entries@.take(k as int));
        let (pos, val) = entries[k];
        x.set(pos, val);
        k = k + 1;
    }
    assert(entries@.take(ne as int) == entries@);
    Some(x)
}

proof fn lemma_entries_fail(ls: Seq<Seq<u8>>, k: int)
    requires
        1 <= k <= ls.len(),
        pattern_entries(ls.take(k)) is None,
    ensures
        pattern_entries(ls) is None,
    decreases ls.len() - k,
{
    if k < ls.len() {
        assert(ls.take(k + 1).drop_last() == ls.take(k));
        lemma_entries_fail(ls, k + 1);
    } else {
        assert(ls.take(k) == ls);
    }
}

proof fn lemma_fill_len(e: Seq<(usize, i32)>, m: nat)
    requires
        forall|t: int| 0 <= t < e.len() ==> e[t].0 < m,
    ensures
        fill_entries(e, m).len() == m,
    decreases e.len(),
{
    if e.len() > 0 {
        lemma_fill_len(e.drop_last(), m);
    }
}

proof fn lemma_progression(u: int, step: int, k: int)
    requires
        step > 0,
        k >= 0,
    ensures
        (u >= 0 && u % step == 0 && u / step < k + 1) == ((u >= 0 && u % step == 0 && u / step < k) || u
            == k * step),
{
    if u >= 0 && u % step == 0 {
        vstd::arithmetic::div_mod::lemma_fundamental_div_mod(u, step);
        if u == k * step {
            vstd::arithmetic::div_mod::lemma_div_multiples_vanish(k, step);
        }
        if u / step == k {
            assert(u == k * step) by (nonlinear_arith)
                requires
                    u == step * (u / step) + u % step,
                    u % step == 0,
                    u / step == k,
            ;
        }
    }
    if u == k * step && k >= 0 {
        vstd::arithmetic::div_mod::lemma_mod_multiples_basic(k, step);
        vstd::arithmetic::div_mod::lemma_div_multiples_vanish(k, step);
        assert(u >= 0) by (nonlinear_arith)
            requires
                u == k * step,
                k >= 0,
                step > 0,
        ;
    }
}

proof fn lemma_mark_done(o0: Seq<bool>, occ: Seq<bool>, b: int, step: int, k: int, count: int)
    requires
        step > 0,
        0 <= k <= count,
        occ.len() == o0.len(),
        k == count || b + k * step >= o0.len(),
        forall|t: int|
            0 <= t < o0.len() ==> #[trigger] occ[t] == (o0[t] || (t >= b && (t - b) % step == 0 && (t - b) / step
                < k)),
    ensures
        occ == mark(o0, b, step, count),
{
    assert forall|t: int| 0 <= t < o0.len() implies occ[t] == mark(o0, b, step, count)[t] by {
        if t >= b && (t - b) % step == 0 && (t - b) / step < count && (t - b) / step >= k {
            vstd::arithmetic::div_mod::lemma_fundamental_div_mod(t - b, step);
            assert(t - b >= k * step) by (nonlinear_arith)
                requires
                    t - b == step * ((t - b) / step) + (t - b) % step,
                    (t - b) % step == 0,
                    (t - b) / step >= k,
                    step > 0,
            ;
        }
    }
    assert(occ =~= mark(o0, b, step, count));
}


/// Each byte of `old` XOR the byte of `frame` at the same place, as far
/// as `frame` goes.
pub open spec fn xored(old: Seq<u8>, frame: Seq<u8>) -> Seq<u8> {
    Seq::new(old.len(), |i: int| if i < frame.len() {
        old[i] ^ frame[i]
    } else {
        old[i]
    })
}

/// XORs `frame` into `acc`, byte by byte, as far as both go.
pub fn xor_into(acc: &mut Vec<u8>, frame: &[u8])
    ensures
        final(acc)@ == xored(old(acc)@, frame@),
{
    let ghost o0 = acc@;
    let mut i: usize = 0;
    let n = acc.len();
    while i < n && i < frame.len()
        invariant
            n == o0.len(),
            acc@.len() == n,
            i <= n,
            i <= frame@.len(),
            forall|t: int| 0 <= t < n ==> #[trigger] acc@[t] == (if t < i {
                o0[t] ^ frame@[t]
            } else {
                o0[t]
            }),
        decreases n - i,
    {
        let v = acc[i] ^ frame[i];
        acc.set(i, v);
        i = i + 1;
    }
    assert(i == n || i == frame@.len());
    assert forall|t: int| 0 <= t < n implies acc@[t] == xored(o0, frame@)[t] by {
        assert(acc@[t] == (if t < i {
            o0[t] ^ frame@[t]
        } else {
            o0[t]
        }));
    }
    assert(acc@ =~= xored(o0, frame@));
}

/// The byte at place `p` of a frame whose rows (of `row_len` bytes) are
/// XORed with the row `n` above: in each of the `n` interleaved pictures
/// of `height / n` rows, every row but the first differs from the one
/// before it; the rest is zero.
pub open spec fn why_value(frame: Seq<u8>, row_len: int, height: int, n: int, p: int) -> u8 {
    let r = p / row_len;
    let c = p % row_len;
    if n <= r < (height / n) * n {
        frame[(r - n) * row_len + c] ^ frame[r * row_len + c]
    } else {
        0
    }
}

/// The frame of `height` rows of `row_len` bytes, taken apart into `n`
/// interleaved pictures, each row XORed with the row before it in its
/// picture (see `why_value`).
pub fn why_candles_frame(frame: &[u8], row_len: usize, height: usize, n: usize) -> (r: Vec<u8>)
    requires
        n > 0,
        row_len > 0,
        frame@.len() == row_len * height,
    ensures
        r@ == Seq::new(frame@.len(), |p: int| why_value(frame@, row_len as int, height as int, n as int, p)),
{
    let total = frame.len();
    let q = height / n;
    assert(q * n <= height) by (nonlinear_arith)
        requires
            q == height / n,
            n > 0,
    ;
    let hn = q * n;
    let mut out: Vec<u8> = Vec::new();
    let mut p: usize = 0;
    while p < total
        invariant
            p <= total,
            total == frame@.len(),
            total == row_len * height,
            row_len > 0,
            n > 0,
            hn == (height / n) * n,
            hn <= height,
            out@ == Seq::new(p as nat, |q: int| why_value(frame@, row_len as int, height as int, n as int, q)),
        decreases total - p,
    {
        let r = p / row_len;
        let c = p % row_len;
        proof {
            vstd::arithmetic::div_mod::lemma_fundamental_div_mod(p as int, row_len as int);
        }
        let v = if n <= r && r < hn {
            assert(r * row_len + c == p) by (nonlinear_arith)
                requires
                    p == row_len * r + c,
            ;
            assert((r - n) * row_len + c == p - n * row_len) by (nonlinear_arith)
                requires
                    p == row_len * r + c,
            ;
            assert(n * row_len <= r * row_len) by (nonlinear_arith)
                requires
                    n <= r,
            ;
            frame[p - n * row_len] ^ frame[p]
        } else {
            0
        };
        out.push(v);
        p = p + 1;
        assert(out@ =~= Seq::new(p as nat, |q: int| why_value(frame@, row_len as int, height as int, n as int, q)));
    }
    out
}

/// Every `n`-th row from row `ofs` on, as many as `height / n`; a row past
/// the frame's end is zero.
pub open spec fn picked_rows(frame: Seq<u8>, row_len: int, height: int, n: int, ofs: int) -> Seq<u8> {
    Seq::new(
        ((height / n) * row_len) as nat,
        |p: int|
            {
                let k = p / row_len;
                let src = ofs + k * n;
                if src < height {
                    frame[src * row_len + p % row_len]
                } else {
                    0
                }
            },
    )
}

/// Every `n`-th row of the frame from row `ofs` on (see `picked_rows`).
pub fn pick_rows(frame: &[u8], row_len: usize, height: usize, n: usize, ofs: usize) -> (r: Vec<u8>)
    requires
        n > 0,
        frame@.len() == row_len * height,
    ensures
        r@ == picked_rows(frame@, row_len as int, height as int, n as int, ofs as int),
{
    let rows = height / n;
    let flen = frame.len();
    assert(rows * row_len <= flen) by (nonlinear_arith)
        requires
            rows == height / n,
            n > 0,
            flen == row_len * height,
    ;
    let total = rows * row_len;
    let mut out: Vec<u8> = Vec::new();
    let mut p: usize = 0;
    while p < total
        invariant
            p <= total,
            total == rows * row_len,
            rows == height / n,
            n > 0,
            frame@.len() == row_len * height,
            flen == frame@.len(),
            out@ == picked_rows(frame@, row_len as int, height as int, n as int, ofs as int).take(p as int),
        decreases total - p,
    {
        assert(row_len > 0) by (nonlinear_arith)
            requires
                p < total,
                total == rows * row_len,
        ;
        let k = p / row_len;
        let c = p % row_len;
        proof {
            vstd::arithmetic::div_mod::lemma_fundamental_div_mod(p as int, row_len as int);
            assert(k < rows) by (nonlinear_arith)
                requires
                    p == row_len * k + c,
                    p < rows * row_len,
                    0 <= c,
            ;
            assert(k * n <= height) by (nonlinear_arith)
                requires
                    k < rows,
                    rows == height / n,
                    n > 0,
            ;
        }
        let v = if ofs < height && k * n < height - ofs {
            let src = ofs + k * n;
            assert(src * row_len + c < flen) by (nonlinear_arith)
                requires
                    src < height,
                    c < row_len,
                    flen == row_len * height,
            ;
            frame[src * row_len + c]
        } else {
            0
        };
        out.push(v);
        p = p + 1;
        assert(out@ =~= picked_rows(frame@, row_len as int, height as int, n as int, ofs as int).take(p as int));
    }
    assert(picked_rows(frame@, row_len as int, height as int, n as int, ofs as int).take(total as int) =~= picked_rows(
        frame@,
        row_len as int,
        height as int,
        n as int,
        ofs as int,
    ));
    out
}

/// The sum, over the first `c` bytes of rows `a` and `b`, of their XOR.
pub open spec fn row_xor_sum(f: Seq<u8>, row_len: int, a: int, b: int, c: int) -> int
    decreases c,
{
    if c <= 0 {
        0
    } else {
        row_xor_sum(f, row_len, a, b, c - 1) + (f[a * row_len + c - 1] ^ f[b * row_len + c - 1]) as int
    }
}

/// The sum of `row_xor_sum` over the rows from `n` below `r`, each with the
/// row `n` above it.
pub open spec fn cycle_total(f: Seq<u8>, row_len: int, n: int, r: int) -> int
    decreases r,
{
    if r <= n || r <= 0 {
        0
    } else {
        cycle_total(f, row_len, n, r - 1) + row_xor_sum(f, row_len, r - 1 - n, r - 1, row_len)
    }
}

/// How much the frame changes between rows `n` apart, per interleaved
/// picture, for each `n` from 1 to 255.
pub open spec fn cycle_sums_spec(f: Seq<u8>, row_len: int, height: int) -> Seq<u64> {
    Seq::new(255, |k: int| (cycle_total(f, row_len, k + 1, height) / (k + 1)) as u64)
}

proof fn lemma_row_xor_sum_bound(f: Seq<u8>, row_len: int, a: int, b: int, c: int)
    ensures
        0 <= row_xor_sum(f, row_len, a, b, c) <= 255 * (if c < 0 {
            0
        } else {
            c
        }),
    decreases c,
{
    if c > 0 {
        lemma_row_xor_sum_bound(f, row_len, a, b, c - 1);
    }
}

proof fn lemma_cycle_total_bound(f: Seq<u8>, row_len: int, n: int, r: int)
    requires
        row_len >= 0,
        n >= 1,
    ensures
        0 <= cycle_total(f, row_len, n, r) <= 255 * row_len * (if r < 0 {
            0
        } else {
            r
        }),
    decreases r,
{
    if r > n {
        lemma_cycle_total_bound(f, row_len, n, r - 1);
        lemma_row_xor_sum_bound(f, row_len, r - 1 - n, r - 1, row_len);
        assert(255 * row_len * (r - 1) + 255 * row_len == 255 * row_len * r) by (nonlinear_arith);
    } else if r >= 0 {
        assert(255 * row_len * r >= 0) by (nonlinear_arith)
            requires
                r >= 0,
                row_len >= 0,
        ;
    }
}

/// For each `n` from 1 to 255, the sum over the rows from `n` on of how
/// many bits differ... more exactly, of the XOR of each byte with the byte
/// `n` rows above, divided by `n` (see `cycle_sums_spec`). A frame with
/// between 1 and 509 rows is not rated: some interleaved picture would have
/// a single row. Nor is one with empty rows.
pub fn cycle_sums(frame: &[u8], row_len: usize, height: usize) -> (r: Vec<u64>)
    requires
        row_len > 0,
        frame@.len() == row_len * height,
        255 * frame@.len() <= u64::MAX,
        height == 0 || height >= 510,
    ensures
        r@ == cycle_sums_spec(frame@, row_len as int, height as int),
{
    let mut out: Vec<u64> = Vec::new();
    let flen = frame.len();
    let mut n: usize = 1;
    while n < 256
        invariant
            1 <= n <= 256,
            flen == frame@.len(),
            frame@.len() == row_len * height,
            255 * frame@.len() <= u64::MAX,
            out@ == cycle_sums_spec(frame@, row_len as int, height as int).take(n - 1),
        decreases 256 - n,
    {
        let mut sum: u64 = 0;
        let mut r: usize = n;
        while r < height
            invariant
                n <= r <= height || (height < n && r == n),
                1 <= n < 256,
                flen == frame@.len(),
                frame@.len() == row_len * height,
                255 * frame@.len() <= u64::MAX,
                sum as int == cycle_total(frame@, row_len as int, n as int, r as int),
            decreases height - r,
        {
            assert((r + 1) * row_len <= flen) by (nonlinear_arith)
                requires
                    r < height,
                    flen == row_len * height,
            ;
            assert(r * row_len + row_len == (r + 1) * row_len) by (nonlinear_arith);
            assert((r - n) * row_len <= r * row_len) by (nonlinear_arith)
                requires
                    n <= r,
            ;
            let a = (r - n) * row_len;
            let b = r * row_len;
            assert(row_len <= frame@.len()) by (nonlinear_arith)
                requires
                    r < height,
                    frame@.len() == row_len * height,
            ;
            proof {
                assert(a + n * row_len == b) by (nonlinear_arith)
                    requires
                        a == (r - n) * row_len,
                        b == r * row_len,
                        n <= r,
                ;
                lemma_cycle_total_bound(frame@, row_len as int, n as int, r + 1);
                assert(255 * row_len * (r + 1) <= 255 * frame@.len()) by (nonlinear_arith)
                    requires
                        r + 1 <= height,
                        frame@.len() == row_len * height,
                ;
            }
            let mut c: usize = 0;
            let mut s: u64 = 0;
            while c < row_len
                invariant
                    c <= row_len,
                    a == (r - n) * row_len,
                    b == r * row_len,
                    a + n * row_len == b,
                    flen == frame@.len(),
                    b + row_len <= flen,
                    s as int == row_xor_sum(frame@, row_len as int, r - n, r as int, c as int),
                    s <= 255 * c,
                    255 * frame@.len() <= u64::MAX,
                    row_len <= frame@.len(),
                decreases row_len - c,
            {
                assert(((r - n) * row_len + c) == a + c);
                assert(r * row_len + c == b + c);
                assert(s + 255 <= u64::MAX && s + 255 <= 255 * (c + 1)) by (nonlinear_arith)
                    requires
                        s <= 255 * c,
                        c < row_len,
                        row_len <= frame@.len(),
                        255 * frame@.len() <= u64::MAX,
                ;
                let x: u8 = frame[a + c] ^ frame[b + c];
                let v = x as u64;
                assert(v <= 255);
                s = s + v;
                c = c + 1;
            }
            proof {
                lemma_row_xor_sum_bound(frame@, row_len as int, r - n, r as int, row_len as int);
            }
            sum = sum + s;
            r = r + 1;
        }
        proof {
            if height < n {
                assert(cycle_total(frame@, row_len as int, n as int, height as int) == 0);
            }
            assert(r == height || height < n);
            if height < n {
                assert(cycle_total(frame@, row_len as int, n as int, n as int) == 0);
            }
        }
        out.push(sum / (n as u64));
        n = n + 1;
        assert(out@ =~= cycle_sums_spec(frame@, row_len as int, height as int).take(n - 1));
    }
    out
}

/// What `image::imageops::resize` with `FilterType::Nearest` makes of an
/// RGB image of `w` × `h` pixels (row-major bytes) at `nw` × `nh`.
pub uninterp spec fn nearest_rgb(pixels: Seq<u8>, w: u32, h: u32, nw: u32, nh: u32) -> Seq<u8>;

/// `image::imageops::resize` with `FilterType::Nearest` on an RGB image: the
/// result is named by `nearest_rgb`, and holds `nw` × `nh` pixels.
#[verifier::external_body]
fn resize_nearest_rgb(pixels: Vec<u8>, w: u32, h: u32, nw: u32, nh: u32) -> (r: Vec<u8>)
    requires
        pixels@.len() == w * h * 3,
        nw * nh * 3 <= usize::MAX,
    ensures
        r@ == nearest_rgb(pixels@, w, h, nw, nh),
        r@.len() == nw * nh * 3,
{
    let img = image::RgbImage::from_raw(w, h, pixels).unwrap();
    image::imageops::resize(&img, nw, nh, image::imageops::FilterType::Nearest).into_raw()
}

/// The `ofs`-th of `n` interleaved pictures of an RGB frame, stretched back
/// to the frame's size.
pub open spec fn candles_frame_spec(frame: Seq<u8>, width: u32, height: u32, n: int, ofs: int) -> Seq<u8> {
    nearest_rgb(
        picked_rows(frame, 3 * width, height as int, n, ofs),
        width,
        (height / (n as u32)) as u32,
        width,
        height,
    )
}

/// Every `n`-th row of an RGB frame of `width` × `height` pixels from row
/// `ofs` on, stretched back to the frame's size.
pub fn candles_frame(frame: &[u8], width: u32, height: u32, n: usize, ofs: usize) -> (r: Vec<u8>)
    requires
        0 < n <= u32::MAX,
        3 * width <= usize::MAX,
        frame@.len() == width * 3 * height,
    ensures
        r@ == candles_frame_spec(frame@, width, height, n as int, ofs as int),
{
    let flen = frame.len();
    let row_len = width as usize * 3;
    let rows = pick_rows(frame, row_len, height as usize, n, ofs);
    let hn = height / (n as u32);
    assert(hn as int == height as int / n as int);
    assert(rows@.len() == width * hn * 3) by (nonlinear_arith)
        requires
            rows@.len() == (height as int / n as int) * row_len,
            row_len == width * 3,
            hn as int == height as int / n as int,
    ;
    assert(width * height * 3 <= usize::MAX) by (nonlinear_arith)
        requires
            flen == width * 3 * height,
    ;
    resize_nearest_rgb(rows, width, hn, width, height)
}

/// The decimal digits of `v`, as characters.
fn usize_decimal(v: usize) -> (r: Vec<char>)
    ensures
        r@ == nat_decimal(v as nat),
    decreases v,
{
    if v < 10 {
        let mut r: Vec<char> = Vec::new();
        r.push(((v as u8) + 48) as char);
        assert(r@ =~= nat_decimal(v as nat));
        r
    } else {
        let mut r = usize_decimal(v / 10);
        r.push((((v % 10) as u8) + 48) as char);
        assert(r@ =~= nat_decimal(v as nat));
        r
    }
}

/// `d` padded with zeros in front to three characters.
pub open spec fn pad3(d: Seq<char>) -> Seq<char> {
    if d.len() < 3 {
        Seq::new((3 - d.len()) as nat, |i: int| '0') + d
    } else {
        d
    }
}

/// The name of the `ofs`-th picture of a frame named `name`:
/// `{name}_{ofs:03}.png`.
pub open spec fn frame_file(name: Seq<char>, ofs: nat) -> Seq<char> {
    name + seq!['_'] + pad3(nat_decimal(ofs)) + seq!['.', 'p', 'n', 'g']
}

/// The name of the `ofs`-th picture of a frame named `name` (see
/// `frame_file`).
pub fn frame_file_name(name: &str, ofs: usize) -> (r: String)
    ensures
        r@ == frame_file(name@, ofs as nat),
{
    let mut cs: Vec<char> = crate::text::chars_of(name);
    cs.push('_');
    let ghost head = cs@;
    let d = usize_decimal(ofs);
    let mut k = d.len();
    while k < 3
        invariant
            d.len() <= k,
            d.len() < 3 ==> k <= 3,
            d.len() >= 3 ==> k == d.len(),
            cs@ == head + Seq::new((k - d.len()) as nat, |i: int| '0'),
        decreases 3 - k,
    {
        cs.push('0');
        k = k + 1;
        assert(cs@ =~= head + Seq::new((k - d.len()) as nat, |i: int| '0'));
    }
    proof {
        if d.len() < 3 {
            assert(k == 3);
        } else {
            assert(cs@ =~= head);
        }
    }
    let ghost pre = cs@;
    let mut i: usize = 0;
    while i < d.len()
        invariant
            i <= d@.len(),
            cs@ == pre + d@.take(i as int),
        decreases d@.len() - i,
    {
        cs.push(d[i]);
        i = i + 1;
        assert(cs@ =~= pre + d@.take(i as int));
    }
    cs.push('.');
    cs.push('p');
    cs.push('n');
    cs.push('g');
    proof {
        assert(d@.take(d@.len() as int) == d@);
        assert(cs@ =~= frame_file(name@, ofs as nat));
    }
    string_from_chars(cs.as_slice())
}

/// The `n` interleaved pictures of an RGB frame named `name`, each with its
/// file name (see `frame_file`) and stretched back to the frame's size.
pub fn candles_frames(frame: &[u8], width: u32, height: u32, name: &str, n: usize) -> (r: Vec<(String, Vec<u8>)>)
    requires
        n <= u32::MAX,
        3 * width <= usize::MAX,
        frame@.len() == width * 3 * height,
    ensures
        r@.len() == n,
        forall|k: int|
            0 <= k < n ==> #[trigger] r@[k].0@ == frame_file(name@, k as nat) && r@[k].1@ == candles_frame_spec(
                frame@,
                width,
                height,
                n as int,
                k,
            ),
{
    let mut out: Vec<(String, Vec<u8>)> = Vec::new();
    let mut ofs: usize = 0;
    while ofs < n
        invariant
            ofs <= n,
            n <= u32::MAX,
            3 * width <= usize::MAX,
            frame@.len() == width * 3 * height,
            out@.len() == ofs,
            forall|k: int|
                0 <= k < ofs ==> #[trigger] out@[k].0@ == frame_file(name@, k as nat) && out@[k].1@
                    == candles_frame_spec(frame@, width, height, n as int, k),
        decreases n - ofs,
    {
        let file = frame_file_name(name, ofs);
        let img = candles_frame(frame, width, height, n, ofs);
        let ghost o0 = out@;
        out.push((file, img));
        assert forall|k: int|
            0 <= k < ofs + 1 implies #[trigger] out@[k].0@ == frame_file(name@, k as nat) && out@[k].1@
                == candles_frame_spec(frame@, width, height, n as int, k) by {
            if k < ofs {
                assert(out@[k] == o0[k]);
            }
        }
        ofs = ofs + 1;
    }
    out
}
} // verus!
