//! Reassembling the "Meaning of life" picture: every row is shifted so
//! that its text lines up with the rows above it.
use vstd::prelude::*;
use crate::bigint::tdiv;
use crate::parse::views;

verus! {

/// Where the compared part of a row starts and ends.
pub const X_START: usize = 2025;

pub const X_END: usize = 3600;

/// `row` moved `k` places left, with zeros coming in at the right.
pub open spec fn rot_left_fill(row: Seq<u8>, k: int) -> Seq<u8> {
    row.skip(k) + Seq::new(k as nat, |j: int| 0u8)
}

/// `row` rotated `k` places right.
pub open spec fn rot_right(row: Seq<u8>, k: int) -> Seq<u8> {
    row.skip(row.len() - k) + row.take(row.len() - k)
}

/// How well a pixel `b` continues the pixels `a1` (the row before) and
/// `a2` (the one before that).
pub open spec fn pixel_score(a1: u8, a2: u8, b: u8) -> int {
    (if a1 >= 70 && b >= 70 {
        20int
    } else {
        0
    }) + (if a1 >= 128 && b >= 128 {
        10int
    } else {
        0
    }) + (if a2 >= 128 && b >= 128 {
        15int
    } else {
        0
    }) + (if a2 >= 70 && b >= 70 {
        30int
    } else {
        0
    })
}

/// `pixel_score` summed over the first `m` places.
pub open spec fn window_score(prev1: Seq<u8>, prev2: Seq<u8>, w: Seq<u8>, m: int) -> int
    decreases m,
{
    if m <= 0 {
        0
    } else {
        window_score(prev1, prev2, w, m - 1) + pixel_score(prev1[m - 1], prev2[m - 1], w[m - 1])
    }
}

/// The smaller of two integers.
pub open spec fn min_int(a: int, b: int) -> int {
    if a <= b {
        a
    } else {
        b
    }
}

/// The score of shifting `row` by `s`: its compared part, moved by `s`
/// and cut at the row's end, against the two rows before, less a small
/// penalty that grows with the shift.
pub open spec fn shift_score(row: Seq<u8>, prev1: Seq<u8>, prev2: Seq<u8>, s: int) -> int {
    let a = min_int(X_START + s, row.len() as int);
    let b = min_int(X_END + s, row.len() as int);
    let w = row.subrange(a, b);
    let m = min_int(min_int(prev1.len() as int, prev2.len() as int), w.len() as int);
    window_score(prev1, prev2, w, m) - tdiv(s + 5, 50)
}

/// The best score and shift among the first `k` of the shifts -425, -420,
/// ..., 425 that keep the row's total shift at most 600; a later shift wins
/// a tie, and no shift scores below 0 against the start (0, 0).
pub open spec fn best_shift_from(row: Seq<u8>, prev1: Seq<u8>, prev2: Seq<u8>, oi: int, k: nat) -> (int, int)
    decreases k,
{
    if k == 0 {
        (0, 0)
    } else {
        let (bs, bsh) = best_shift_from(row, prev1, prev2, oi, (k - 1) as nat);
        let s = -425 + 5 * (k - 1);
        if s + oi <= 600 && shift_score(row, prev1, prev2, s) >= bs {
            (shift_score(row, prev1, prev2, s), s)
        } else {
            (bs, bsh)
        }
    }
}

/// The state of the reassembly: the rows, the compared parts of the last
/// two rows handled, and each row's total shift.
pub type Reassembly = (Seq<Seq<u8>>, Seq<u8>, Seq<u8>, Seq<isize>);

/// Row `i` shifted by its best shift.
pub open spec fn step_row(st: Reassembly, i: int) -> Reassembly {
    let (rows, prev1, prev2, ofs) = st;
    let s = best_shift_from(rows[i], prev1, prev2, ofs[i] as int, 171).1;
    let nr = if s < 0 {
        rot_right(rows[i], -s)
    } else {
        rot_left_fill(rows[i], s)
    };
    (rows.update(i, nr), nr.subrange(X_START as int, X_END as int), prev1, ofs.update(i, (ofs[i] + s) as isize))
}

/// The first `k` rows handled from the top.
pub open spec fn pass_down(st: Reassembly, k: nat) -> Reassembly
    decreases k,
{
    if k == 0 {
        st
    } else {
        step_row(pass_down(st, (k - 1) as nat), k - 1)
    }
}

/// The last `k` of `h` rows handled from the bottom.
pub open spec fn pass_up(st: Reassembly, h: int, k: nat) -> Reassembly
    decreases k,
{
    if k == 0 {
        st
    } else {
        step_row(pass_up(st, h, (k - 1) as nat), h - k)
    }
}

/// The reassembled rows and each row's total shift: every row first moves
/// 425 places left; then each row, from the top down and again from the
/// bottom up, takes its best shift against the two rows handled before it.
pub open spec fn reassembled(rows: Seq<Seq<u8>>) -> (Seq<Seq<u8>>, Seq<isize>) {
    let h = rows.len();
    let first = rows[0].subrange(X_START as int, X_END as int);
    let r0 = Seq::new(h, |i: int| rot_left_fill(rows[i], 425));
    let st0 = (r0, first, first, Seq::new(h, |i: int| 0isize));
    let st2 = pass_up(pass_down(st0, h), h as int, h);
    (st2.0, st2.3)
}

proof fn lemma_best_shift_range(row: Seq<u8>, prev1: Seq<u8>, prev2: Seq<u8>, oi: int, k: nat)
    requires
        k <= 171,
    ensures
        -425 <= best_shift_from(row, prev1, prev2, oi, k).1 <= 425,
        best_shift_from(row, prev1, prev2, oi, k).1 == 0 || best_shift_from(row, prev1, prev2, oi, k).1 + oi <= 600,
    decreases k,
{
    if k > 0 {
        lemma_best_shift_range(row, prev1, prev2, oi, (k - 1) as nat);
    }
}

proof fn lemma_pass_down_shifts(st: Reassembly, k: nat)
    requires
        k <= st.0.len(),
        st.3.len() == st.0.len(),
        forall|j: int| 0 <= j < st.3.len() ==> #[trigger] st.3[j] == 0,
    ensures
        pass_down(st, k).3.len() == st.0.len(),
        pass_down(st, k).0.len() == st.0.len(),
        forall|j: int| 0 <= j < k ==> -425 <= #[trigger] pass_down(st, k).3[j] <= 600,
        forall|j: int| k <= j < st.0.len() ==> #[trigger] pass_down(st, k).3[j] == 0,
    decreases k,
{
    if k > 0 {
        lemma_pass_down_shifts(st, (k - 1) as nat);
        let p = pass_down(st, (k - 1) as nat);
        lemma_best_shift_range(p.0[k - 1], p.1, p.2, p.3[k - 1] as int, 171);
    }
}

proof fn lemma_pass_up_shifts(st: Reassembly, h: int, k: nat)
    requires
        h == st.0.len(),
        k <= h,
        st.3.len() == h,
        forall|j: int| 0 <= j < h ==> -425 <= #[trigger] st.3[j] <= 600,
    ensures
        pass_up(st, h, k).3.len() == h,
        pass_up(st, h, k).0.len() == h,
        forall|j: int| 0 <= j < h ==> -850 <= #[trigger] pass_up(st, h, k).3[j] <= 600,
        forall|j: int| 0 <= j < h - k ==> -425 <= #[trigger] pass_up(st, h, k).3[j],
    decreases k,
{
    if k > 0 {
        lemma_pass_up_shifts(st, h, (k - 1) as nat);
        let p = pass_up(st, h, (k - 1) as nat);
        lemma_best_shift_range(p.0[h - k], p.1, p.2, p.3[h - k] as int, 171);
    }
}

/// A row's total shift never goes above 600, and each of the two passes
/// moves it by at most 425 places, so it stays within -850..=600.
pub proof fn lemma_reassembled_shifts(rows: Seq<Seq<u8>>)
    requires
        rows.len() >= 1,
    ensures
        reassembled(rows).1.len() == rows.len(),
        forall|i: int| 0 <= i < rows.len() ==> -850 <= #[trigger] reassembled(rows).1[i] <= 600,
{
    let h = rows.len();
    let first = rows[0].subrange(X_START as int, X_END as int);
    let r0 = Seq::new(h, |i: int| rot_left_fill(rows[i], 425));
    let st0: Reassembly = (r0, first, first, Seq::new(h, |i: int| 0isize));
    lemma_pass_down_shifts(st0, h);
    lemma_pass_up_shifts(pass_down(st0, h), h as int, h);
}

/// Every row has `w` bytes.
pub open spec fn rows_wide(rows: Seq<Seq<u8>>, w: int) -> bool {
    forall|i: int| 0 <= i < rows.len() ==> #[trigger] rows[i].len() == w
}

fn rotate_left_fill(row: &Vec<u8>, k: usize) -> (r: Vec<u8>)
    requires
        k <= row@.len(),
    ensures
        r@ == rot_left_fill(row@, k as int),
{
    let n = row.len();
    let mut out: Vec<u8> = Vec::new();
    let mut j: usize = 0;
    while j < n
        invariant
            j <= n,
            n == row@.len(),
            k <= n,
            out@ == rot_left_fill(row@, k as int).take(j as int),
        decreases n - j,
    {
        let v = if j < n - k {
            row[j + k]
        } else {
            0
        };
        out.push(v);
        j = j + 1;
        assert(out@ =~= rot_left_fill(row@, k as int).take(j as int));
    }
    assert(rot_left_fill(row@, k as int).take(n as int) =~= rot_left_fill(row@, k as int));
    out
}

fn rotate_right(row: &Vec<u8>, k: usize) -> (r: Vec<u8>)
    requires
        k <= row@.len(),
    ensures
        r@ == rot_right(row@, k as int),
{
    let n = row.len();
    let mut out: Vec<u8> = Vec::new();
    let mut j: usize = 0;
    while j < n
        invariant
            j <= n,
            n == row@.len(),
            k <= n,
            out@ == rot_right(row@, k as int).take(j as int),
        decreases n - j,
    {
        let v = if j < k {
            row[n - k + j]
        } else {
            row[j - k]
        };
        out.push(v);
        j = j + 1;
        assert(out@ =~= rot_right(row@, k as int).take(j as int));
    }
    assert(rot_right(row@, k as int).take(n as int) =~= rot_right(row@, k as int));
    out
}

fn score_of(row: &Vec<u8>, prev1: &Vec<u8>, prev2: &Vec<u8>, s: isize) -> (r: i64)
    requires
        -425 <= s <= 425,
        row@.len() >= X_END,
        prev1@.len() == X_END - X_START,
        prev2@.len() == X_END - X_START,
    ensures
        r as int == shift_score(row@, prev1@, prev2@, s as int),
{
    let n = row.len();
    let a0 = (X_START as isize + s) as usize;
    let b0 = (X_END as isize + s) as usize;
    let a = if a0 <= n {
        a0
    } else {
        n
    };
    let b = if b0 <= n {
        b0
    } else {
        n
    };
    let ghost w = row@.subrange(a as int, b as int);
    let m0 = prev1.len();
    let m = if b - a < m0 {
        b - a
    } else {
        m0
    };
    let mut sum: i64 = 0;
    let mut j: usize = 0;
    while j < m
        invariant
            j <= m,
            m <= b - a,
            m <= prev1@.len(),
            prev1@.len() == prev2@.len(),
            a <= b <= row@.len(),
            w == row@.subrange(a as int, b as int),
            m0 == prev1@.len(),
            m0 == X_END - X_START,
            sum as int == window_score(prev1@, prev2@, w, j as int),
            0 <= sum <= 75 * j,
        decreases m - j,
    {
        let x = row[a + j];
        let a1 = prev1[j];
        let a2 = prev2[j];
        let mut p: i64 = 0;
        if a1 >= 70 && x >= 70 {
            p = p + 20;
        }
        if a1 >= 128 && x >= 128 {
            p = p + 10;
        }
        if a2 >= 128 && x >= 128 {
            p = p + 15;
        }
        if a2 >= 70 && x >= 70 {
            p = p + 30;
        }
        assert(w[j as int] == x);
        sum = sum + p;
        j = j + 1;
    }
    let t = s as i64 + 5;
    let pen: i64 = if t >= 0 {
        t / 50
    } else {
        -((-t) / 50)
    };
    assert(pen as int == tdiv(t as int, 50));
    sum - pen
}

fn best_shift(row: &Vec<u8>, prev1: &Vec<u8>, prev2: &Vec<u8>, oi: isize) -> (r: isize)
    requires
        row@.len() >= X_END,
        prev1@.len() == X_END - X_START,
        prev2@.len() == X_END - X_START,
        -10000 <= oi <= 10000,
    ensures
        r as int == best_shift_from(row@, prev1@, prev2@, oi as int, 171).1,
        -425 <= r <= 425,
        r == 0 || r + oi <= 600,
{
    let mut best_score: i64 = 0;
    let mut best: isize = 0;
    let mut k: usize = 0;
    while k < 171
        invariant
            k <= 171,
            row@.len() >= X_END,
            prev1@.len() == X_END - X_START,
            prev2@.len() == X_END - X_START,
            -10000 <= oi <= 10000,
            (best_score as int, best as int) == best_shift_from(row@, prev1@, prev2@, oi as int, k as nat),
            -425 <= best <= 425,
            best == 0 || best + oi <= 600,
        decreases 171 - k,
    {
        let s: isize = -425 + 5 * (k as isize);
        if s + oi <= 600 {
            let sc = score_of(row, prev1, prev2, s);
            if sc >= best_score {
                best_score = sc;
                best = s;
            }
        }
        k = k + 1;
    }
    best
}

fn copy_part(row: &Vec<u8>) -> (r: Vec<u8>)
    requires
        row@.len() >= X_END,
    ensures
        r@ == row@.subrange(X_START as int, X_END as int),
{
    let mut out: Vec<u8> = Vec::new();
    let mut j = X_START;
    while j < X_END
        invariant
            X_START <= j <= X_END,
            row@.len() >= X_END,
            out@ == row@.subrange(X_START as int, j as int),
        decreases X_END - j,
    {
        out.push(row[j]);
        j = j + 1;
        assert(out@ =~= row@.subrange(X_START as int, j as int));
    }
    out
}

/// Handles row `i`: shifts it by its best shift (see `step_row`).
fn handle_row(
    rows: &mut Vec<Vec<u8>>,
    last1: &mut Vec<u8>,
    last2: &mut Vec<u8>,
    ofs: &mut Vec<isize>,
    i: usize,
    w: usize,
)
    requires
        i < old(rows)@.len(),
        old(ofs)@.len() == old(rows)@.len(),
        rows_wide(views(old(rows)@), w as int),
        w >= X_END,
        old(last1)@.len() == X_END - X_START,
        old(last2)@.len() == X_END - X_START,
        -1000 <= old(ofs)@[i as int] <= 600,
    ensures
        (views(final(rows)@), final(last1)@, final(last2)@, final(ofs)@) == step_row(
            (views(old(rows)@), old(last1)@, old(last2)@, old(ofs)@),
            i as int,
        ),
        final(rows)@.len() == old(rows)@.len(),
        final(ofs)@.len() == old(ofs)@.len(),
        rows_wide(views(final(rows)@), w as int),
        final(last1)@.len() == X_END - X_START,
        final(last2)@.len() == X_END - X_START,
        final(ofs)@[i as int] >= old(ofs)@[i as int] - 425,
        final(ofs)@[i as int] <= 600,
        forall|j: int| 0 <= j < final(ofs)@.len() && j != i ==> final(ofs)@[j] == old(ofs)@[j],
{
    assert(views(rows@)[i as int] == rows@[i as int]@);
    let oi = ofs[i];
    let s = best_shift(&rows[i], last1, last2, oi);
    let nr = if s < 0 {
        rotate_right(&rows[i], (-s) as usize)
    } else {
        rotate_left_fill(&rows[i], s as usize)
    };
    let part = copy_part(&nr);
    let ghost r0 = rows@;
    rows.set(i, nr);
    assert(views(rows@) =~= views(r0).update(i as int, rows@[i as int]@));
    let mut moved = part;
    std::mem::swap(last1, &mut moved);
    *last2 = moved;
    ofs.set(i, oi + s);
    assert(rows_wide(views(rows@), w as int));
}

/// Reassembles the picture held as `rows` (all of one width, at least
/// `X_END`), and gives each row's total shift (see `reassembled`).
pub fn meaning_of_life_reassemble(rows: &mut Vec<Vec<u8>>) -> (ofs: Vec<isize>)
    requires
        old(rows)@.len() >= 1,
        old(rows)@[0]@.len() >= X_END,
        rows_wide(views(old(rows)@), old(rows)@[0]@.len() as int),
    ensures
        (views(final(rows)@), ofs@) == reassembled(views(old(rows)@)),
{
    let ghost start = views(rows@);
    let h = rows.len();
    let w = rows[0].len();
    assert(start[0] == rows@[0]@);
    let first = copy_part(&rows[0]);
    let mut last1 = copy_part(&rows[0]);
    let mut last2 = first;
    let mut i: usize = 0;
    let ghost r0 = Seq::new(h as nat, |k: int| rot_left_fill(start[k], 425));
    while i < h
        invariant
            i <= h,
            h == rows@.len(),
            w >= X_END,
            start.len() == h,
            rows_wide(start, w as int),
            r0 == Seq::new(h as nat, |k: int| rot_left_fill(start[k], 425)),
            forall|k: int| 0 <= k < h ==> #[trigger] views(rows@)[k] == if k < i {
                r0[k]
            } else {
                start[k]
            },
        decreases h - i,
    {
        assert(views(rows@)[i as int] == rows@[i as int]@);
        let nr = rotate_left_fill(&rows[i], 425);
        let ghost rb = rows@;
        rows.set(i, nr);
        assert forall|k: int| 0 <= k < h implies #[trigger] views(rows@)[k] == if k < i + 1 {
            r0[k]
        } else {
            start[k]
        } by {
            if k != i {
                assert(views(rows@)[k] == views(rb)[k]);
            }
        }
        i = i + 1;
    }
    assert(views(rows@) =~= r0);
    let mut ofs: Vec<isize> = Vec::new();
    let mut k: usize = 0;
    while k < h
        invariant
            k <= h,
            ofs@ == Seq::new(k as nat, |j: int| 0isize),
        decreases h - k,
    {
        ofs.push(0);
        k = k + 1;
        assert(ofs@ =~= Seq::new(k as nat, |j: int| 0isize));
    }
    let ghost st0: Reassembly = (r0, last1@, last2@, ofs@);
    assert(st0 == (r0, start[0].subrange(X_START as int, X_END as int), start[0].subrange(X_START as int, X_END as int), Seq::new(h as nat, |j: int| 0isize)));
    let mut i: usize = 0;
    while i < h
        invariant
            i <= h,
            h == rows@.len(),
            h == ofs@.len(),
            w >= X_END,
            rows_wide(views(rows@), w as int),
            last1@.len() == X_END - X_START,
            last2@.len() == X_END - X_START,
            (views(rows@), last1@, last2@, ofs@) == pass_down(st0, i as nat),
            forall|j: int| 0 <= j < h ==> -425 <= #[trigger] ofs@[j] <= 600,
            forall|j: int| i <= j < h ==> #[trigger] ofs@[j] == 0,
        decreases h - i,
    {
        handle_row(rows, &mut last1, &mut last2, &mut ofs, i, w);
        i = i + 1;
    }
    let ghost st1 = pass_down(st0, h as nat);
    let mut k: usize = 0;
    while k < h
        invariant
            k <= h,
            h == rows@.len(),
            h == ofs@.len(),
            w >= X_END,
            rows_wide(views(rows@), w as int),
            last1@.len() == X_END - X_START,
            last2@.len() == X_END - X_START,
            (views(rows@), last1@, last2@, ofs@) == pass_up(st1, h as int, k as nat),
            forall|j: int| 0 <= j < h ==> -850 <= #[trigger] ofs@[j] <= 600,
            forall|j: int| 0 <= j < h - k ==> -425 <= #[trigger] ofs@[j],
        decreases h - k,
    {
        handle_row(rows, &mut last1, &mut last2, &mut ofs, h - 1 - k, w);
        k = k + 1;
    }
    ofs
}


/// The index of the last pixel of `l` at least `0x89`, or -1.
pub open spec fn rightmost_bright(l: Seq<u8>) -> int
    decreases l.len(),
{
    if l.len() == 0 {
        -1
    } else if l.last() >= 0x89 {
        l.len() - 1
    } else {
        rightmost_bright(l.drop_last())
    }
}

/// The distances from the right edge at which the pieces of the picture
/// were cut.
pub open spec fn cut_marks() -> Seq<int> {
    seq![1, 25, 39, 45, 110, 150, 155, 165, 204, 230, 275, 278, 330, 335, 400, 440, 455, 520, 566, 691]
}

/// The first cut mark from the `k`-th on that is at least `d`.
pub open spec fn first_mark(d: int, k: nat) -> Option<int>
    decreases 20 - k,
{
    if k >= 20 {
        None
    } else if d <= cut_marks()[k as int] {
        Some(cut_marks()[k as int])
    } else {
        first_mark(d, k + 1)
    }
}

/// The correction after the shift for a piece cut at mark `x`.
pub open spec fn mark_extra(x: int) -> int {
    if x == 1 {
        88
    } else if x == 45 {
        44
    } else if x == 25 {
        26
    } else if x == 335 {
        5
    } else if x == 155 {
        6
    } else {
        0
    }
}

/// `row` rotated `k` places left.
pub open spec fn rot_left(row: Seq<u8>, k: int) -> Seq<u8> {
    row.skip(k) + row.take(k)
}

/// The shifts for a line, if any: the first for the mark at or past the
/// distance of its last bright pixel from the right edge, then the mark's
/// correction.
pub open spec fn line_shifts(l: Seq<u8>) -> Option<(int, int)> {
    let r = rightmost_bright(l);
    if r < 0 {
        None
    } else {
        match first_mark(l.len() - r, 0) {
            Some(x) => Some((691 - x, mark_extra(x))),
            None => None,
        }
    }
}

/// A line's shifts fit within it.
pub open spec fn line_fits(l: Seq<u8>) -> bool {
    match line_shifts(l) {
        Some((a, b)) => a <= l.len() && b <= l.len(),
        None => true,
    }
}

/// A line with its shifts applied.
pub open spec fn reassembled_line(l: Seq<u8>) -> Seq<u8> {
    match line_shifts(l) {
        Some((a, b)) => rot_left(rot_left(l, a), b),
        None => l,
    }
}

fn rotate_left(row: &Vec<u8>, k: usize) -> (r: Vec<u8>)
    requires
        k <= row@.len(),
    ensures
        r@ == rot_left(row@, k as int),
{
    let n = row.len();
    let mut out: Vec<u8> = Vec::new();
    let mut j: usize = 0;
    while j < n
        invariant
            j <= n,
            n == row@.len(),
            k <= n,
            out@ == rot_left(row@, k as int).take(j as int),
        decreases n - j,
    {
        let v = if j < n - k {
            row[j + k]
        } else {
            row[j - (n - k)]
        };
        out.push(v);
        j = j + 1;
        assert(out@ =~= rot_left(row@, k as int).take(j as int));
    }
    assert(rot_left(row@, k as int).take(n as int) =~= rot_left(row@, k as int));
    out
}

fn shifts_of(l: &Vec<u8>) -> (r: Option<(usize, usize)>)
    ensures
        match r {
            Some((a, b)) => line_shifts(l@) == Some((a as int, b as int)),
            None => line_shifts(l@) is None,
        },
{
    let n = l.len();
    let mut j = n;
    assert(l@.take(n as int) == l@);
    while j > 0 && l[j - 1] < 0x89
        invariant
            j <= n,
            n == l@.len(),
            rightmost_bright(l@) == rightmost_bright(l@.take(j as int)),
        decreases j,
    {
        assert(l@.take(j as int).drop_last() == l@.take(j - 1));
        j = j - 1;
    }
    if j == 0 {
        return None;
    }
    assert(l@.take(j as int).last() == l@[j - 1]);
    assert(rightmost_bright(l@) == j - 1);
    let d = n - (j - 1);
    let marks: [usize; 20] = [1, 25, 39, 45, 110, 150, 155, 165, 204, 230, 275, 278, 330, 335, 400, 440, 455, 520, 566, 691];
    assert(marks@ =~= cut_marks().map_values(|x: int| x as usize));
    let mut k: usize = 0;
    while k < 20
        invariant
            k <= 20,
            marks@ == cut_marks().map_values(|x: int| x as usize),
            first_mark(d as int, 0) == first_mark(d as int, k as nat),
            rightmost_bright(l@) >= 0,
            d as int == l@.len() - rightmost_bright(l@),
        decreases 20 - k,
    {
        assert(marks@[k as int] as int == cut_marks()[k as int]);
        if d <= marks[k] {
            let x = marks[k];
            let extra: usize = if x == 1 {
                88
            } else if x == 45 {
                44
            } else if x == 25 {
                26
            } else if x == 335 {
                5
            } else if x == 155 {
                6
            } else {
                0
            };
            return Some((691 - x, extra));
        }
        k = k + 1;
    }
    None
}

/// Whether every line of `rows` can take its shifts (see `line_fits`).
pub fn lines_fit(rows: &Vec<Vec<u8>>) -> (r: bool)
    ensures
        r == forall|i: int| 0 <= i < rows@.len() ==> line_fits(#[trigger] rows@[i]@),
{
    let h = rows.len();
    let mut i: usize = 0;
    while i < h
        invariant
            i <= h,
            h == rows@.len(),
            forall|k: int| 0 <= k < i ==> line_fits(#[trigger] rows@[k]@),
        decreases h - i,
    {
        let n = rows[i].len();
        match shifts_of(&rows[i]) {
            Some((a, b)) => {
                if a > n || b > n {
                    assert(!line_fits(rows@[i as int]@));
                    return false;
                }
            },
            None => {},
        }
        i = i + 1;
    }
    true
}

/// Reassembles the picture held as `rows` the second way: each line with a
/// bright pixel shifts by the cut mark at or past that pixel's distance
/// from the right edge (see `reassembled_line`).
pub fn meaning_of_life_reassemble_v2(rows: &mut Vec<Vec<u8>>)
    requires
        forall|i: int| 0 <= i < old(rows)@.len() ==> line_fits(#[trigger] old(rows)@[i]@),
    ensures
        views(final(rows)@) == views(old(rows)@).map_values(|l: Seq<u8>| reassembled_line(l)),
{
    let ghost start = views(rows@);
    let h = rows.len();
    let mut i: usize = 0;
    while i < h
        invariant
            i <= h,
            h == rows@.len(),
            start.len() == h,
            forall|k: int| 0 <= k < h ==> line_fits(#[trigger] start[k]),
            forall|k: int| 0 <= k < h ==> #[trigger] views(rows@)[k] == if k < i {
                reassembled_line(start[k])
            } else {
                start[k]
            },
        decreases h - i,
    {
        assert(views(rows@)[i as int] == rows@[i as int]@);
        match shifts_of(&rows[i]) {
            Some((a, b)) => {
                let r1 = rotate_left(&rows[i], a);
                let r2 = rotate_left(&r1, b);
                let ghost rb = rows@;
                rows.set(i, r2);
                assert forall|k: int| 0 <= k < h implies #[trigger] views(rows@)[k] == if k < i + 1 {
                    reassembled_line(start[k])
                } else {
                    start[k]
                } by {
                    if k != i {
                        assert(views(rows@)[k] == views(rb)[k]);
                    }
                }
            },
            None => {},
        }
        i = i + 1;
    }
    assert(views(rows@) =~= start.map_values(|l: Seq<u8>| reassembled_line(l)));
}
} // verus!
