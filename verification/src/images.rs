//! Pixel-level image denoising: the images are rows of grey (or RGB) bytes.
use vstd::prelude::*;

pub mod reassemble;

pub use reassemble::meaning_of_life_reassemble;

verus! {

/// A horizontal span of an image: it starts at `x` (possibly outside the
/// image) and is `w` pixels wide.
#[derive(Clone, Copy, Debug)]
pub struct Rect {
    pub x: i32,
    pub w: u32,
}

/// The span's coordinates stay within `i32`.
pub open spec fn rect_fits(r: Rect) -> bool {
    r.w <= i32::MAX && i32::MIN <= r.x + r.w <= i32::MAX
}

/// The image coordinate of the span's pixel `x`, if the span has that pixel
/// and the coordinate is not negative.
pub open spec fn rect_map(r: Rect, x: u32) -> Option<u32> {
    if x >= r.w {
        None
    } else if r.x + x < 0 {
        None
    } else {
        Some((r.x + x) as u32)
    }
}

/// `x` read as an `i32` (as `x as i32` reads it: values past `i32::MAX`
/// wrap around to negative ones).
pub open spec fn wrap_i32(x: u32) -> int {
    if x <= i32::MAX {
        x as int
    } else {
        x - 0x1_0000_0000
    }
}

/// The span covers the coordinate `x`, read as an `i32`.
pub open spec fn rect_contains(r: Rect, x: u32) -> bool {
    r.x <= wrap_i32(x) < r.x + r.w
}

/// The common part of two spans, if they overlap or touch.
pub open spec fn rect_intersect(r: Rect, s: Rect) -> Option<Rect> {
    let x1 = if r.x >= s.x { r.x } else { s.x };
    let x2 = if r.x + r.w <= s.x + s.w { r.x + r.w } else { s.x + s.w };
    if x2 - x1 < 0 {
        None
    } else {
        Some(Rect { x: x1, w: (x2 - x1) as u32 })
    }
}

impl Rect {
    /// The image coordinate of the span's pixel `x`.
    pub fn map(&self, x: u32) -> (r: Option<u32>)
        requires
            rect_fits(*self),
        ensures
            r == rect_map(*self, x),
    {
        if x >= self.w {
            None
        } else {
            let v = self.x + x as i32;
            if v < 0 {
                None
            } else {
                Some(v as u32)
            }
        }
    }

    /// Whether the span covers the coordinate `x`, read as an `i32` (a
    /// coordinate past `i32::MAX` wraps around to a negative one).
    pub fn contains(&self, x: u32) -> (r: bool)
        requires
            rect_fits(*self),
        ensures
            r == rect_contains(*self, x),
    {
        let xi: i32 = if x <= 0x7fff_ffff {
            x as i32
        } else {
            (x - 0x8000_0000) as i32 + i32::MIN
        };
        self.x <= xi && xi < self.x + self.w as i32
    }

    /// The common part of two spans.
    pub fn intersect(&self, rect: &Rect) -> (r: Option<Rect>)
        requires
            rect_fits(*self),
            rect_fits(*rect),
        ensures
            r == rect_intersect(*self, *rect),
            r matches Some(q) ==> rect_fits(q),
    {
        let x1 = if self.x >= rect.x { self.x } else { rect.x };
        let e1 = self.x + self.w as i32;
        let e2 = rect.x + rect.w as i32;
        let x2 = if e1 <= e2 { e1 } else { e2 };
        if x2 < x1 {
            None
        } else {
            Some(Rect { x: x1, w: (x2 - x1) as u32 })
        }
    }
}

/// The pixel of `line` at coordinate `m`, if there is one.
pub open spec fn pixel(line: Seq<u8>, m: Option<u32>) -> Option<u8> {
    match m {
        Some(x) => if x < line.len() {
            Some(line[x as int])
        } else {
            None
        },
        None => None,
    }
}

/// `None` comes first, then coordinates in increasing order.
pub open spec fn opt_lt(a: Option<u32>, b: Option<u32>) -> bool {
    match (a, b) {
        (None, Some(_)) => true,
        (Some(x), Some(y)) => x < y,
        _ => false,
    }
}

/// Saturating addition of bytes.
pub open spec fn sat_add(a: u8, b: u8) -> u8 {
    if a + b > 255 {
        255
    } else {
        (a + b) as u8
    }
}

/// Saturating multiplication of bytes.
pub open spec fn sat_mul(a: u8, b: u8) -> u8 {
    if a * b > 255 {
        255
    } else {
        (a * b) as u8
    }
}

/// The pixel `p` if `keep`.
pub open spec fn keep_if(p: Option<u8>, keep: bool) -> Option<u8> {
    if keep {
        p
    } else {
        None
    }
}

/// The coordinate `m` lies in the span `it`.
pub open spec fn in_span(it: Rect, m: Option<u32>) -> bool {
    match m {
        Some(x) => rect_contains(it, x),
        None => false,
    }
}

/// The (saturated) sum of the pixels present, doubled when only one is.
pub open spec fn combine(q1: Option<u8>, q2: Option<u8>) -> Option<u8> {
    let c: int = (if q1 is Some { 1int } else { 0int }) + (if q2 is Some { 1int } else { 0int });
    let s1: u8 = match q1 {
        Some(p) => p,
        None => 0,
    };
    let s = match q2 {
        Some(p) => sat_add(s1, p),
        None => s1,
    };
    if c >= 1 {
        Some(sat_mul(s, (2int / c) as u8))
    } else {
        None
    }
}

/// A line of a frame that holds two overlapping copies of the picture, and
/// where each copy starts.
pub struct CandlesPixelSource<'a> {
    pub line: &'a [u8],
    pub x1: i32,
    pub x2: i32,
}

/// The line's geometry stays within `i32`.
pub open spec fn source_fits(line: Seq<u8>, x1: i32, x2: i32) -> bool {
    &&& line.len() <= i32::MAX
    &&& i32::MIN <= x1 + line.len() <= i32::MAX
    &&& i32::MIN <= x2 + line.len() <= i32::MAX
}

/// The value that sampling the output pixel `x` gives: the pixels of both
/// copies are summed (doubled when one is missing), preferring those outside
/// the copies' overlap; a pixel that neither copy has comes from the line
/// above, when given.
pub open spec fn sample_value(line: Seq<u8>, x1: i32, x2: i32, x: u32, old: Option<Seq<u8>>) -> Option<u8> {
    let w = line.len() as u32;
    let r1 = Rect { x: x1, w };
    let r2 = Rect { x: x2, w };
    let m1 = rect_map(r1, x);
    let m2 = rect_map(r2, x);
    let s1 = if opt_lt(m2, m1) { m2 } else { m1 };
    let s2 = if opt_lt(m2, m1) { m1 } else { m2 };
    let p1 = pixel(line, s1);
    let p2 = pixel(line, s2);
    let fallback = match old {
        Some(o) => if x < o.len() {
            Some(o[x as int])
        } else {
            None
        },
        None => None,
    };
    match rect_intersect(r1, r2) {
        Some(it) => {
            let outer = combine(keep_if(p1, !in_span(it, s1)), keep_if(p2, !in_span(it, s2)));
            let i1 = keep_if(p1, in_span(it, s1));
            let i2 = keep_if(p2, in_span(it, s2));
            if outer is Some {
                outer
            } else if i1 is Some {
                i1
            } else if i2 is Some {
                i2
            } else {
                fallback
            }
        },
        None => {
            let both = combine(p1, p2);
            if both is Some {
                both
            } else {
                fallback
            }
        },
    }
}

/// A byte doubled, saturating at 255.
pub open spec fn doubled(p: u8) -> u8 {
    if 2 * p > 255 {
        255
    } else {
        (2 * p) as u8
    }
}

/// Two bytes added, saturating at 255.
pub open spec fn summed(p: u8, q: u8) -> u8 {
    if p + q > 255 {
        255
    } else {
        (p + q) as u8
    }
}

/// The copy that starts at `xk` has output pixel `x`: it lies in the copy
/// and in the line.
pub open spec fn copy_has(line: Seq<u8>, xk: i32, x: u32) -> bool {
    x < line.len() && 0 <= xk + x < line.len()
}

/// The pixel of the line above at `x`, if there is one.
pub open spec fn above(old: Option<Seq<u8>>, x: u32) -> Option<u8> {
    match old {
        Some(o) => if x < o.len() {
            Some(o[x as int])
        } else {
            None
        },
        None => None,
    }
}

proof fn lemma_combine_one()
    ensures
        forall|p: u8| #[trigger] combine(Some(p), None) == Some(doubled(p)),
        forall|p: u8| #[trigger] combine(None, Some(p)) == Some(doubled(p)),
        forall|p: u8, q: u8| #[trigger] combine(Some(p), Some(q)) == Some(summed(p, q)),
{
    assert((2int / 1int) as u8 == 2u8);
    assert((2int / 2int) as u8 == 1u8);
    assert forall|p: u8| #[trigger] combine(Some(p), None) == Some(doubled(p)) by {
        assert(sat_mul(p, 2u8) == doubled(p));
    }
    assert forall|p: u8| #[trigger] combine(None, Some(p)) == Some(doubled(p)) by {
        assert(sat_add(0u8, p) == p);
        assert(sat_mul(p, 2u8) == doubled(p));
    }
    assert forall|p: u8, q: u8| #[trigger] combine(Some(p), Some(q)) == Some(summed(p, q)) by {
        assert(sat_mul(sat_add(p, q), 1u8) == summed(p, q));
    }
}

/// Sampling copies that lie apart (they neither overlap nor touch): a pixel
/// that one copy has is doubled (saturating), two pixels are added, and
/// where neither copy has the pixel the line above gives it.
pub proof fn lemma_sample_apart(line: Seq<u8>, x1: i32, x2: i32, x: u32, old: Option<Seq<u8>>)
    requires
        source_fits(line, x1, x2),
        x1 + line.len() < x2 || x2 + line.len() < x1,
    ensures
        copy_has(line, x1, x) && !copy_has(line, x2, x) ==> sample_value(line, x1, x2, x, old) == Some(
            doubled(line[x1 + x]),
        ),
        copy_has(line, x2, x) && !copy_has(line, x1, x) ==> sample_value(line, x1, x2, x, old) == Some(
            doubled(line[x2 + x]),
        ),
        copy_has(line, x1, x) && copy_has(line, x2, x) ==> sample_value(line, x1, x2, x, old) == Some(
            summed(line[x1 + x], line[x2 + x]),
        ),
        !copy_has(line, x1, x) && !copy_has(line, x2, x) ==> sample_value(line, x1, x2, x, old) == above(old, x),
{
    let w = line.len() as u32;
    let r1 = Rect { x: x1, w };
    let r2 = Rect { x: x2, w };
    assert(rect_intersect(r1, r2) is None);
    let m1 = rect_map(r1, x);
    let m2 = rect_map(r2, x);
    assert(pixel(line, m1) == if copy_has(line, x1, x) { Some(line[x1 + x]) } else { None });
    assert(pixel(line, m2) == if copy_has(line, x2, x) { Some(line[x2 + x]) } else { None });
    lemma_combine_one();
}

/// Sampling copies that overlap: the pixels that lie outside the overlap
/// are preferred, one doubled and two added (saturating); failing those, a
/// pixel inside the overlap is taken as it is, the one further left first;
/// failing that too, the line above gives it.
pub proof fn lemma_sample_overlap(line: Seq<u8>, x1: i32, x2: i32, x: u32, old: Option<Seq<u8>>)
    requires
        source_fits(line, x1, x2),
        x2 <= x1 + line.len(),
        x1 <= x2 + line.len(),
    ensures
        ({
            let lo: int = if x1 >= x2 { x1 as int } else { x2 as int };
            let hi: int = if x1 <= x2 { x1 + line.len() } else { x2 + line.len() };
            let in1 = copy_has(line, x1, x);
            let in2 = copy_has(line, x2, x);
            let out1 = in1 && !(lo <= x1 + x < hi);
            let out2 = in2 && !(lo <= x2 + x < hi);
            let v = sample_value(line, x1, x2, x, old);
            &&& out1 && !out2 ==> v == Some(doubled(line[x1 + x]))
            &&& out2 && !out1 ==> v == Some(doubled(line[x2 + x]))
            &&& out1 && out2 ==> v == Some(summed(line[x1 + x], line[x2 + x]))
            &&& !out1 && !out2 && in1 && (!in2 || x1 <= x2) ==> v == Some(line[x1 + x])
            &&& !out1 && !out2 && in2 && (!in1 || x2 < x1) ==> v == Some(line[x2 + x])
            &&& !in1 && !in2 ==> v == above(old, x)
        }),
{
    let w = line.len() as u32;
    let r1 = Rect { x: x1, w };
    let r2 = Rect { x: x2, w };
    let m1 = rect_map(r1, x);
    let m2 = rect_map(r2, x);
    assert(rect_intersect(r1, r2) is Some);
    let it = rect_intersect(r1, r2)->0;
    assert(pixel(line, m1) == if copy_has(line, x1, x) { Some(line[x1 + x]) } else { None });
    assert(pixel(line, m2) == if copy_has(line, x2, x) { Some(line[x2 + x]) } else { None });
    assert(m1 matches Some(c) ==> c <= i32::MAX && (in_span(it, m1) <==> it.x <= c < it.x + it.w));
    assert(m2 matches Some(c) ==> c <= i32::MAX && (in_span(it, m2) <==> it.x <= c < it.x + it.w));
    lemma_combine_one();
}

fn pixel_of(line: &[u8], m: Option<u32>) -> (r: Option<u8>)
    ensures
        r == pixel(line@, m),
{
    match m {
        Some(x) => if (x as usize) < line.len() {
            Some(line[x as usize])
        } else {
            None
        },
        None => None,
    }
}

fn combine_pixels(q1: Option<u8>, q2: Option<u8>) -> (r: Option<u8>)
    ensures
        r == combine(q1, q2),
{
    let mut ret: u8 = 0;
    let mut c: u8 = 0;
    if let Some(p) = q1 {
        ret = ret.saturating_add(p);
        c = c + 1;
    }
    if let Some(p) = q2 {
        ret = ret.saturating_add(p);
        c = c + 1;
    }
    if c >= 1 {
        let factor: u16 = if c == 1 { 2 } else { 1 };
        assert(factor == 2u8 / c);
        let prod: u16 = ret as u16 * factor;
        Some(if prod > 255 { 255 } else { prod as u8 })
    } else {
        None
    }
}

fn in_span_exec(it: &Rect, m: Option<u32>) -> (r: bool)
    requires
        rect_fits(*it),
    ensures
        r == in_span(*it, m),
{
    match m {
        Some(x) => it.contains(x),
        None => false,
    }
}

impl<'a> CandlesPixelSource<'a> {
    /// The output pixel `x`, reconstructed from both copies of the picture;
    /// `old_line` is the output line above.
    pub fn sample(&self, x: u32, old_line: Option<&[u8]>) -> (r: Option<u8>)
        requires
            source_fits(self.line@, self.x1, self.x2),
        ensures
            r == sample_value(
                self.line@,
                self.x1,
                self.x2,
                x,
                match old_line {
                    Some(o) => Some(o@),
                    None => None,
                },
            ),
    {
        let w = self.line.len() as u32;
        let r1 = Rect { x: self.x1, w };
        let r2 = Rect { x: self.x2, w };
        let inter = r1.intersect(&r2);
        let m1 = r1.map(x);
        let m2 = r2.map(x);
        let m2_first = match (m1, m2) {
            (Some(a), Some(b)) => b < a,
            (Some(_), None) => true,
            _ => false,
        };
        let (s1, s2) = if m2_first {
            (m2, m1)
        } else {
            (m1, m2)
        };
        let p1 = pixel_of(self.line, s1);
        let p2 = pixel_of(self.line, s2);
        if let Some(it) = inter {
            let o1 = if !in_span_exec(&it, s1) {
                p1
            } else {
                None
            };
            let o2 = if !in_span_exec(&it, s2) {
                p2
            } else {
                None
            };
            let outer = combine_pixels(o1, o2);
            if outer.is_some() {
                return outer;
            }
            if in_span_exec(&it, s1) && p1.is_some() {
                return p1;
            }
            if in_span_exec(&it, s2) && p2.is_some() {
                return p2;
            }
        } else {
            let both = combine_pixels(p1, p2);
            if both.is_some() {
                return both;
            }
        }
        match old_line {
            Some(o) => if (x as usize) < o.len() {
                Some(o[x as usize])
            } else {
                None
            },
            None => None,
        }
    }
}

/// Pixels at least this bright are white.
pub const WHITE: u8 = 0xA0;

/// Pixels at most this bright are black.
pub const BLACK: u8 = 0x30;

/// The index of the first white pixel.
pub open spec fn first_white(src: Seq<u8>) -> Option<int>
    decreases src.len(),
{
    if src.len() == 0 {
        None
    } else {
        match first_white(src.drop_last()) {
            Some(i) => Some(i),
            None => if src.last() >= WHITE {
                Some(src.len() - 1)
            } else {
                None
            },
        }
    }
}

/// The index of the last white pixel.
pub open spec fn last_white(src: Seq<u8>) -> Option<int>
    decreases src.len(),
{
    if src.len() == 0 {
        None
    } else if src.last() >= WHITE {
        Some(src.len() - 1)
    } else {
        last_white(src.drop_last())
    }
}

/// The scan for runs of black pixels: the start and length of the current
/// run, and the start and length of the run kept as the best.
pub type BlackScan = (int, int, int, int);

/// One pixel of the scan. A finished run is kept when it is longer than the
/// best one and either starts the line or the line has no white pixel.
pub open spec fn black_step(st: BlackScan, j: int, p: u8, has_white: bool) -> BlackScan {
    if p <= BLACK {
        (st.0, st.1 + 1, st.2, st.3)
    } else if (st.0 == 0 || !has_white) && st.1 > st.3 {
        (j + 1, 0, st.0, st.1)
    } else {
        (j + 1, 0, st.2, st.3)
    }
}

/// The scan after all of `src`.
pub open spec fn black_scan(src: Seq<u8>, has_white: bool) -> BlackScan
    decreases src.len(),
{
    if src.len() == 0 {
        (0, 0, 0, 0)
    } else {
        black_step(black_scan(src.drop_last(), has_white), src.len() - 1, src.last(), has_white)
    }
}

/// Where the two copies of the picture start in a line, from its white
/// pixels and its black runs.
pub open spec fn analyze_value(src: Seq<u8>) -> (int, int) {
    let w = src.len() as int;
    let has_white = first_white(src) is Some;
    let st = black_scan(src, has_white);
    let trailing = st.1 > st.3;
    let best_i = if trailing { st.0 } else { st.2 };
    let best_n = if trailing { st.1 } else { st.3 };
    let left = !trailing;
    match (first_white(src), last_white(src)) {
        (Some(w1), Some(w2)) => if w1 <= 2 && (!left || best_n < 10) {
            let b0 = if left { w } else { best_i };
            (w2 - w + 1, b0 - w)
        } else if w2 >= w - 2 && (left || best_n < 10) {
            let b0 = if !left { 0 } else { best_i };
            let b1 = if !left { 0 } else { best_n };
            (b0 + b1, w1)
        } else {
            (w2 - w + 1, w1)
        },
        _ => (best_i + best_n, best_i - w),
    }
}

proof fn lemma_first_white_bounds(src: Seq<u8>)
    ensures
        first_white(src) matches Some(i) ==> 0 <= i < src.len() && src[i] >= WHITE,
        (first_white(src) is Some) == (last_white(src) is Some),
        last_white(src) matches Some(i) ==> 0 <= i < src.len(),
        first_white(src) matches Some(i) ==> last_white(src) matches Some(j) && i <= j,
    decreases src.len(),
{
    if src.len() > 0 {
        lemma_first_white_bounds(src.drop_last());
    }
}

proof fn lemma_black_scan_bounds(src: Seq<u8>, has_white: bool)
    ensures
        ({
            let st = black_scan(src, has_white);
            &&& 0 <= st.0 <= src.len()
            &&& 0 <= st.1 && st.0 + st.1 == src.len()
            &&& 0 <= st.2 && 0 <= st.3 && st.2 + st.3 <= src.len()
        }),
    decreases src.len(),
{
    if src.len() > 0 {
        lemma_black_scan_bounds(src.drop_last(), has_white);
    }
}

/// Finds where the two copies of the picture start in `src`.
pub fn analyze_line(src: &[u8]) -> (r: CandlesPixelSource)
    requires
        src@.len() <= i32::MAX / 2,
    ensures
        r.line@ == src@,
        r.x1 as int == analyze_value(src@).0,
        r.x2 as int == analyze_value(src@).1,
        source_fits(src@, r.x1, r.x2),
{
    let len = src.len();
    let w = len as u32;
    // first and last white pixel
    let mut w1: Option<u32> = None;
    let mut w2: Option<u32> = None;
    let mut j: usize = 0;
    while j < len
        invariant
            j <= len,
            len == src@.len(),
            len <= i32::MAX / 2,
            w1 == (match first_white(src@.take(j as int)) {
                Some(i) => Some(i as u32),
                None => None::<u32>,
            }),
            w2 == (match last_white(src@.take(j as int)) {
                Some(i) => Some(i as u32),
                None => None::<u32>,
            }),
        decreases len - j,
    {
        proof {
            assert(src@.take(j + 1).drop_last() == src@.take(j as int));
            lemma_first_white_bounds(src@.take(j as int));
        }
        if src[j] >= WHITE {
            if w1.is_none() {
                w1 = Some(j as u32);
            }
            w2 = Some(j as u32);
        }
        j = j + 1;
    }
    assert(src@.take(len as int) == src@);
    proof {
        lemma_first_white_bounds(src@);
    }
    let has_white = w1.is_some();
    // runs of black pixels
    let mut i: usize = 0;
    let mut n: usize = 0;
    let mut best_i: usize = 0;
    let mut best_n: usize = 0;
    let mut j: usize = 0;
    while j < len
        invariant
            j <= len,
            len == src@.len(),
            has_white == (first_white(src@) is Some),
            black_scan(src@.take(j as int), has_white) == (i as int, n as int, best_i as int, best_n as int),
        decreases len - j,
    {
        proof {
            assert(src@.take(j + 1).drop_last() == src@.take(j as int));
            lemma_black_scan_bounds(src@.take(j as int), has_white);
        }
        let p = src[j];
        if p <= BLACK {
            n = n + 1;
        } else {
            if (i == 0 || !has_white) && n > best_n {
                best_i = i;
                best_n = n;
            }
            i = j + 1;
            n = 0;
        }
        j = j + 1;
    }
    assert(src@.take(len as int) == src@);
    proof {
        lemma_black_scan_bounds(src@, has_white);
    }
    let mut left = true;
    if n > best_n {
        best_i = i;
        best_n = n;
        left = false;
    }
    let wi = w as i32;
    let (x1, x2): (i32, i32) = match (w1, w2) {
        (Some(a), Some(b)) => {
            if a <= 2 && (!left || best_n < 10) {
                if left {
                    best_i = len;
                }
                (b as i32 - wi + 1, best_i as i32 - wi)
            } else if b >= w - 2 && (left || best_n < 10) {
                if !left {
                    best_i = 0;
                    best_n = 0;
                }
                ((best_i + best_n) as i32, a as i32)
            } else {
                (b as i32 - wi + 1, a as i32)
            }
        },
        _ => ((best_i + best_n) as i32, best_i as i32 - wi),
    };
    CandlesPixelSource { line: src, x1, x2 }
}

/// Pixel `i` of an output line.
pub open spec fn denoised_pixel(row: Seq<u8>, i: int, prev: Option<Seq<u8>>) -> u8 {
    let a = analyze_value(row);
    match sample_value(row, a.0 as i32, a.1 as i32, i as u32, prev) {
        Some(p) => p,
        None => 0,
    }
}

/// The output line for `row`, given the output line above it.
pub open spec fn denoised_row(row: Seq<u8>, prev: Option<Seq<u8>>) -> Seq<u8> {
    Seq::new(row.len(), |i: int| denoised_pixel(row, i, prev))
}

/// The output for the first `k` lines of a grey image `width` pixels wide.
pub open spec fn denoised_rows(pixels: Seq<u8>, width: nat, k: nat) -> Seq<u8>
    decreases k,
{
    if k == 0 {
        seq![]
    } else {
        let before = denoised_rows(pixels, width, (k - 1) as nat);
        let row = pixels.subrange((k - 1) * width, (k * width) as int);
        let prev = if k >= 2 {
            Some(before.subrange((k - 2) * width, (k - 1) * width))
        } else {
            None
        };
        before + denoised_row(row, prev)
    }
}

proof fn lemma_denoised_rows_len(pixels: Seq<u8>, width: nat, k: nat)
    requires
        k * width <= pixels.len(),
    ensures
        denoised_rows(pixels, width, k).len() == k * width,
    decreases k,
{
    if k > 0 {
        assert((k - 1) * width <= k * width) by (nonlinear_arith)
            requires
                k > 0,
        ;
        lemma_denoised_rows_len(pixels, width, (k - 1) as nat);
        assert((k - 1) * width + width == k * width) by (nonlinear_arith)
            requires
                k > 0,
        ;
        let row = pixels.subrange((k - 1) * width, (k * width) as int);
        assert(row.len() == width);
        let prev = if k >= 2 {
            Some(denoised_rows(pixels, width, (k - 1) as nat).subrange((k - 2) * width, (k - 1) * width))
        } else {
            None
        };
        assert(denoised_row(row, prev).len() == width);
        assert(denoised_rows(pixels, width, k) == denoised_rows(pixels, width, (k - 1) as nat)
            + denoised_row(row, prev));
    } else {
        assert(k * width == 0) by (nonlinear_arith)
            requires
                k == 0,
        ;
    }
}

/// Rebuilds a frame of two overlapping copies of a picture, line by line:
/// each line is analyzed and resampled, and a pixel that neither copy has
/// is taken from the output line above (zero on the first line).
pub fn candles_denoise(pixels: &[u8], width: usize) -> (r: Vec<u8>)
    requires
        0 < width <= i32::MAX / 2,
        pixels@.len() % (width as nat) == 0,
    ensures
        r@ == denoised_rows(pixels@, width as nat, pixels@.len() / (width as nat)),
{
    let len = pixels.len();
    let h = len / width;
    let mut out: Vec<u8> = Vec::new();
    let mut k: usize = 0;
    assert(h * width == pixels@.len()) by (nonlinear_arith)
        requires
            pixels@.len() % (width as nat) == 0,
            h == pixels@.len() / (width as nat),
            width > 0,
    ;
    while k < h
        invariant
            k <= h,
            0 < width <= i32::MAX / 2,
            h * width == pixels@.len(),
            len == pixels@.len(),
            out@ == denoised_rows(pixels@, width as nat, k as nat),
            out@.len() == k * width,
        decreases h - k,
    {
        assert((k + 1) * width <= h * width) by (nonlinear_arith)
            requires
                k < h,
        ;
        assert((k + 1) * width == k * width + width) by (nonlinear_arith);
        assert(k * width + width <= len);
        let start = k * width;
        let row = vstd::slice::slice_subrange(pixels, start, start + width);
        let sampler = analyze_line(row);
        proof {
            if k >= 1 {
                assert((k - 1) * width + width == k * width) by (nonlinear_arith)
                    requires
                        k >= 1,
                ;
            }
        }
        let ghost prev: Option<Seq<u8>> = if k >= 1 {
            Some(out@.subrange((k - 1) * width, k * width))
        } else {
            None
        };
        let ghost before = out@;
        let prev_row: Option<Vec<u8>> = if k >= 1 {
            assert((k - 1) * width + width == k * width) by (nonlinear_arith)
                requires
                    k >= 1,
            ;
            Some(vstd::slice::slice_to_vec(vstd::slice::slice_subrange(out.as_slice(), start - width, start)))
        } else {
            None
        };
        let mut i: usize = 0;
        while i < width
            invariant
                i <= width,
                width == row@.len(),
                0 < width <= i32::MAX / 2,
                sampler.line@ == row@,
                source_fits(row@, sampler.x1, sampler.x2),
                sampler.x1 as int == analyze_value(row@).0,
                sampler.x2 as int == analyze_value(row@).1,
                prev_row matches Some(v) ==> prev == Some(v@),
                prev_row is None ==> prev is None,
                out@ == before + denoised_row(row@, prev).take(i as int),
            decreases width - i,
        {
            let old_line: Option<&[u8]> = match &prev_row {
                Some(v) => Some(v.as_slice()),
                None => None,
            };
            let p = sampler.sample(i as u32, old_line);
            let v = match p {
                Some(x) => x,
                None => 0,
            };
            out.push(v);
            i = i + 1;
            assert(denoised_row(row@, prev).take(i as int) =~= denoised_row(row@, prev).take(i - 1).push(
                v,
            ));
        }
        assert(denoised_row(row@, prev).take(width as int) =~= denoised_row(row@, prev));
        assert(row@ == pixels@.subrange(k * width, (k + 1) * width));
        k = k + 1;
    }
    out
}

/// The position whose byte lands at position `i` when every `step`-th byte
/// (those at `offset` modulo `step`) moves by `shift_by` steps of `step`.
pub open spec fn shift_source(len: int, step: int, offset: int, shift_by: int, i: int) -> int {
    if (i + len - offset) % step == 0 {
        (((i + len) - step * shift_by) as usize) as int % len
    } else {
        i
    }
}

/// `x` after moving every `step`-th byte, starting at `offset`, by
/// `shift_by` steps (cyclically).
pub open spec fn shifted(x: Seq<u8>, step: int, offset: int, shift_by: int) -> Seq<u8> {
    Seq::new(x.len(), |i: int| x[shift_source(x.len() as int, step, offset, shift_by, i)])
}

/// The arithmetic of `shift_step` stays within `isize`.
pub open spec fn shift_fits(len: int, step: int, offset: int, shift_by: int) -> bool {
    &&& shift_by > isize::MIN
    &&& step <= isize::MAX
    &&& len > 0 ==> (step > 0 && offset <= len)
    &&& -isize::MAX <= step * shift_by <= isize::MAX
    &&& 2 * len + abs_int(step * shift_by) <= isize::MAX
}

/// Absolute value.
pub open spec fn abs_int(a: int) -> int {
    if a < 0 {
        -a
    } else {
        a
    }
}

/// Moves every `step`-th byte of `x`, starting at `offset`, by `shift_by`
/// steps, cyclically; `buf` is scratch space and ends up holding the result.
pub fn shift_step(x: &mut [u8], step: usize, offset: usize, shift_by: isize, buf: &mut Vec<u8>)
    requires
        shift_fits(old(x)@.len() as int, step as int, offset as int, shift_by as int),
    ensures
        final(x)@ == shifted(old(x)@, step as int, offset as int, shift_by as int),
        final(buf)@ == final(x)@,
{
    let ghost x0 = x@;
    let len = x.len();
    let neg = -shift_by;
    proof {
        assert(step * neg == -(step * shift_by)) by (nonlinear_arith)
            requires
                neg == -shift_by,
        ;
    }
    buf.clear();
    let mut i: usize = 0;
    while i < len
        invariant
            i <= len,
            len == x@.len(),
            x@ == x0,
            shift_fits(len as int, step as int, offset as int, shift_by as int),
            neg == -shift_by,
            step * neg == -(step * shift_by),
            buf@ == shifted(x0, step as int, offset as int, shift_by as int).take(i as int),
        decreases len - i,
    {
        if (i + len - offset) % step == 0 {
            let v: isize = (i + len) as isize + step as isize * neg;
            let src = v as usize % len;
            buf.push(x[src]);
        } else {
            buf.push(x[i]);
        }
        i = i + 1;
        assert(buf@ =~= shifted(x0, step as int, offset as int, shift_by as int).take(i as int));
    }
    assert(shifted(x0, step as int, offset as int, shift_by as int).take(len as int) =~= shifted(
        x0,
        step as int,
        offset as int,
        shift_by as int,
    ));
    let mut j: usize = 0;
    while j < len
        invariant
            j <= len,
            len == x@.len(),
            buf@.len() == len,
            forall|k: int| 0 <= k < j ==> x@[k] == buf@[k],
        decreases len - j,
    {
        x[j] = buf[j];
        j = j + 1;
    }
    assert(x@ =~= buf@);
}

/// The median of three bytes.
pub open spec fn median3(a: u8, b: u8, c: u8) -> u8 {
    let lo = if a <= b { a } else { b };
    let hi = if a <= b { b } else { a };
    if c <= lo {
        lo
    } else if c >= hi {
        hi
    } else {
        c
    }
}

/// The median of three bytes is one of them, with one of the other two at
/// or below it and the other at or above it; so, once it is subtracted
/// (saturating) from each, the median's own byte and the lower one become
/// zero and the higher one keeps what it exceeds the median by.
pub proof fn lemma_median3(a: u8, b: u8, c: u8)
    ensures
        ({
            let m = median3(a, b, c);
            &&& m == a || m == b || m == c
            &&& (a <= m && m <= b) || (b <= m && m <= a) || (a <= m && m <= c) || (c <= m && m <= a)
                || (b <= m && m <= c) || (c <= m && m <= b)
            &&& (m == a ==> ((b <= a && a <= c) || (c <= a && a <= b)))
            &&& (m == b ==> ((a <= b && b <= c) || (c <= b && b <= a)))
            &&& (m == c ==> ((a <= c && c <= b) || (b <= c && c <= a)))
            &&& sat_sub(m, m) == 0
        }),
{
}

/// Saturating subtraction of bytes.
pub open spec fn sat_sub(a: u8, b: u8) -> u8 {
    if a >= b {
        (a - b) as u8
    } else {
        0
    }
}

/// Every complete three-byte pixel of `row` with its median subtracted from
/// each of its bytes.
pub open spec fn median_subtracted(row: Seq<u8>) -> Seq<u8> {
    Seq::new(
        row.len(),
        |i: int|
            {
                let p = i - i % 3;
                if p + 3 <= row.len() {
                    sat_sub(row[i], median3(row[p], row[p + 1], row[p + 2]))
                } else {
                    row[i]
                }
            },
    )
}

/// One chunk of the study filter: median subtraction, then the bytes at 0
/// modulo 3 move two pixels left and those at 2 modulo 3 two pixels right.
pub open spec fn study_chunk(row: Seq<u8>) -> Seq<u8> {
    shifted(shifted(median_subtracted(row), 3, 0, 2), 3, 2, -2)
}

/// Where the study filter takes the byte at place `i` of a row of `len`
/// bytes from, in the row after median subtraction: the first byte of each
/// pixel comes from two pixels to the left, the third byte from two pixels
/// to the right (cyclically), the middle byte stays.
pub open spec fn study_source(len: int, i: int) -> int {
    if i % 3 == 0 {
        (i - 6) % len
    } else if i % 3 == 2 {
        (i + 6) % len
    } else {
        i
    }
}

proof fn lemma_study_chunk(row: Seq<u8>)
    requires
        6 <= row.len() <= 0x1000_0000,
        row.len() % 3 == 0,
    ensures
        study_chunk(row).len() == row.len(),
        forall|i: int|
            0 <= i < row.len() ==> #[trigger] study_chunk(row)[i] == median_subtracted(row)[study_source(
                row.len() as int,
                i,
            )],
{
    let len = row.len() as int;
    let m = median_subtracted(row);
    let y = shifted(m, 3, 0, 2);
    assert forall|i: int| 0 <= i < len implies #[trigger] study_chunk(row)[i] == m[study_source(len, i)] by {
        assert((i + len - 0) % 3 == i % 3) by (nonlinear_arith)
            requires
                len % 3 == 0,
        ;
        assert((i + len - 2) % 3 == 0 <==> i % 3 == 2) by (nonlinear_arith)
            requires
                len % 3 == 0,
        ;
        assert(((i + len) - 6) % len == (i - 6) % len) by (nonlinear_arith)
            requires
                len > 0,
        ;
        assert(((i + len) + 6) % len == (i + 6) % len) by (nonlinear_arith)
            requires
                len > 0,
        ;
        assert((((i + len) - 6) as usize) as int == (i + len) - 6);
        assert((((i + len) - 3 * -2) as usize) as int == (i + len) + 6);
        let j = (i + 6) % len;
        assert(0 <= j < len);
        let q = (i + 6) / len;
        let t = len / 3;
        vstd::arithmetic::div_mod::lemma_fundamental_div_mod(i + 6, len);
        assert(len == 3 * t);
        assert(j == 3 * (2 - q * t) + i) by (nonlinear_arith)
            requires
                j == (i + 6) - len * q,
                len == 3 * t,
        ;
        vstd::arithmetic::div_mod::lemma_mod_multiples_vanish(2 - q * t, i, 3);
        assert(j % 3 == i % 3);
        assert((j + len - 0) % 3 == j % 3) by (nonlinear_arith)
            requires
                len % 3 == 0,
        ;
        assert(0 <= (i - 6) % len < len);
    }
}

/// The study filter on whole rows of pixels: in each row of `width` bytes
/// (a multiple of three, at least two pixels), after the median of each
/// pixel's three bytes is subtracted, the first byte of every pixel moves
/// two pixels to the right and the third byte two pixels to the left,
/// cyclically within the row; the middle byte stays where it is.
pub proof fn lemma_study_moves(pixels: Seq<u8>, width: nat, k: nat)
    requires
        6 <= width <= 0x1000_0000,
        width % 3 == 0,
        k * width <= pixels.len(),
    ensures
        study_denoised(pixels, width, k).len() == k * width,
        forall|r: int, i: int|
            0 <= r < k && 0 <= i < width ==> #[trigger] study_denoised(pixels, width, k)[r * width + i]
                == median_subtracted(pixels.subrange(r * width, r * width + width))[study_source(width as int, i)],
    decreases k,
{
    if k > 0 {
        let k1 = (k - 1) as nat;
        assert(k1 * width + width == k * width) by (nonlinear_arith)
            requires
                k1 == k - 1,
        ;
        assert(k1 * width <= pixels.len());
        lemma_study_moves(pixels, width, k1);
        let row = pixels.subrange((k1 * width) as int, (k * width) as int);
        assert(row.len() == width);
        lemma_study_chunk(row);
        let prev = study_denoised(pixels, width, k1);
        assert(study_denoised(pixels, width, k) == prev + study_chunk(row));
        assert(study_denoised(pixels, width, k).len() == k * width);
        assert forall|r: int, i: int|
            0 <= r < k && 0 <= i < width implies #[trigger] study_denoised(pixels, width, k)[r * width + i]
                == median_subtracted(pixels.subrange(r * width, r * width + width))[study_source(width as int, i)] by {
            if r < k1 {
                assert(r * width + i < k1 * width) by (nonlinear_arith)
                    requires
                        r < k1,
                        i < width,
                ;
                assert(0 <= r * width) by (nonlinear_arith)
                    requires
                        r >= 0,
                        width >= 0,
                ;
                assert(study_denoised(pixels, width, k)[r * width + i] == prev[r * width + i]);
            } else {
                assert(r == k1);
                assert(r * width == k1 * width);
                assert(study_denoised(pixels, width, k)[r * width + i] == study_chunk(row)[i]);
                assert(pixels.subrange(r * width, r * width + width) == row);
            }
        }
    } else {
        assert(k * width == 0) by (nonlinear_arith) requires k == 0;
    }
}

/// The study filter over the buffer, chunk by chunk of `width` bytes; the
/// bytes past the last whole chunk stay as they are.
pub open spec fn study_denoised(pixels: Seq<u8>, width: nat, k: nat) -> Seq<u8>
    decreases k,
{
    if k == 0 {
        seq![]
    } else {
        study_denoised(pixels, width, (k - 1) as nat) + study_chunk(
            pixels.subrange((k - 1) * width, (k * width) as int),
        )
    }
}

fn median_of_three(a: u8, b: u8, c: u8) -> (r: u8)
    ensures
        r == median3(a, b, c),
{
    let lo = if a <= b { a } else { b };
    let hi = if a <= b { b } else { a };
    if c <= lo {
        lo
    } else if c >= hi {
        hi
    } else {
        c
    }
}

/// The study filter on an RGB buffer, taken in chunks of `width` bytes.
pub fn study_denoise(pixels: &[u8], width: usize) -> (r: Vec<u8>)
    requires
        2 <= width <= 0x1000_0000,
    ensures
        r@ == study_denoised(pixels@, width as nat, pixels@.len() / (width as nat)) + pixels@.skip(
            (pixels@.len() / (width as nat)) * width,
        ),
{
    let len = pixels.len();
    let h = len / width;
    let mut out: Vec<u8> = Vec::new();
    let mut buf: Vec<u8> = Vec::with_capacity(width);
    let mut k: usize = 0;
    assert(h * width <= len) by (nonlinear_arith)
        requires
            h == (len as int) / (width as int),
            width > 0,
    ;
    assert(h > 0 ==> len >= width) by (nonlinear_arith)
        requires
            h == (len as int) / (width as int),
            width > 0,
    ;
    while k < h
        invariant
            k <= h,
            2 <= width <= 0x1000_0000,
            h * width <= len,
            len == pixels@.len(),
            h == (len as nat) / (width as nat),
            out@ == study_denoised(pixels@, width as nat, k as nat),
        decreases h - k,
    {
        assert((k + 1) * width <= h * width) by (nonlinear_arith)
            requires
                k < h,
        ;
        assert((k + 1) * width == k * width + width) by (nonlinear_arith);
        let start = k * width;
        let mut row = vstd::slice::slice_to_vec(vstd::slice::slice_subrange(pixels, start, start + width));
        let ghost orig = row@;
        let mut p: usize = 0;
        while p + 3 <= width
            invariant
                p % 3 == 0,
                p <= width,
                width <= 0x1000_0000,
                row@.len() == width,
                orig.len() == width,
                forall|i: int| 0 <= i < p ==> row@[i] == #[trigger] median_subtracted(orig)[i],
                forall|i: int| p <= i < width ==> row@[i] == orig[i],
            decreases width - p,
        {
            let m = median_of_three(row[p], row[p + 1], row[p + 2]);
            let v0 = row[p];
            row.set(p, if v0 >= m { v0 - m } else { 0 });
            let v1 = row[p + 1];
            row.set(p + 1, if v1 >= m { v1 - m } else { 0 });
            let v2 = row[p + 2];
            row.set(p + 2, if v2 >= m { v2 - m } else { 0 });
            proof {
                assert forall|i: int| p <= i < p + 3 implies row@[i] == #[trigger] median_subtracted(orig)[i] by {
                    assert(i - i % 3 == p);
                }
            }
            p = p + 3;
        }
        proof {
            assert forall|i: int| p <= i < width implies row@[i] == #[trigger] median_subtracted(orig)[i] by {
                assert(i - i % 3 + 3 > width);
            }
            assert(row@ =~= median_subtracted(orig));
            assert(2 * (width as int) + 6 <= isize::MAX);
        }
        shift_step(row.as_mut_slice(), 3, 0, 2, &mut buf);
        shift_step(row.as_mut_slice(), 3, 2, -2, &mut buf);
        let mut j: usize = 0;
        let ghost before = out@;
        while j < width
            invariant
                j <= width,
                row@.len() == width,
                out@ == before + row@.take(j as int),
            decreases width - j,
        {
            out.push(row[j]);
            j = j + 1;
            assert(row@.take(j as int) == row@.take(j - 1).push(row@[j - 1]));
        }
        assert(row@.take(width as int) == row@);
        assert(orig == pixels@.subrange(k * width, (k + 1) * width));
        k = k + 1;
    }
    let tail_start = h * width;
    let mut j: usize = tail_start;
    let ghost before = out@;
    while j < len
        invariant
            tail_start <= j <= len,
            len == pixels@.len(),
            out@ == before + pixels@.subrange(tail_start as int, j as int),
        decreases len - j,
    {
        out.push(pixels[j]);
        j = j + 1;
        assert(pixels@.subrange(tail_start as int, j as int) == pixels@.subrange(tail_start as int, j - 1).push(
            pixels@[j - 1],
        ));
    }
    assert(pixels@.subrange(tail_start as int, len as int) == pixels@.skip(tail_start as int));
    out
}

/// How many bytes of `s` are brighter than 128.
pub open spec fn bright_count(s: Seq<u8>) -> int
    decreases s.len(),
{
    if s.len() == 0 {
        0
    } else {
        bright_count(s.drop_last()) + if s.last() > 128 { 1int } else { 0int }
    }
}

/// How far the window of 75 pixels at `k` is from holding 15 bright ones.
pub open spec fn window_score(row: Seq<u8>, k: int) -> int {
    abs_int(bright_count(row.subrange(k, k + 75)) - 15)
}

/// The last of the window positions `0..n` with the highest score.
pub open spec fn best_window(row: Seq<u8>, n: nat) -> int
    decreases n,
{
    if n <= 1 {
        0
    } else {
        let p = best_window(row, (n - 1) as nat);
        if window_score(row, n - 1) >= window_score(row, p) {
            n - 1
        } else {
            p
        }
    }
}

/// A row of the filtered video, rotated so that it starts right after its
/// window of 75 pixels that is furthest from holding 15 bright ones.
pub open spec fn filtered_row(row: Seq<u8>) -> Seq<u8> {
    let rot = best_window(row, (row.len() - 74) as nat) + 75;
    row.skip(rot) + row.take(rot)
}

/// The filter over all rows of `width` pixels.
pub open spec fn filtered_rows(pixels: Seq<u8>, width: nat, k: nat) -> Seq<u8>
    decreases k,
{
    if k == 0 {
        seq![]
    } else {
        filtered_rows(pixels, width, (k - 1) as nat) + filtered_row(
            pixels.subrange((k - 1) * width, (k * width) as int),
        )
    }
}

/// The bright pixels of a window are those above 128: `bright_count`
/// counts exactly them.
pub proof fn lemma_bright_count(s: Seq<u8>)
    ensures
        bright_count(s) == s.filter(|x: u8| x > 128).len(),
    decreases s.len(),
{
    reveal_with_fuel(Seq::filter, 2);
    if s.len() > 0 {
        lemma_bright_count(s.drop_last());
        assert(s.drop_last().push(s.last()) == s);
        s.drop_last().lemma_filter_push(s.last(), |x: u8| x > 128);
    }
}

/// `w` is the last of the window positions of `row` with the highest
/// score: no window scores more, and every later one scores less.
pub open spec fn is_last_best(row: Seq<u8>, w: int) -> bool {
    &&& 0 <= w <= row.len() - 75
    &&& forall|v: int| 0 <= v <= row.len() - 75 ==> #[trigger] window_score(row, v) <= window_score(row, w)
    &&& forall|v: int| w < v <= row.len() - 75 ==> #[trigger] window_score(row, v) < window_score(row, w)
}

proof fn lemma_best_window(row: Seq<u8>, n: nat)
    requires
        n >= 1,
    ensures
        0 <= best_window(row, n) < n,
        forall|v: int| 0 <= v < n ==> #[trigger] window_score(row, v) <= window_score(row, best_window(row, n)),
        forall|v: int| best_window(row, n) < v < n ==> #[trigger] window_score(row, v) < window_score(
            row,
            best_window(row, n),
        ),
    decreases n,
{
    if n > 1 {
        lemma_best_window(row, (n - 1) as nat);
    }
}

/// The filter on one row of at least 75 pixels rotates it to begin right
/// after its last window of 75 pixels that is furthest from holding 15
/// bright ones: output pixel `i` is input pixel `i + w + 75`, cyclically,
/// for the window `w`.
pub proof fn lemma_filtered_rotation(row: Seq<u8>)
    requires
        row.len() >= 75,
    ensures
        exists|w: int| is_last_best(row, w),
        filtered_row(row).len() == row.len(),
        forall|w: int, i: int|
            #![trigger is_last_best(row, w), filtered_row(row)[i]]
            is_last_best(row, w) && 0 <= i < row.len() ==> filtered_row(row)[i] == row[(i + w + 75) % (
            row.len() as int)],
{
    let n = (row.len() - 74) as nat;
    lemma_best_window(row, n);
    let b = best_window(row, n);
    assert(is_last_best(row, b));
    let len = row.len() as int;
    let rot = b + 75;
    assert forall|w: int, i: int|
        #![trigger is_last_best(row, w), filtered_row(row)[i]]
        is_last_best(row, w) && 0 <= i < row.len() implies filtered_row(row)[i] == row[(i + w + 75) % len] by {
        if w < b {
            assert(window_score(row, b) < window_score(row, w));
        } else if b < w {
            assert(window_score(row, w) < window_score(row, b));
        }
        assert(w == b);
        if i + rot < len {
            assert((i + rot) % len == i + rot) by {
                vstd::arithmetic::div_mod::lemma_small_mod((i + rot) as nat, len as nat);
            }
        } else {
            assert((i + rot) % len == i + rot - len) by {
                vstd::arithmetic::div_mod::lemma_mod_multiples_vanish(1, i + rot - len, len);
                vstd::arithmetic::div_mod::lemma_small_mod((i + rot - len) as nat, len as nat);
            }
        }
    }
}

/// The filter on whole rows: every row of `width` pixels (at least 75) is
/// rotated as `lemma_filtered_rotation` says, in place.
pub proof fn lemma_filtered_rows(pixels: Seq<u8>, width: nat, k: nat)
    requires
        width >= 75,
        k * width <= pixels.len(),
    ensures
        filtered_rows(pixels, width, k).len() == k * width,
        forall|r: int, i: int|
            0 <= r < k && 0 <= i < width ==> #[trigger] filtered_rows(pixels, width, k)[r * width + i]
                == filtered_row(pixels.subrange(r * width, r * width + width))[i],
    decreases k,
{
    if k > 0 {
        let k1 = (k - 1) as nat;
        assert(k1 * width + width == k * width) by (nonlinear_arith)
            requires
                k1 == k - 1,
        ;
        lemma_filtered_rows(pixels, width, k1);
        let row = pixels.subrange((k1 * width) as int, (k * width) as int);
        assert(row.len() == width);
        lemma_filtered_rotation(row);
        let prev = filtered_rows(pixels, width, k1);
        assert(filtered_rows(pixels, width, k) == prev + filtered_row(row));
        assert forall|r: int, i: int|
            0 <= r < k && 0 <= i < width implies #[trigger] filtered_rows(pixels, width, k)[r * width + i]
                == filtered_row(pixels.subrange(r * width, r * width + width))[i] by {
            if r < k1 {
                assert(r * width + i < k1 * width) by (nonlinear_arith)
                    requires
                        r < k1,
                        i < width,
                ;
                assert(0 <= r * width) by (nonlinear_arith)
                    requires
                        r >= 0,
                        width >= 0,
                ;
                assert(filtered_rows(pixels, width, k)[r * width + i] == prev[r * width + i]);
            } else {
                assert(r == k1);
                assert(filtered_rows(pixels, width, k)[r * width + i] == filtered_row(row)[i]);
                assert(pixels.subrange(r * width, r * width + width) == row);
            }
        }
    } else {
        assert(k * width == 0) by (nonlinear_arith) requires k == 0;
    }
}

fn count_bright(s: &[u8], start: usize, end: usize) -> (r: usize)
    requires
        start <= end <= s@.len(),
    ensures
        r as int == bright_count(s@.subrange(start as int, end as int)),
        r <= end - start,
{
    let mut c: usize = 0;
    let mut i = start;
    while i < end
        invariant
            start <= i <= end,
            end <= s@.len(),
            c as int == bright_count(s@.subrange(start as int, i as int)),
            c <= i - start,
        decreases end - i,
    {
        assert(s@.subrange(start as int, i + 1).drop_last() == s@.subrange(start as int, i as int));
        if s[i] > 128 {
            c = c + 1;
        }
        i = i + 1;
    }
    c
}

/// Rotates one row as the filter does.
fn filter_row(row: &[u8]) -> (r: Vec<u8>)
    requires
        75 <= row@.len(),
    ensures
        r@ == filtered_row(row@),
{
    let len = row.len();
    let n = len - 74;
    let mut best: usize = 0;
    let mut best_score: usize = 0;
    let mut k: usize = 0;
    while k < n
        invariant
            k <= n,
            n == row@.len() - 74,
            len == row@.len(),
            k > 0 ==> best as int == best_window(row@, k as nat),
            k > 0 ==> best_score as int == window_score(row@, best as int),
            k > 0 ==> best < k,
        decreases n - k,
    {
        let c = count_bright(row, k, k + 75);
        let score = if c >= 15 { c - 15 } else { 15 - c };
        if k == 0 || score >= best_score {
            best = k;
            best_score = score;
        }
        k = k + 1;
    }
    let rot = best + 75;
    let mut out: Vec<u8> = Vec::new();
    let mut i = rot;
    while i < len
        invariant
            rot <= i <= len,
            len == row@.len(),
            out@ == row@.subrange(rot as int, i as int),
        decreases len - i,
    {
        out.push(row[i]);
        i = i + 1;
        assert(row@.subrange(rot as int, i as int) == row@.subrange(rot as int, i - 1).push(row@[i - 1]));
    }
    let mut i: usize = 0;
    let ghost first = out@;
    while i < rot
        invariant
            i <= rot,
            rot <= len,
            len == row@.len(),
            out@ == first + row@.take(i as int),
        decreases rot - i,
    {
        out.push(row[i]);
        i = i + 1;
        assert(row@.take(i as int) == row@.take(i - 1).push(row@[i - 1]));
    }
    assert(first == row@.skip(rot as int));
    out
}

/// The filter for the filtered video: each row of `width` pixels is rotated
/// to start after its window of 75 pixels that is furthest from holding 15
/// bright ones. A row narrower than the window has no such window.
pub fn filtered_denoise(pixels: &[u8], width: usize) -> (r: Vec<u8>)
    requires
        width > 0,
        pixels@.len() >= width ==> 75 <= width,
    ensures
        r@ == filtered_rows(pixels@, width as nat, pixels@.len() / (width as nat)),
{
    let len = pixels.len();
    let h = len / width;
    let mut out: Vec<u8> = Vec::new();
    let mut k: usize = 0;
    assert(h * width <= len) by (nonlinear_arith)
        requires
            h == (len as int) / (width as int),
            width > 0,
    ;
    assert(h > 0 ==> len >= width) by (nonlinear_arith)
        requires
            h == (len as int) / (width as int),
            width > 0,
    ;
    while k < h
        invariant
            k <= h,
            width > 0,
            h > 0 ==> 75 <= width,
            h * width <= len,
            len == pixels@.len(),
            h == (len as nat) / (width as nat),
            out@ == filtered_rows(pixels@, width as nat, k as nat),
        decreases h - k,
    {
        assert((k + 1) * width <= h * width) by (nonlinear_arith)
            requires
                k < h,
        ;
        assert((k + 1) * width == k * width + width) by (nonlinear_arith);
        let start = k * width;
        let row = vstd::slice::slice_subrange(pixels, start, start + width);
        let mut rotated = filter_row(row);
        out.append(&mut rotated);
        k = k + 1;
    }
    out
}

/// Column `col` of an image `w` bytes wide, one byte per row (zero where the
/// column runs past the data).
pub open spec fn column(img: Seq<u8>, w: int, col: int) -> Seq<u8> {
    Seq::new(
        (img.len() as int / w) as nat,
        |k: int|
            if col + k * w < img.len() {
                img[col + k * w]
            } else {
                0u8
            },
    )
}

/// Division truncated toward zero.
pub open spec fn trunc_div(a: int, b: int) -> int {
    if a >= 0 {
        a / b
    } else {
        -((-a) / b)
    }
}

/// Where the average of a line's two copy positions falls on a scale of
/// 0 to 255: `(x1 + x2) / 2 + w` over `w * 2 / 255`, both divisions
/// truncated, clamped to 0..=255. With a zero divisor the value is 255 for
/// a positive numerator and 0 otherwise.
pub open spec fn column_value_spec(x1: int, x2: int, w: int) -> u8 {
    let a = trunc_div(x1 + x2, 2) + w;
    let b = (w * 2) / 255;
    if b == 0 {
        if a > 0 {
            255
        } else {
            0
        }
    } else {
        let q = trunc_div(a, b);
        if q < 0 {
            0
        } else if q > 255 {
            255
        } else {
            q as u8
        }
    }
}

/// The value that the graph of a line's copy positions plots: see
/// `column_value_spec`. The quotient is that of the two integers; in
/// floating point it truncates to the same value wherever it lies in
/// 0..=255, as the divisor is below 2^32.
pub fn column_value(x1: i32, x2: i32, w: u32) -> (r: u8)
    requires
        w <= i32::MAX,
        i32::MIN <= x1 + x2 <= i32::MAX,
        i32::MIN <= trunc_div(x1 + x2, 2) + w <= i32::MAX,
    ensures
        r == column_value_spec(x1 as int, x2 as int, w as int),
{
    let s: i64 = x1 as i64 + x2 as i64;
    let h: i64 = if s >= 0 {
        s / 2
    } else {
        -((-s) / 2)
    };
    let a: i64 = h + w as i64;
    let b: i64 = (w as i64 * 2) / 255;
    if b == 0 {
        if a > 0 {
            255
        } else {
            0
        }
    } else {
        let q: i64 = if a >= 0 {
            a / b
        } else {
            -((-a) / b)
        };
        if q < 0 {
            0
        } else if q > 255 {
            255
        } else {
            q as u8
        }
    }
}

/// Column `col` of an image `w` bytes wide.
pub fn take_column(img: &[u8], w: u32, col: u32) -> (r: Vec<u8>)
    requires
        w > 0,
    ensures
        r@ == column(img@, w as int, col as int),
{
    let len = img.len();
    let wu = w as usize;
    let h = len / wu;
    let mut out: Vec<u8> = Vec::new();
    let mut k: usize = 0;
    let mut pos: u128 = col as u128;
    while k < h
        invariant
            k <= h,
            wu == w,
            wu > 0,
            h == len / wu,
            len == img@.len(),
            pos == col + k * w,
            k * wu <= len,
            out@ == column(img@, w as int, col as int).take(k as int),
        decreases h - k,
    {
        let v = if pos < len as u128 {
            img[pos as usize]
        } else {
            0
        };
        out.push(v);
        assert(out@ =~= column(img@, w as int, col as int).take(k + 1));
        assert((k + 1) * wu <= h * wu) by (nonlinear_arith)
            requires
                k < h,
        ;
        assert(h * wu <= len) by (nonlinear_arith)
            requires
                h == (len as int) / (wu as int),
                wu > 0,
        ;
        assert(col + (k + 1) * w == col + k * w + w) by (nonlinear_arith);
        pos = pos + w as u128;
        k = k + 1;
    }
    out
}


/// The worth of one window of the stripe search: its first luma byte and
/// the one 250 bytes further.
pub open spec fn window_worth(a: u8, b: u8) -> int {
    if a > 0xc0 && b > 1 {
        1
    } else if a > 1 {
        -100
    } else {
        0
    }
}

/// `window_worth` summed over the windows of 252 bytes that start from
/// byte 1690 up to `p`.
pub open spec fn stripe_sum(row: Seq<u8>, p: int) -> int
    decreases p - 1690,
{
    if p <= 1690 || p + 252 > row.len() + 1 {
        0
    } else {
        stripe_sum(row, p - 1) + window_worth(row[p - 1], row[p - 1 + 250])
    }
}

/// The stripe score of a row of luma-alpha bytes: `window_worth` over every
/// window of 252 bytes from byte 1690 on.
pub open spec fn stripe_score(row: Seq<u8>) -> int {
    if row.len() < 1942 {
        0
    } else {
        stripe_sum(row, row.len() - 251)
    }
}

/// The stripe score of one row (see `stripe_score`).
pub fn split_row_score(row: &[u8]) -> (r: i64)
    requires
        row@.len() <= 0x1_0000_0000_0000,
    ensures
        r as int == stripe_score(row@),
{
    let n = row.len();
    if n < 1942 {
        return 0;
    }
    let mut sum: i64 = 0;
    let mut p: usize = 1690;
    while p < n - 251
        invariant
            1690 <= p <= n - 251,
            n == row@.len(),
            n >= 1942,
            sum as int == stripe_sum(row@, p as int),
            -100 * (p - 1690) <= sum <= p - 1690,
            n <= 0x1_0000_0000_0000,
        decreases n - 251 - p,
    {
        let a = row[p];
        let b = row[p + 250];
        let v: i64 = if a > 0xc0 && b > 1 {
            1
        } else if a > 1 {
            -100
        } else {
            0
        };
        sum = sum + v;
        p = p + 1;
    }
    sum
}

/// The stripe scores of rows 1300 to 1399 of a luma-alpha picture whose
/// rows hold `row_len` bytes, each with its row number.
pub fn split_img(pixels: &[u8], row_len: usize, height: usize) -> (r: Vec<(usize, i64)>)
    requires
        pixels@.len() == row_len * height,
        row_len <= 0x1_0000_0000_0000,
    ensures
        r@.len() == (if height <= 1300 {
            0
        } else if height >= 1400 {
            100
        } else {
            height - 1300
        }),
        forall|k: int|
            0 <= k < r@.len() ==> #[trigger] r@[k].0 == 1300 + k && r@[k].1 as int == stripe_score(
                pixels@.subrange((1300 + k) * row_len, (1301 + k) * row_len),
            ),
{
    let mut out: Vec<(usize, i64)> = Vec::new();
    if height <= 1300 {
        return out;
    }
    let mut i: usize = 1300;
    let end: usize = if height < 1400 {
        height
    } else {
        1400
    };
    let flen = pixels.len();
    while i < end
        invariant
            1300 <= i <= end,
            end <= height,
            row_len <= 0x1_0000_0000_0000,
            end == (if height < 1400 {
                height
            } else {
                1400
            }),
            flen == pixels@.len(),
            pixels@.len() == row_len * height,
            out@.len() == i - 1300,
            forall|k: int|
                0 <= k < out@.len() ==> #[trigger] out@[k].0 == 1300 + k && out@[k].1 as int == stripe_score(
                    pixels@.subrange((1300 + k) * row_len, (1301 + k) * row_len),
                ),
        decreases end - i,
    {
        assert((i + 1) * row_len <= flen) by (nonlinear_arith)
            requires
                i < height,
                flen == row_len * height,
        ;
        assert(i * row_len + row_len == (i + 1) * row_len) by (nonlinear_arith);
        let start = i * row_len;
        let row = vstd::slice::slice_subrange(pixels, start, start + row_len);
        let v = split_row_score(row);
        let ghost o0 = out@;
        out.push((i, v));
        assert forall|k: int|
            0 <= k < out@.len() implies #[trigger] out@[k].0 == 1300 + k && out@[k].1 as int == stripe_score(
                pixels@.subrange((1300 + k) * row_len, (1301 + k) * row_len),
            ) by {
            if k < o0.len() {
                assert(out@[k] == o0[k]);
            } else {
                assert(k == i - 1300);
            }
        }
        i = i + 1;
    }
    out
}

/// The edge mark of a luma byte against the byte to its right: 255 where
/// the right one is darker by more than 20, else 0. The last byte of each
/// row, and the bytes after the last whole row, stay.
pub open spec fn edge_value(pixels: Seq<u8>, width: int, p: int) -> u8 {
    if p < (pixels.len() as int / width) * width && p % width < width - 1 {
        if pixels[p + 1] + 20 < pixels[p] {
            255
        } else {
            0
        }
    } else {
        pixels[p]
    }
}

/// Marks the edges of a luma picture with rows of `width` bytes (see
/// `edge_value`).
pub fn edge_marks(pixels: &mut Vec<u8>, width: usize)
    requires
        width > 0,
    ensures
        final(pixels)@ == Seq::new(old(pixels)@.len(), |p: int| edge_value(old(pixels)@, width as int, p)),
{
    let ghost src = pixels@;
    let n = pixels.len();
    let q = n / width;
    assert(q * width <= n) by (nonlinear_arith)
        requires
            q == n / width,
            width > 0,
    ;
    let full = q * width;
    let mut p: usize = 0;
    while p < n
        invariant
            p <= n,
            n == src.len(),
            pixels@.len() == n,
            width > 0,
            full == (n / width) * width,
            full <= n,
            forall|q: int| 0 <= q < n ==> #[trigger] pixels@[q] == if q < p {
                edge_value(src, width as int, q)
            } else {
                src[q]
            },
        decreases n - p,
    {
        let v = if p < full && p % width < width - 1 {
            proof {
                vstd::arithmetic::div_mod::lemma_fundamental_div_mod(p as int, width as int);
                assert(p + 1 < full) by (nonlinear_arith)
                    requires
                        p == width * (p / width) + p % width,
                        p % width < width - 1,
                        p < full,
                        full == (n / width) * width,
                        width > 0,
                ;
            }
            let right = pixels[p + 1];
            let here = pixels[p];
            if (right as i32) < (here as i32) - 20 {
                255
            } else {
                0
            }
        } else {
            pixels[p]
        };
        pixels.set(p, v);
        p = p + 1;
    }
    assert(pixels@ =~= Seq::new(src.len(), |q: int| edge_value(src, width as int, q)));
}

/// The colour of the `k`-th mark of a rating: red, green and blue in turn.
pub open spec fn mark_color(k: int, ch: int) -> u8 {
    if k % 3 == ch {
        0xff
    } else {
        0
    }
}

/// A byte of an RGB picture after the marks of a rating `b` in column `a`:
/// the rows `b`, `2b`, ... below `height` are coloured in turn.
pub open spec fn marked_value(img: Seq<u8>, width: int, height: int, a: int, b: int, p: int) -> u8 {
    let pix = p / 3;
    let row = pix / width;
    if pix % width == a && row < height && row >= b && row % b == 0 {
        mark_color(row / b - 1, p % 3)
    } else {
        img[p]
    }
}

/// Marks the rating `b` of column `a` on an RGB picture of `width` ×
/// `height` pixels (see `marked_value`).
pub fn mark_rating(img: &mut Vec<u8>, width: u32, height: u32, a: u32, b: u32)
    requires
        old(img)@.len() == width * height * 3,
        a < width || height <= b,
        b > 0,
        height + b <= u32::MAX + 1,
    ensures
        final(img)@ == Seq::new(
            old(img)@.len(),
            |p: int| marked_value(old(img)@, width as int, height as int, a as int, b as int, p),
        ),
{
    let ghost src = img@;
    let n = img.len();
    let mut p: usize = 0;
    while p < n
        invariant
            p <= n,
            n == src.len(),
            img@.len() == n,
            n == width * height * 3,
            b > 0,
            forall|q: int| 0 <= q < n ==> #[trigger] img@[q] == if q < p {
                marked_value(src, width as int, height as int, a as int, b as int, q)
            } else {
                src[q]
            },
        decreases n - p,
    {
        assert(width > 0) by (nonlinear_arith)
            requires
                p < n,
                n == width * height * 3,
        ;
        let pix = p / 3;
        let row = pix / (width as usize);
        let col = pix % (width as usize);
        let v = if col == a as usize && row < height as usize && row >= b as usize && row % (b as usize) == 0 {
            assert(row / (b as usize) >= 1) by (nonlinear_arith)
                requires
                    row >= b,
                    b > 0,
            ;
            let k = row / (b as usize) - 1;
            if k % 3 == p % 3 {
                0xff
            } else {
                0
            }
        } else {
            img[p]
        };
        img.set(p, v);
        p = p + 1;
    }
    assert(img@ =~= Seq::new(
        src.len(),
        |q: int| marked_value(src, width as int, height as int, a as int, b as int, q),
    ));
}
} // verus!
