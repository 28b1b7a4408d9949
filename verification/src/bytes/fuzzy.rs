//! Replacing a window of bytes that holds the same bytes as a pattern, in
//! any order, by another byte string.
use vstd::prelude::*;
use std::collections::VecDeque;
use crate::bytes::CipherError;

verus! {

/// How often each byte value occurs in `a` (a table of 256 counts).
pub open spec fn count_table(a: Seq<u8>) -> Seq<int>
    decreases a.len(),
{
    if a.len() == 0 {
        Seq::new(256, |v: int| 0int)
    } else {
        let t = count_table(a.drop_last());
        t.update(a.last() as int, t[a.last() as int] + 1)
    }
}

/// Every count of the table is zero.
pub open spec fn all_zero(t: Seq<int>) -> bool {
    forall|v: int| 0 <= v < t.len() ==> #[trigger] t[v] == 0
}

/// The scanner's state after some input: the bytes already emitted, the
/// count differences between the pattern and the window, the window, and
/// whether the single replacement has been made.
pub type FuzzyState = (Seq<u8>, Seq<int>, Seq<u8>, bool);

/// One input byte: it enters the window, the window's oldest byte leaves
/// when the window grows past the pattern's length, and a window that holds
/// the pattern's bytes is replaced by `b`.
pub open spec fn fuzzy_step(a: Seq<u8>, b: Seq<u8>, single: bool, st: FuzzyState, val: u8) -> FuzzyState {
    let t1 = st.1.update(val as int, st.1[val as int] - 1);
    let buf1 = st.2.push(val);
    let ret2 = if buf1.len() > a.len() { st.0.push(buf1[0]) } else { st.0 };
    let t2 = if buf1.len() > a.len() { t1.update(buf1[0] as int, t1[buf1[0] as int] + 1) } else { t1 };
    let buf2 = if buf1.len() > a.len() { buf1.drop_first() } else { buf1 };
    if !st.3 && buf2.len() == a.len() && all_zero(t2) {
        (ret2, count_table(a), b, single)
    } else {
        (ret2, t2, buf2, st.3)
    }
}

/// The scanner's state after all of `data`.
pub open spec fn fuzzy_run(a: Seq<u8>, b: Seq<u8>, single: bool, data: Seq<u8>) -> FuzzyState
    decreases data.len(),
{
    if data.len() == 0 {
        (seq![], count_table(a), seq![], false)
    } else {
        fuzzy_step(a, b, single, fuzzy_run(a, b, single, data.drop_last()), data.last())
    }
}

/// What fuzzy replacement of `a` by `b` makes of `data`: an error when a
/// single replacement was asked for and no window matched.
pub open spec fn fuzzy_output(a: Seq<u8>, b: Seq<u8>, single: bool, data: Seq<u8>) -> Result<Seq<u8>, CipherError> {
    let st = fuzzy_run(a, b, single, data);
    if single && !st.3 {
        Err(CipherError::FuzzyMatchNotFound)
    } else {
        Ok(st.0 + st.2)
    }
}

proof fn lemma_count_table_shape(a: Seq<u8>)
    ensures
        count_table(a).len() == 256,
        forall|v: int| 0 <= v < 256 ==> 0 <= #[trigger] count_table(a)[v] <= a.len(),
    decreases a.len(),
{
    if a.len() > 0 {
        lemma_count_table_shape(a.drop_last());
    }
}

/// The table of counts of `a`.
fn make_count_table(a: &Vec<u8>) -> (t: Vec<i128>)
    ensures
        t@.len() == 256,
        forall|v: int| 0 <= v < 256 ==> t@[v] as int == #[trigger] count_table(a@)[v],
{
    let mut t: Vec<i128> = Vec::new();
    while t.len() < 256
        invariant
            t.len() <= 256,
            forall|v: int| 0 <= v < t.len() ==> t@[v] == 0,
        decreases 256 - t.len(),
    {
        t.push(0);
    }
    let mut i: usize = 0;
    while i < a.len()
        invariant
            i <= a.len(),
            t@.len() == 256,
            forall|v: int| 0 <= v < 256 ==> t@[v] as int == #[trigger] count_table(a@.take(i as int))[v],
        decreases a.len() - i,
    {
        proof {
            assert(a@.take(i + 1).drop_last() == a@.take(i as int));
            lemma_count_table_shape(a@.take(i as int));
        }
        let x = a[i] as usize;
        assert(count_table(a@.take(i as int))[x as int] <= i);
        let old_v = t[x];
        t.set(x, old_v + 1);
        i = i + 1;
    }
    assert(a@.take(a.len() as int) == a@);
    t
}

fn table_is_zero(t: &Vec<i128>) -> (r: bool)
    requires
        t@.len() == 256,
    ensures
        r == (forall|v: int| 0 <= v < 256 ==> #[trigger] t@[v] == 0),
{
    let mut i: usize = 0;
    while i < 256
        invariant
            i <= 256,
            t@.len() == 256,
            forall|v: int| 0 <= v < i ==> #[trigger] t@[v] == 0,
        decreases 256 - i,
    {
        if t[i] != 0 {
            return false;
        }
        i = i + 1;
    }
    true
}

/// Replaces a window of the input that holds the bytes of a pattern, in any
/// order, by a replacement; once only when `single`.
pub struct FuzzyReplace(Vec<u8>, Vec<u8>, bool);

impl View for FuzzyReplace {
    type V = (Seq<u8>, Seq<u8>, bool);

    closed spec fn view(&self) -> (Seq<u8>, Seq<u8>, bool) {
        (self.0@, self.1@, self.2)
    }
}

/// Fuzzy replacement of the bytes `a` by `b`; `single` asks for exactly
/// one replacement.
pub fn fuzzy_replace(a: &[u8], b: &[u8], single: bool) -> (r: FuzzyReplace)
    ensures
        r@ == (a@, b@, single),
{
    FuzzyReplace(vstd::slice::slice_to_vec(a), vstd::slice::slice_to_vec(b), single)
}

impl FuzzyReplace {
    /// Scans `data` and replaces matching windows. In single mode, data in
    /// which no window matches gives `FuzzyMatchNotFound`, which stands in
    /// for a panic.
    pub fn run(&self, data: &[u8]) -> (r: Result<Vec<u8>, CipherError>)
        ensures
            match r {
                Ok(v) => fuzzy_output(self@.0, self@.1, self@.2, data@) == Ok::<Seq<u8>, CipherError>(v@),
                Err(e) => fuzzy_output(self@.0, self@.1, self@.2, data@) == Err::<Seq<u8>, CipherError>(e),
            },
    {
        let ghost a = self.0@;
        let ghost b = self.1@;
        let single = self.2;
        let mut ret: Vec<u8> = Vec::new();
        let target0 = make_count_table(&self.0);
        let mut target = target0.clone();
        proof {
            lemma_count_table_shape(a);
            assert(target@ =~= target0@);
        }
        let mut buf: VecDeque<u8> = VecDeque::new();
        let mut done = false;
        let mut i: usize = 0;
        while i < data.len()
            invariant
                i <= data.len(),
                a == self.0@,
                b == self.1@,
                single == self.2,
                target0@.len() == 256,
                target@.len() == 256,
                count_table(a).len() == 256,
                forall|v: int| 0 <= v < 256 ==> target0@[v] as int == #[trigger] count_table(a)[v],
                forall|v: int| 0 <= v < 256 ==> 0 <= #[trigger] count_table(a)[v] <= a.len(),
                forall|v: int| 0 <= v < 256 ==> -(i as int) <= #[trigger] target@[v] - count_table(a)[v] <= i,
                ({
                    let st = fuzzy_run(a, b, single, data@.take(i as int));
                    &&& st.0 == ret@
                    &&& st.2 == buf@
                    &&& st.3 == done
                    &&& st.1.len() == 256
                    &&& forall|v: int| 0 <= v < 256 ==> #[trigger] st.1[v] == target@[v] as int
                }),
            decreases data.len() - i,
        {
            let val = data[i];
            proof {
                assert(data@.take(i + 1).drop_last() == data@.take(i as int));
                assert(data@.take(i + 1).last() == val);
            }
            let ghost st0 = fuzzy_run(a, b, single, data@.take(i as int));
            let tv = target[val as usize];
            target.set(val as usize, tv - 1);
            buf.push_back(val);
            let ghost t1 = st0.1.update(val as int, st0.1[val as int] - 1);
            let ghost buf1 = st0.2.push(val);
            let ghost ret2 = if buf1.len() > a.len() { st0.0.push(buf1[0]) } else { st0.0 };
            let ghost t2 = if buf1.len() > a.len() { t1.update(buf1[0] as int, t1[buf1[0] as int] + 1) } else { t1 };
            let ghost buf2 = if buf1.len() > a.len() { buf1.drop_first() } else { buf1 };
            assert(forall|v: int| 0 <= v < 256 ==> #[trigger] t1[v] == target@[v] as int);
            if buf.len() > self.0.len() {
                let first = buf[0];
                let popped = buf.pop_front();
                proof {
                    assert(popped == Some(first));
                }
                let tf = target[first as usize];
                target.set(first as usize, tf + 1);
                ret.push(first);
            }
            assert(buf@ == buf2);
            assert(ret@ == ret2);
            assert(forall|v: int| 0 <= v < 256 ==> #[trigger] t2[v] == target@[v] as int);
            let is_zero = table_is_zero(&target);
            let ghost st1 = fuzzy_step(a, b, single, st0, val);
            if !done && buf.len() == self.0.len() && is_zero {
                assert(all_zero(t2));
                buf.clear();
                let mut k: usize = 0;
                while k < self.1.len()
                    invariant
                        k <= self.1.len(),
                        buf@ == self.1@.take(k as int),
                    decreases self.1.len() - k,
                {
                    buf.push_back(self.1[k]);
                    k = k + 1;
                    assert(self.1@.take(k as int) == self.1@.take(k - 1).push(self.1@[k - 1]));
                }
                assert(self.1@.take(self.1.len() as int) == self.1@);
                target = target0.clone();
                assert(target@ =~= target0@);
                if single {
                    done = true;
                }
            } else {
                proof {
                    if !done && buf.len() == a.len() {
                        assert(!all_zero(t2)) by {
                            let w = choose|w: int| 0 <= w < 256 && #[trigger] target@[w] != 0;
                            assert(t2[w] != 0);
                        }
                    }
                }
            }
            i = i + 1;
            proof {
                assert(fuzzy_run(a, b, single, data@.take(i as int)) == st1);
            }
        }
        proof {
            assert(data@.take(data.len() as int) == data@);
        }
        if single && !done {
            return Err(CipherError::FuzzyMatchNotFound);
        }
        let n = buf.len();
        let mut k: usize = 0;
        let ghost ret0 = ret@;
        while k < n
            invariant
                k <= n,
                n == buf@.len(),
                ret@ == ret0 + buf@.take(k as int),
            decreases n - k,
        {
            ret.push(buf[k]);
            k = k + 1;
            assert(buf@.take(k as int) == buf@.take(k - 1).push(buf@[k - 1]));
        }
        assert(buf@.take(n as int) == buf@);
        Ok(ret)
    }
}


/// The scanner's state after `data`, from the state `st`.
pub open spec fn fuzzy_run_from(a: Seq<u8>, b: Seq<u8>, single: bool, st: FuzzyState, data: Seq<u8>) -> FuzzyState
    decreases data.len(),
{
    if data.len() == 0 {
        st
    } else {
        fuzzy_step(a, b, single, fuzzy_run_from(a, b, single, st, data.drop_last()), data.last())
    }
}

proof fn lemma_run_from_start(a: Seq<u8>, b: Seq<u8>, single: bool, data: Seq<u8>)
    ensures
        fuzzy_run_from(a, b, single, (seq![], count_table(a), seq![], false), data) == fuzzy_run(a, b, single, data),
    decreases data.len(),
{
    if data.len() > 0 {
        lemma_run_from_start(a, b, single, data.drop_last());
    }
}

proof fn lemma_run_concat(a: Seq<u8>, b: Seq<u8>, single: bool, st: FuzzyState, x: Seq<u8>, y: Seq<u8>)
    ensures
        fuzzy_run_from(a, b, single, st, x + y) == fuzzy_run_from(a, b, single, fuzzy_run_from(a, b, single, st, x), y),
    decreases y.len(),
{
    if y.len() == 0 {
        assert(x + y == x);
    } else {
        assert((x + y).drop_last() == x + y.drop_last());
        assert((x + y).last() == y.last());
        lemma_run_concat(a, b, single, st, x, y.drop_last());
    }
}

proof fn lemma_count_table_multiset(s: Seq<u8>)
    ensures
        count_table(s).len() == 256,
        forall|v: u8| #[trigger] count_table(s)[v as int] == s.to_multiset().count(v),
    decreases s.len(),
{
    broadcast use vstd::seq_lib::group_to_multiset_ensures;
    if s.len() == 0 {
        assert forall|v: u8| #[trigger] count_table(s)[v as int] == s.to_multiset().count(v) by {}
    } else {
        lemma_count_table_multiset(s.drop_last());
        assert(s.drop_last().push(s.last()) == s);
        assert(s.to_multiset() =~= s.drop_last().to_multiset().insert(s.last()));
    }
}

/// The differences between the pattern's counts and those of `q`.
spec fn left_counts(a: Seq<u8>, q: Seq<u8>) -> Seq<int> {
    Seq::new(256, |v: int| count_table(a)[v] - count_table(q)[v])
}

proof fn lemma_prefix_state(a: Seq<u8>, b: Seq<u8>, single: bool, q: Seq<u8>)
    requires
        q.len() < a.len(),
    ensures
        fuzzy_run(a, b, single, q) == (Seq::<u8>::empty(), left_counts(a, q), q, false),
    decreases q.len(),
{
    lemma_count_table_shape(a);
    if q.len() == 0 {
        assert(left_counts(a, q) =~= count_table(a));
    } else {
        let r = q.drop_last();
        lemma_prefix_state(a, b, single, r);
        lemma_count_table_shape(r);
        let v = q.last();
        assert(r.push(v) == q);
        assert(left_counts(a, r).update(v as int, left_counts(a, r)[v as int] - 1) =~= left_counts(a, q));
    }
}

/// After a whole window `p` that holds the pattern's bytes in any order
/// (and no earlier window), the replacement has been made: nothing is
/// emitted yet, the window is the replacement, and the single replacement
/// counts as made only in single mode.
proof fn lemma_first_window(a: Seq<u8>, b: Seq<u8>, single: bool, p: Seq<u8>)
    requires
        a.len() > 0,
        p.len() == a.len(),
        p.to_multiset() == a.to_multiset(),
    ensures
        fuzzy_run(a, b, single, p) == (Seq::<u8>::empty(), count_table(a), b, single),
{
    let q = p.drop_last();
    lemma_prefix_state(a, b, single, q);
    lemma_count_table_multiset(a);
    lemma_count_table_multiset(p);
    lemma_count_table_shape(q);
    let v = p.last();
    assert(q.push(v) == p);
    let t2 = left_counts(a, q).update(v as int, left_counts(a, q)[v as int] - 1);
    assert(t2 =~= left_counts(a, p));
    assert forall|u: int| 0 <= u < t2.len() implies #[trigger] t2[u] == 0 by {
        assert(count_table(a)[(u as u8) as int] == count_table(p)[(u as u8) as int]);
    }
}

proof fn lemma_done_passes(a: Seq<u8>, b: Seq<u8>, single: bool, st: FuzzyState, y: Seq<u8>)
    requires
        st.3,
    ensures
        fuzzy_run_from(a, b, single, st, y).3,
        fuzzy_run_from(a, b, single, st, y).0 + fuzzy_run_from(a, b, single, st, y).2 == st.0 + st.2 + y,
    decreases y.len(),
{
    if y.len() > 0 {
        lemma_done_passes(a, b, single, st, y.drop_last());
        let s0 = fuzzy_run_from(a, b, single, st, y.drop_last());
        let buf1 = s0.2.push(y.last());
        if buf1.len() > a.len() {
            assert(s0.0.push(buf1[0]) + buf1.drop_first() =~= s0.0 + s0.2 + seq![y.last()]);
        } else {
            assert(s0.0 + buf1 =~= s0.0 + s0.2 + seq![y.last()]);
        }
        assert(y.drop_last() + seq![y.last()] == y);
        assert(st.0 + st.2 + y.drop_last() + seq![y.last()] =~= st.0 + st.2 + y);
    }
}

/// Fuzzy replacement replaces every matching window unless it is asked
/// for a single one: with an empty replacement, a leading window that holds
/// the pattern's bytes in any order is removed and the scan goes on over
/// the rest exactly as it would over the rest alone, so later matches are
/// removed too.
pub proof fn lemma_fuzzy_keeps_replacing(a: Seq<u8>, p: Seq<u8>, rest: Seq<u8>)
    requires
        a.len() > 0,
        p.len() == a.len(),
        p.to_multiset() == a.to_multiset(),
    ensures
        fuzzy_output(a, seq![], false, p + rest) == fuzzy_output(a, seq![], false, rest),
{
    let b = Seq::<u8>::empty();
    lemma_first_window(a, b, false, p);
    lemma_run_from_start(a, b, false, p + rest);
    lemma_run_from_start(a, b, false, p);
    lemma_run_from_start(a, b, false, rest);
    lemma_run_concat(a, b, false, (seq![], count_table(a), seq![], false), p, rest);
}

/// A single replacement replaces only the first match: a leading window
/// that holds the pattern's bytes in any order becomes the replacement,
/// and everything after it is kept as it is.
pub proof fn lemma_fuzzy_single(a: Seq<u8>, b: Seq<u8>, p: Seq<u8>, rest: Seq<u8>)
    requires
        a.len() > 0,
        p.len() == a.len(),
        p.to_multiset() == a.to_multiset(),
    ensures
        fuzzy_output(a, b, true, p + rest) == Ok::<Seq<u8>, CipherError>(b + rest),
{
    lemma_first_window(a, b, true, p);
    lemma_run_from_start(a, b, true, p + rest);
    lemma_run_from_start(a, b, true, p);
    lemma_run_concat(a, b, true, (seq![], count_table(a), seq![], false), p, rest);
    lemma_done_passes(a, b, true, (Seq::<u8>::empty(), count_table(a), b, true), rest);
    assert(Seq::<u8>::empty() + b + rest =~= b + rest);
}

/// Data shorter than the pattern holds no window to replace: it comes out
/// as it is, and a single replacement fails.
pub proof fn lemma_fuzzy_short(a: Seq<u8>, b: Seq<u8>, single: bool, data: Seq<u8>)
    requires
        data.len() < a.len(),
    ensures
        fuzzy_output(a, b, single, data) == if single {
            Err::<Seq<u8>, CipherError>(CipherError::FuzzyMatchNotFound)
        } else {
            Ok::<Seq<u8>, CipherError>(data)
        },
{
    lemma_prefix_state(a, b, single, data);
    assert(Seq::<u8>::empty() + data == data);
}

} // verus!
