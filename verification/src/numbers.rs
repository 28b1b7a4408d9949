//! Operations on arbitrary-precision integers that can be chained:
//! arithmetic with a constant and manipulations of decimal digits.
use vstd::prelude::*;
use num::BigInt;
use crate::Noop;
use crate::bigint::{big_add, big_div_rem, big_is_zero, big_mul, big_sub, tdiv, value};

pub mod decimal;
pub mod digits;
pub mod laws;

pub use decimal::{append_digits, flip_digits, prepend_digits, replace_digit};
pub use digits::{ConcatDigits, FlipDigits, ReplaceDigits};

verus! {

/// Why an operation could not be applied.
#[derive(Clone, Copy, Debug, PartialEq, Eq)]
pub enum NumError {
    DivisionByZero,
    ZeroDigits,
}

/// Multiplies by a constant.
pub struct Multiply(BigInt);

impl View for Multiply {
    type V = int;

    closed spec fn view(&self) -> int {
        value(self.0)
    }
}

/// The operation that multiplies by `x`.
pub fn multiply(x: BigInt) -> (r: Multiply)
    ensures
        r@ == value(x),
{
    Multiply(x)
}

/// Divides by a constant, truncating toward zero.
pub struct DivideBy(BigInt);

impl View for DivideBy {
    type V = int;

    closed spec fn view(&self) -> int {
        value(self.0)
    }
}

/// The operation that divides by `x`.
pub fn divide_by(x: BigInt) -> (r: DivideBy)
    ensures
        r@ == value(x),
{
    DivideBy(x)
}

/// Adds a constant.
pub struct Add(BigInt);

impl View for Add {
    type V = int;

    closed spec fn view(&self) -> int {
        value(self.0)
    }
}

/// The operation that adds `x`.
pub fn add(x: BigInt) -> (r: Add)
    ensures
        r@ == value(x),
{
    Add(x)
}

/// Subtracts a constant.
pub struct SubtractBy(BigInt);

impl View for SubtractBy {
    type V = int;

    closed spec fn view(&self) -> int {
        value(self.0)
    }
}

/// The operation that subtracts `x`.
pub fn subtract_by(x: BigInt) -> (r: SubtractBy)
    ensures
        r@ == value(x),
{
    SubtractBy(x)
}

/// One operation of a chain.
pub enum NumStep {
    Noop,
    Multiply(Multiply),
    DivideBy(DivideBy),
    Add(Add),
    SubtractBy(SubtractBy),
    ConcatDigits(ConcatDigits),
    FlipDigits(FlipDigits),
    ReplaceDigits(ReplaceDigits),
}

/// A result's integer by its value.
pub open spec fn int_result(r: Result<BigInt, NumError>) -> Result<int, NumError> {
    match r {
        Ok(v) => Ok(value(v)),
        Err(e) => Err(e),
    }
}

/// What one operation makes of `n`.
pub open spec fn num_step_output(step: NumStep, n: int) -> Result<int, NumError> {
    match step {
        NumStep::Noop => Ok(n),
        NumStep::Multiply(m) => Ok(n * m@),
        NumStep::DivideBy(d) => if d@ == 0 {
            Err(NumError::DivisionByZero)
        } else {
            Ok(tdiv(n, d@))
        },
        NumStep::Add(x) => Ok(n + x@),
        NumStep::SubtractBy(x) => Ok(n - x@),
        NumStep::ConcatDigits(c) => digits::concat_output(c@.0, c@.1, c@.2, n),
        NumStep::FlipDigits(f) => Ok(digits::flip_value(n, f@ as int)),
        NumStep::ReplaceDigits(r) => Ok(digits::replace_value(r@.0 as int, r@.1, r@.2, n)),
    }
}

/// What the operations make of `n` when each applies to the result of the
/// one before; the first error ends the chain.
pub open spec fn num_chain_output(steps: Seq<NumStep>, n: int) -> Result<int, NumError>
    decreases steps.len(),
{
    if steps.len() == 0 {
        Ok(n)
    } else {
        match num_step_output(steps[0], n) {
            Ok(m) => num_chain_output(steps.drop_first(), m),
            Err(e) => Err(e),
        }
    }
}

/// Chaining operations applies the first, then the second: the output of
/// a concatenated chain is the second chain's output on the first chain's
/// output, and the first error stops it.
pub proof fn lemma_num_chain_concat(s1: Seq<NumStep>, s2: Seq<NumStep>, n: int)
    ensures
        num_chain_output(s1 + s2, n) == match num_chain_output(s1, n) {
            Ok(m) => num_chain_output(s2, m),
            Err(e) => Err(e),
        },
    decreases s1.len(),
{
    if s1.len() == 0 {
        assert(s1 + s2 == s2);
    } else {
        assert((s1 + s2)[0] == s1[0]);
        assert((s1 + s2).drop_first() == s1.drop_first() + s2);
        match num_step_output(s1[0], n) {
            Ok(m) => lemma_num_chain_concat(s1.drop_first(), s2, m),
            Err(e) => {},
        }
    }
}

fn num_step_apply(step: &NumStep, num: BigInt) -> (r: Result<BigInt, NumError>)
    ensures
        int_result(r) == num_step_output(*step, value(num)),
{
    match step {
        NumStep::Noop => Ok(num),
        NumStep::Multiply(m) => Ok(big_mul(&num, &m.0)),
        NumStep::DivideBy(d) => {
            if big_is_zero(&d.0) {
                Err(NumError::DivisionByZero)
            } else {
                let (q, _r) = big_div_rem(&num, &d.0);
                Ok(q)
            }
        },
        NumStep::Add(x) => Ok(big_add(&num, &x.0)),
        NumStep::SubtractBy(x) => Ok(big_sub(&num, &x.0)),
        NumStep::ConcatDigits(c) => c.concat_checked(num),
        NumStep::FlipDigits(f) => Ok(f.flip(num)),
        NumStep::ReplaceDigits(r) => Ok(r.replace(num)),
    }
}

fn num_steps_apply(steps: &Vec<NumStep>, num: BigInt) -> (r: Result<BigInt, NumError>)
    ensures
        int_result(r) == num_chain_output(steps@, value(num)),
{
    let ghost n0 = value(num);
    let mut cur = num;
    let mut i: usize = 0;
    assert(steps@.skip(0) == steps@);
    while i < steps.len()
        invariant
            i <= steps.len(),
            n0 == value(num),
            num_chain_output(steps@.skip(i as int), value(cur)) == num_chain_output(steps@, n0),
        decreases steps.len() - i,
    {
        let ghost rest = steps@.skip(i as int);
        let ghost cv = value(cur);
        assert(rest[0] == steps@[i as int]);
        assert(rest.drop_first() == steps@.skip(i + 1));
        assert(num_chain_output(rest, cv) == match num_step_output(rest[0], cv) {
            Ok(m) => num_chain_output(rest.drop_first(), m),
            Err(e) => Err(e),
        });
        match num_step_apply(&steps[i], cur) {
            Ok(v) => {
                cur = v;
            },
            Err(e) => {
                assert(num_step_output(steps@[i as int], cv) == Err::<int, NumError>(e));
                assert(num_chain_output(rest, cv) == Err::<int, NumError>(e));
                return Err(e);
            },
        }
        i = i + 1;
    }
    assert(steps@.skip(steps.len() as int).len() == 0);
    Ok(cur)
}

/// An operation on integers that can be chained with others.
pub trait NumOp: Sized {
    /// The single operations this one applies, in order.
    spec fn num_steps(&self) -> Seq<NumStep>;

    /// Applies the operation to `num`; the operation itself is left as it was.
    fn apply(&mut self, num: BigInt) -> (r: Result<BigInt, NumError>)
        ensures
            *final(self) == *old(self),
            int_result(r) == num_chain_output(old(self).num_steps(), value(num)),
    ;

    /// The single operations this one applies.
    fn into_num_steps(self) -> (r: Vec<NumStep>)
        ensures
            r@ == self.num_steps(),
    ;
}

/// Applies `op` to `num`.
pub fn apply_num_op<W: NumOp>(num: BigInt, op: W) -> (r: Result<BigInt, NumError>)
    ensures
        int_result(r) == num_chain_output(op.num_steps(), value(num)),
{
    let mut op = op;
    op.apply(num)
}

/// Operations applied one after another.
pub struct Chain(Vec<NumStep>);

impl View for Chain {
    type V = Seq<NumStep>;

    closed spec fn view(&self) -> Seq<NumStep> {
        self.0@
    }
}

/// The chain of `a` followed by `c`.
fn chain_of<A: NumOp, C: NumOp>(a: A, c: C) -> (r: Chain)
    ensures
        r@ == a.num_steps() + c.num_steps(),
{
    let mut s = a.into_num_steps();
    let mut o = c.into_num_steps();
    s.append(&mut o);
    Chain(s)
}

proof fn lemma_single_step(step: NumStep, n: int)
    ensures
        num_chain_output(seq![step], n) == num_step_output(step, n),
{
    reveal_with_fuel(num_chain_output, 2);
    assert(seq![step].drop_first().len() == 0);
}

impl NumOp for Chain {
    open spec fn num_steps(&self) -> Seq<NumStep> {
        self@
    }

    fn apply(&mut self, num: BigInt) -> (r: Result<BigInt, NumError>) {
        num_steps_apply(&self.0, num)
    }

    fn into_num_steps(self) -> (r: Vec<NumStep>) {
        self.0
    }
}

impl NumOp for Noop {
    open spec fn num_steps(&self) -> Seq<NumStep> {
        seq![NumStep::Noop]
    }

    fn apply(&mut self, num: BigInt) -> (r: Result<BigInt, NumError>) {
        proof {
            lemma_single_step(NumStep::Noop, value(num));
        }
        Ok(num)
    }

    fn into_num_steps(self) -> (r: Vec<NumStep>) {
        vec![NumStep::Noop]
    }
}

impl NumOp for Multiply {
    open spec fn num_steps(&self) -> Seq<NumStep> {
        seq![NumStep::Multiply(*self)]
    }

    fn apply(&mut self, num: BigInt) -> (r: Result<BigInt, NumError>) {
        proof {
            lemma_single_step(NumStep::Multiply(*self), value(num));
        }
        Ok(big_mul(&num, &self.0))
    }

    fn into_num_steps(self) -> (r: Vec<NumStep>) {
        vec![NumStep::Multiply(self)]
    }
}

impl NumOp for DivideBy {
    open spec fn num_steps(&self) -> Seq<NumStep> {
        seq![NumStep::DivideBy(*self)]
    }

    fn apply(&mut self, num: BigInt) -> (r: Result<BigInt, NumError>) {
        proof {
            lemma_single_step(NumStep::DivideBy(*self), value(num));
        }
        if big_is_zero(&self.0) {
            Err(NumError::DivisionByZero)
        } else {
            let (q, _r) = big_div_rem(&num, &self.0);
            Ok(q)
        }
    }

    fn into_num_steps(self) -> (r: Vec<NumStep>) {
        vec![NumStep::DivideBy(self)]
    }
}

impl NumOp for Add {
    open spec fn num_steps(&self) -> Seq<NumStep> {
        seq![NumStep::Add(*self)]
    }

    fn apply(&mut self, num: BigInt) -> (r: Result<BigInt, NumError>) {
        proof {
            lemma_single_step(NumStep::Add(*self), value(num));
        }
        Ok(big_add(&num, &self.0))
    }

    fn into_num_steps(self) -> (r: Vec<NumStep>) {
        vec![NumStep::Add(self)]
    }
}

impl NumOp for SubtractBy {
    open spec fn num_steps(&self) -> Seq<NumStep> {
        seq![NumStep::SubtractBy(*self)]
    }

    fn apply(&mut self, num: BigInt) -> (r: Result<BigInt, NumError>) {
        proof {
            lemma_single_step(NumStep::SubtractBy(*self), value(num));
        }
        Ok(big_sub(&num, &self.0))
    }

    fn into_num_steps(self) -> (r: Vec<NumStep>) {
        vec![NumStep::SubtractBy(self)]
    }
}

impl NumOp for ConcatDigits {
    open spec fn num_steps(&self) -> Seq<NumStep> {
        seq![NumStep::ConcatDigits(*self)]
    }

    fn apply(&mut self, num: BigInt) -> (r: Result<BigInt, NumError>) {
        proof {
            lemma_single_step(NumStep::ConcatDigits(*self), value(num));
        }
        self.concat_checked(num)
    }

    fn into_num_steps(self) -> (r: Vec<NumStep>) {
        vec![NumStep::ConcatDigits(self)]
    }
}

impl NumOp for FlipDigits {
    open spec fn num_steps(&self) -> Seq<NumStep> {
        seq![NumStep::FlipDigits(*self)]
    }

    fn apply(&mut self, num: BigInt) -> (r: Result<BigInt, NumError>) {
        proof {
            lemma_single_step(NumStep::FlipDigits(*self), value(num));
        }
        Ok(self.flip(num))
    }

    fn into_num_steps(self) -> (r: Vec<NumStep>) {
        vec![NumStep::FlipDigits(self)]
    }
}

impl NumOp for ReplaceDigits {
    open spec fn num_steps(&self) -> Seq<NumStep> {
        seq![NumStep::ReplaceDigits(*self)]
    }

    fn apply(&mut self, num: BigInt) -> (r: Result<BigInt, NumError>) {
        proof {
            lemma_single_step(NumStep::ReplaceDigits(*self), value(num));
        }
        Ok(self.replace(num))
    }

    fn into_num_steps(self) -> (r: Vec<NumStep>) {
        vec![NumStep::ReplaceDigits(self)]
    }
}

impl Chain {
    /// These operations followed by `other`.
    pub fn chain<C: NumOp>(self, other: C) -> (r: Chain)
        ensures
            r@ == self.num_steps() + other.num_steps(),
    {
        chain_of(self, other)
    }
}

impl Multiply {
    /// This operation followed by `other`.
    pub fn chain<C: NumOp>(self, other: C) -> (r: Chain)
        ensures
            r@ == self.num_steps() + other.num_steps(),
    {
        chain_of(self, other)
    }
}

impl DivideBy {
    /// This operation followed by `other`.
    pub fn chain<C: NumOp>(self, other: C) -> (r: Chain)
        ensures
            r@ == self.num_steps() + other.num_steps(),
    {
        chain_of(self, other)
    }
}

impl Add {
    /// This operation followed by `other`.
    pub fn chain<C: NumOp>(self, other: C) -> (r: Chain)
        ensures
            r@ == self.num_steps() + other.num_steps(),
    {
        chain_of(self, other)
    }
}

impl SubtractBy {
    /// This operation followed by `other`.
    pub fn chain<C: NumOp>(self, other: C) -> (r: Chain)
        ensures
            r@ == self.num_steps() + other.num_steps(),
    {
        chain_of(self, other)
    }
}

impl ConcatDigits {
    /// This operation followed by `other`.
    pub fn chain<C: NumOp>(self, other: C) -> (r: Chain)
        ensures
            r@ == self.num_steps() + other.num_steps(),
    {
        chain_of(self, other)
    }
}

impl FlipDigits {
    /// This operation followed by `other`.
    pub fn chain<C: NumOp>(self, other: C) -> (r: Chain)
        ensures
            r@ == self.num_steps() + other.num_steps(),
    {
        chain_of(self, other)
    }
}

impl ReplaceDigits {
    /// This operation followed by `other`.
    pub fn chain<C: NumOp>(self, other: C) -> (r: Chain)
        ensures
            r@ == self.num_steps() + other.num_steps(),
    {
        chain_of(self, other)
    }
}

} // verus!
