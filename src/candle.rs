//! Candles and their point-wise algebra.
//!
//! A candle's prices are of a type `P` that this crate never inspects:
//! the arithmetic on prices (`arith`) and the test of a price for zero
//! (`is_zero`) are handed in by the caller, who instantiates `P` with
//! IEEE-754 doubles. What is proved here is everything around them: which
//! operator each field gets, the timestamp rule and the division guard.
use crate::error::ServerError;
use vstd::prelude::*;

verus! {

/// An arithmetic operation of the candle algebra.
#[derive(Clone, Copy, Debug, PartialEq, Eq, Structural)]
pub enum Operation {
    Add,
    Subtract,
    Multiply,
    Divide,
}

/// A kline: start time in milliseconds, and open, close, high and low
/// prices.
#[derive(Clone, Copy, Debug, PartialEq)]
pub struct Candle<P> {
    pub t: u64,
    pub o: P,
    pub c: P,
    pub h: P,
    pub l: P,
}

/// `arith` accepts every operation on every pair of prices.
pub open spec fn total_arith<P, F: Fn(Operation, P, P) -> P>(arith: F) -> bool {
    forall|op: Operation, a: P, b: P| call_requires(arith, (op, a, b))
}

/// `is_zero` accepts every price.
pub open spec fn total_test<P, Z: Fn(P) -> bool>(is_zero: Z) -> bool {
    forall|x: P| call_requires(is_zero, (x,))
}

/// `r` is a result of `arith` for `op` on `a` and `b`.
pub open spec fn applies<P, F: Fn(Operation, P, P) -> P>(
    arith: F,
    op: Operation,
    a: P,
    b: P,
    r: P,
) -> bool {
    call_ensures(arith, (op, a, b), r)
}

/// `r` is `x op y`: the timestamp of `x`, and `op` on each pair of prices.
pub open spec fn combined<P, F: Fn(Operation, P, P) -> P>(
    arith: F,
    op: Operation,
    x: Candle<P>,
    y: Candle<P>,
    r: Candle<P>,
) -> bool {
    &&& r.t == x.t
    &&& applies(arith, op, x.o, y.o, r.o)
    &&& applies(arith, op, x.c, y.c, r.c)
    &&& applies(arith, op, x.h, y.h, r.h)
    &&& applies(arith, op, x.l, y.l, r.l)
}

/// `is_zero` reports some price of `y` as zero.
pub open spec fn some_zero<P, Z: Fn(P) -> bool>(is_zero: Z, y: Candle<P>) -> bool {
    ||| call_ensures(is_zero, (y.o,), true)
    ||| call_ensures(is_zero, (y.c,), true)
    ||| call_ensures(is_zero, (y.h,), true)
    ||| call_ensures(is_zero, (y.l,), true)
}

/// `is_zero` reports every price of `y` as non-zero.
pub open spec fn no_zero<P, Z: Fn(P) -> bool>(is_zero: Z, y: Candle<P>) -> bool {
    &&& call_ensures(is_zero, (y.o,), false)
    &&& call_ensures(is_zero, (y.c,), false)
    &&& call_ensures(is_zero, (y.h,), false)
    &&& call_ensures(is_zero, (y.l,), false)
}

/// What `x op y` gives, the timestamps being known to agree: the candle
/// of `combined`, except for a division by a candle with a zero price.
pub open spec fn operation_result<P, F: Fn(Operation, P, P) -> P, Z: Fn(P) -> bool>(
    arith: F,
    is_zero: Z,
    op: Operation,
    x: Candle<P>,
    y: Candle<P>,
    r: Result<Candle<P>, ServerError>,
) -> bool {
    if op == Operation::Divide && r == Err::<Candle<P>, ServerError>(ServerError::DivisionByZero) {
        some_zero(is_zero, y)
    } else {
        &&& r is Ok
        &&& combined(arith, op, x, y, r->Ok_0)
        &&& op == Operation::Divide ==> no_zero(is_zero, y)
    }
}

impl<P: Copy> Candle<P> {
    pub fn new(t: u64, o: P, c: P, h: P, l: P) -> (r: Self)
        ensures
            r == (Candle { t, o, c, h, l }),
    {
        Candle { t, o, c, h, l }
    }

    fn assert_timestamps(&self, other: &Self) -> (r: Result<(), ServerError>)
        ensures
            r is Ok <==> self.t == other.t,
            r is Err ==> r == Err::<(), ServerError>(ServerError::MismatchedTimestamps),
    {
        if self.t != other.t {
            return Err(ServerError::MismatchedTimestamps);
        }
        Ok(())
    }

    /// `op` on each pair of prices, at the timestamp of `self`.
    fn fieldwise<F: Fn(Operation, P, P) -> P>(&self, other: &Self, op: Operation, arith: &F) -> (r: Self)
        requires
            total_arith(*arith),
        ensures
            combined(*arith, op, *self, *other, r),
    {
        Candle {
            t: self.t,
            o: arith(op, self.o, other.o),
            c: arith(op, self.c, other.c),
            h: arith(op, self.h, other.h),
            l: arith(op, self.l, other.l),
        }
    }

    /// Field-wise sum; fails with `MismatchedTimestamps` unless the
    /// timestamps agree.
    pub fn add<F: Fn(Operation, P, P) -> P>(&self, other: Self, arith: &F) -> (r: Result<Self, ServerError>)
        requires
            total_arith(*arith),
        ensures
            self.t == other.t ==> r is Ok && combined(*arith, Operation::Add, *self, other, r->Ok_0),
            self.t != other.t ==> r == Err::<Self, ServerError>(ServerError::MismatchedTimestamps),
    {
        self.assert_timestamps(&other)?;
        Ok(self.fieldwise(&other, Operation::Add, arith))
    }

    /// Field-wise difference; fails with `MismatchedTimestamps` unless the
    /// timestamps agree.
    pub fn sub<F: Fn(Operation, P, P) -> P>(&self, other: Self, arith: &F) -> (r: Result<Self, ServerError>)
        requires
            total_arith(*arith),
        ensures
            self.t == other.t ==> r is Ok && combined(*arith, Operation::Subtract, *self, other, r->Ok_0),
            self.t != other.t ==> r == Err::<Self, ServerError>(ServerError::MismatchedTimestamps),
    {
        self.assert_timestamps(&other)?;
        Ok(self.fieldwise(&other, Operation::Subtract, arith))
    }

    /// Field-wise product; fails with `MismatchedTimestamps` unless the
    /// timestamps agree.
    pub fn mul<F: Fn(Operation, P, P) -> P>(&self, other: Self, arith: &F) -> (r: Result<Self, ServerError>)
        requires
            total_arith(*arith),
        ensures
            self.t == other.t ==> r is Ok && combined(*arith, Operation::Multiply, *self, other, r->Ok_0),
            self.t != other.t ==> r == Err::<Self, ServerError>(ServerError::MismatchedTimestamps),
    {
        self.assert_timestamps(&other)?;
        Ok(self.fieldwise(&other, Operation::Multiply, arith))
    }

    /// Field-wise quotient. Fails with `DivisionByZero` when any price of
    /// `other` is zero (tested first), else with `MismatchedTimestamps`
    /// unless the timestamps agree.
    pub fn div<F: Fn(Operation, P, P) -> P, Z: Fn(P) -> bool>(
        &self,
        other: Self,
        arith: &F,
        is_zero: &Z,
    ) -> (r: Result<Self, ServerError>)
        requires
            total_arith(*arith),
            total_test(*is_zero),
        ensures
            r == Err::<Self, ServerError>(ServerError::DivisionByZero) ==> some_zero(*is_zero, other),
            r != Err::<Self, ServerError>(ServerError::DivisionByZero) ==> no_zero(*is_zero, other),
            r != Err::<Self, ServerError>(ServerError::DivisionByZero) && self.t == other.t ==> r is Ok
                && combined(*arith, Operation::Divide, *self, other, r->Ok_0),
            r != Err::<Self, ServerError>(ServerError::DivisionByZero) && self.t != other.t ==> r
                == Err::<Self, ServerError>(ServerError::MismatchedTimestamps),
    {
        if is_zero(other.o) || is_zero(other.c) || is_zero(other.h) || is_zero(other.l) {
            return Err(ServerError::DivisionByZero);
        }
        self.assert_timestamps(&other)?;
        Ok(self.fieldwise(&other, Operation::Divide, arith))
    }
}

/// `op` on two candles: `MismatchedTimestamps` when their timestamps
/// differ; otherwise the candle at their common timestamp with `op` on
/// each pair of prices, except that a division by a candle with a zero
/// price fails with `DivisionByZero`.
pub fn perform_operation<P: Copy, F: Fn(Operation, P, P) -> P, Z: Fn(P) -> bool>(
    a: &Candle<P>,
    b: &Candle<P>,
    op: &Operation,
    arith: &F,
    is_zero: &Z,
) -> (r: Result<Candle<P>, ServerError>)
    requires
        total_arith(*arith),
        total_test(*is_zero),
    ensures
        a.t != b.t ==> r == Err::<Candle<P>, ServerError>(ServerError::MismatchedTimestamps),
        a.t == b.t ==> operation_result(*arith, *is_zero, *op, *a, *b, r),
        a.t == b.t && *op != Operation::Divide ==> r is Ok,
        r is Ok ==> r->Ok_0.t == a.t,
{
    if a.t != b.t {
        return Err(ServerError::MismatchedTimestamps);
    }
    match op {
        Operation::Add => a.add(*b, arith),
        Operation::Subtract => a.sub(*b, arith),
        Operation::Multiply => a.mul(*b, arith),
        Operation::Divide => a.div(*b, arith, is_zero),
    }
}

} // verus!
