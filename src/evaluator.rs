//! The evaluator of one client request: aligns the candles of its
//! operand streams by start time and evaluates the plan on each aligned
//! set.
//!
//! The evaluator only decides; the caller does the waiting. `advance`
//! says which operand stream to read next, or evaluates once every operand
//! holds a candle of the same start time; `deliver` hands it the candle
//! read.
use crate::candle::{total_arith, total_test, Candle, Operation};
use crate::error::ServerError;
use crate::expr::views;
use crate::plan::{evaluate, reachable, well_shaped, zero_division_reached, ExpressionPlan};
use vstd::prelude::*;

verus! {

/// One evaluated tick, sent back to the client.
#[derive(Debug, PartialEq)]
pub struct ResultMessage<P> {
    pub stream: String,
    pub data: Candle<P>,
}

/// What the caller of [`Evaluator::advance`] does next.
#[derive(Debug, PartialEq)]
pub enum Action<P> {
    /// Read the next candle of operand `k` and deliver it.
    Pull(usize),
    /// Send this result to the client.
    Emit(ResultMessage<P>),
}

/// Start times held per operand.
pub open spec fn start_times<P>(next: Seq<Option<Candle<P>>>) -> Seq<Option<u64>> {
    next.map_values(
        |c: Option<Candle<P>>|
            match c {
                Some(c) => Some(c.t),
                None => None,
            },
    )
}

/// The candles held, each slot being full.
pub open spec fn held_candles<P>(next: Seq<Option<Candle<P>>>) -> Seq<Candle<P>> {
    next.map_values(|c: Option<Candle<P>>| c->0)
}

/// The latest start time held, or 0.
pub open spec fn latest(h: Seq<Option<u64>>) -> int
    decreases h.len(),
{
    if h.len() == 0 {
        0
    } else {
        let m = latest(h.drop_last());
        match h.last() {
            Some(t) => if t > m {
                t as int
            } else {
                m
            },
            None => m,
        }
    }
}

/// First empty slot at or after `i`, or `h.len()`.
pub open spec fn first_empty(h: Seq<Option<u64>>, i: nat) -> nat
    decreases h.len() - i,
{
    if i >= h.len() {
        h.len()
    } else if h[i as int] is None {
        i
    } else {
        first_empty(h, i + 1)
    }
}

/// First slot at or after `i` holding a start time before `m`, or
/// `h.len()`.
pub open spec fn first_behind(h: Seq<Option<u64>>, m: int, i: nat) -> nat
    decreases h.len() - i,
{
    if i >= h.len() {
        h.len()
    } else if h[i as int] is Some && h[i as int]->0 < m {
        i
    } else {
        first_behind(h, m, i + 1)
    }
}

/// The operand to read next: the first without a candle; else the first
/// whose candle starts before the latest held; `None` once all operands
/// hold candles of one start time.
pub open spec fn wanted(h: Seq<Option<u64>>) -> Option<nat> {
    let e = first_empty(h, 0);
    if e < h.len() {
        Some(e)
    } else {
        let b = first_behind(h, latest(h), 0);
        if b < h.len() {
            Some(b)
        } else {
            None
        }
    }
}

pub(crate) proof fn lemma_first_empty(h: Seq<Option<u64>>, i: nat)
    requires
        i <= h.len(),
    ensures
        i <= first_empty(h, i) <= h.len(),
        first_empty(h, i) < h.len() ==> h[first_empty(h, i) as int] is None,
        forall|j: int| i <= j < first_empty(h, i) ==> h[j] is Some,
    decreases h.len() - i,
{
    if i < h.len() && h[i as int] is Some {
        lemma_first_empty(h, i + 1);
    }
}

pub(crate) proof fn lemma_first_behind(h: Seq<Option<u64>>, m: int, i: nat)
    requires
        i <= h.len(),
    ensures
        i <= first_behind(h, m, i) <= h.len(),
        first_behind(h, m, i) < h.len() ==> h[first_behind(h, m, i) as int] is Some && h[first_behind(
            h,
            m,
            i,
        ) as int]->0 < m,
        forall|j: int| i <= j < first_behind(h, m, i) ==> !(h[j] is Some && h[j]->0 < m),
    decreases h.len() - i,
{
    if i < h.len() && !(h[i as int] is Some && h[i as int]->0 < m) {
        lemma_first_behind(h, m, i + 1);
    }
}

pub(crate) proof fn lemma_latest_bounds(h: Seq<Option<u64>>)
    ensures
        forall|j: int| 0 <= j < h.len() && h[j] is Some ==> h[j]->0 <= latest(h),
        0 <= latest(h) <= u64::MAX,
        latest(h) > 0 ==> exists|j: int| 0 <= j < h.len() && h[j] == Some(latest(h) as u64),
    decreases h.len(),
{
    if h.len() > 0 {
        let p = h.drop_last();
        lemma_latest_bounds(p);
        assert forall|j: int| 0 <= j < h.len() && h[j] is Some implies h[j]->0 <= latest(h) by {
            if j < p.len() {
                assert(h[j] == p[j]);
            }
        }
        if latest(h) > 0 {
            if latest(h) != latest(p) {
                assert(h[h.len() - 1] == Some(latest(h) as u64));
            } else {
                let j = choose|j: int| 0 <= j < p.len() && p[j] == Some(latest(p) as u64);
                assert(h[j] == p[j]);
            }
        }
    }
}

/// Once no operand is wanted, every operand holds a candle, all of one
/// start time.
pub(crate) proof fn lemma_none_wanted_aligned(h: Seq<Option<u64>>)
    requires
        wanted(h) is None,
    ensures
        forall|j: int| 0 <= j < h.len() ==> h[j] is Some && h[j]->0 == latest(h),
{
    lemma_first_empty(h, 0);
    lemma_first_behind(h, latest(h), 0);
    lemma_latest_bounds(h);
}

/// Evaluates one client expression over aligned ticks of its operands.
pub struct Evaluator<P> {
    plan: ExpressionPlan,
    next: Vec<Option<Candle<P>>>,
}

impl<P: Copy> Evaluator<P> {
    pub closed spec fn plan_of(&self) -> ExpressionPlan {
        self.plan
    }

    /// The candle held for each operand, if any.
    pub closed spec fn slots(&self) -> Seq<Option<Candle<P>>> {
        self.next@
    }

    pub open spec fn held(&self) -> Seq<Option<u64>> {
        start_times(self.slots())
    }

    /// One slot per operand of the plan.
    pub open spec fn wf(&self) -> bool {
        self.slots().len() == self.plan_of().operands@.len()
    }

    /// An evaluator for `plan`, holding no candle yet.
    pub fn new(plan: ExpressionPlan) -> (r: Self)
        ensures
            r.wf(),
            r.plan_of() == plan,
            forall|j: int| 0 <= j < r.slots().len() ==> r.slots()[j] is None,
    {
        let mut next: Vec<Option<Candle<P>>> = Vec::new();
        let n = plan.operands.len();
        while next.len() < n
            invariant
                next.len() <= n,
                forall|j: int| 0 <= j < next@.len() ==> next@[j] is None,
            decreases n - next.len(),
        {
            next.push(None);
        }
        Evaluator { plan, next }
    }

    pub fn plan(&self) -> (r: &ExpressionPlan)
        ensures
            *r == self.plan_of(),
    {
        &self.plan
    }

    /// The operand to read next, if any (see `wanted`).
    pub fn wanted(&self) -> (r: Option<usize>)
        ensures
            match r {
                Some(k) => wanted(self.held()) == Some(k as nat),
                None => wanted(self.held()) is None,
            },
    {
        let ghost h = self.held();
        let n = self.next.len();
        let mut i: usize = 0;
        while i < n
            invariant
                n == self.next@.len(),
                h == self.held(),
                i <= n,
                first_empty(h, 0) == first_empty(h, i as nat),
            decreases n - i,
        {
            if self.next[i].is_none() {
                return Some(i);
            }
            assert(h[i as int] is Some);
            i = i + 1;
        }
        let mut m: u64 = 0;
        let mut j: usize = 0;
        assert(h.take(0) =~= seq![]);
        while j < n
            invariant
                n == self.next@.len(),
                h == self.held(),
                first_empty(h, 0) == n as nat,
                j <= n,
                m == latest(h.take(j as int)),
            decreases n - j,
        {
            assert(h.take(j + 1).drop_last() =~= h.take(j as int));
            if let Some(c) = self.next[j] {
                assert(h[j as int] == Some(c.t));
                if c.t > m {
                    m = c.t;
                }
            }
            j = j + 1;
        }
        assert(h.take(n as int) =~= h);
        let mut k: usize = 0;
        while k < n
            invariant
                n == self.next@.len(),
                h == self.held(),
                first_empty(h, 0) == n as nat,
                k <= n,
                m == latest(h),
                first_behind(h, m as int, 0) == first_behind(h, m as int, k as nat),
            decreases n - k,
        {
            if let Some(c) = self.next[k] {
                assert(h[k as int] == Some(c.t));
                if c.t < m {
                    return Some(k);
                }
            }
            k = k + 1;
        }
        None
    }

    /// Hands over the candle read for operand `k`; it replaces the one
    /// held.
    pub fn deliver(&mut self, k: usize, candle: Candle<P>)
        requires
            old(self).wf(),
            k < old(self).slots().len(),
        ensures
            final(self).wf(),
            final(self).plan_of() == old(self).plan_of(),
            final(self).slots() == old(self).slots().update(k as int, Some(candle)),
    {
        self.next.set(k, Some(candle));
    }

    /// Decides the next step. While an operand is wanted, asks for it.
    /// Once all operands hold candles of one start time, evaluates the plan
    /// on them, empties every slot and emits the result, or fails as
    /// `evaluate` does.
    pub fn advance<F: Fn(Operation, P, P) -> P, Z: Fn(P) -> bool>(&mut self, arith: &F, is_zero: &Z) -> (r: Result<Action<P>, ServerError>)
        requires
            old(self).wf(),
            total_arith(*arith),
            total_test(*is_zero),
        ensures
            final(self).wf(),
            final(self).plan_of() == old(self).plan_of(),
            wanted(old(self).held()) is Some ==> r == Ok::<Action<P>, ServerError>(
                Action::Pull(wanted(old(self).held())->0 as usize),
            ) && final(self).slots() == old(self).slots(),
            wanted(old(self).held()) is None ==> ({
                let plan = old(self).plan_of();
                let vals = held_candles(old(self).slots());
                let ts = views(plan.rpn@);
                &&& forall|j: int| 0 <= j < vals.len() ==> (#[trigger] vals[j]).t == latest(old(self).held())
                &&& (r == Err::<Action<P>, ServerError>(ServerError::ParsingStream) <==> !well_shaped(ts, plan.names()))
                &&& (r == Err::<Action<P>, ServerError>(ServerError::DivisionByZero) ==> zero_division_reached(ts, plan.names(), vals, *arith, *is_zero))
                &&& (r is Err ==> r == Err::<Action<P>, ServerError>(ServerError::ParsingStream) || r == Err::<Action<P>, ServerError>(ServerError::DivisionByZero))
                &&& (r is Ok ==> {
                    &&& r->Ok_0 is Emit
                    &&& r->Ok_0->Emit_0.stream@ == plan.stream@
                    &&& r->Ok_0->Emit_0.data.t == latest(old(self).held())
                    &&& reachable(ts, plan.names(), vals, *arith, *is_zero, ts.len(), seq![r->Ok_0->Emit_0.data])
                    &&& forall|j: int| 0 <= j < final(self).slots().len() ==> final(self).slots()[j] is None
                })
            }),
    {
        match self.wanted() {
            Some(k) => Ok(Action::Pull(k)),
            None => {
                proof {
                    lemma_none_wanted_aligned(self.held());
                }
                let ghost h = self.held();
                let n = self.next.len();
                let mut values: Vec<Candle<P>> = Vec::new();
                while values.len() < n
                    invariant
                        n == self.next@.len(),
                        h == self.held(),
                        forall|j: int| 0 <= j < n ==> h[j] is Some && h[j]->0 == latest(h),
                        values.len() <= n,
                        values@ == held_candles(self.next@).take(values.len() as int),
                    decreases n - values.len(),
                {
                    let j = values.len();
                    assert(h[j as int] is Some);
                    let c = self.next[j].unwrap();
                    values.push(c);
                    assert(values@ =~= held_candles(self.next@).take(values.len() as int));
                }
                assert(values@ =~= held_candles(self.next@));
                assert forall|j: int| 0 <= j < values@.len() implies (#[trigger] values@[j]).t == values@[0].t by {
                    assert(h[j] == Some(values@[j].t));
                    assert(h[0] == Some(values@[0].t));
                }
                let result = match evaluate(&self.plan, &values, arith, is_zero) {
                    Ok(c) => c,
                    Err(e) => return Err(e),
                };
                assert(result.t == latest(h)) by {
                    assert(h[0] == Some(values@[0].t));
                }
                let ghost plan0 = self.plan;
                let mut i: usize = 0;
                while i < n
                    invariant
                        self.plan == plan0,
                        n == self.next@.len(),
                        n == self.plan.operands@.len(),
                        i <= n,
                        forall|j: int| 0 <= j < i ==> self.next@[j] is None,
                    decreases n - i,
                {
                    self.next.set(i, None);
                    i = i + 1;
                }
                Ok(Action::Emit(ResultMessage { stream: self.plan.stream.clone(), data: result }))
            },
        }
    }
}

} // verus!
