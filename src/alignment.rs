//! What the evaluator emits over whole tick streams: one result per start
//! time present in every operand stream, in ascending order.
//!
//! The model below follows [`Evaluator`](crate::evaluator::Evaluator)
//! step by step: `advance` asks for `wanted(held)` or, once nothing is
//! wanted, emits at `latest(held)` and empties every slot; `deliver` puts
//! the next candle of the asked operand into its slot.
use crate::evaluator::{latest, lemma_latest_bounds, lemma_none_wanted_aligned, wanted, first_empty, first_behind, lemma_first_empty, lemma_first_behind};
use vstd::prelude::*;

verus! {

/// Start times of the candles read so far and held, per operand; how many
/// candles each operand stream has delivered; the start times emitted;
/// whether the evaluator is waiting on a stream that has ended.
pub struct Feed {
    pub held: Seq<Option<u64>>,
    pub pos: Seq<nat>,
    pub emitted: Seq<u64>,
    pub halted: bool,
}

pub open spec fn increasing(s: Seq<u64>) -> bool {
    forall|i: int, j: int| 0 <= i < j < s.len() ==> s[i] < s[j]
}

/// `t` is a start time of every operand stream.
pub open spec fn common(ticks: Seq<Seq<u64>>, t: u64) -> bool {
    forall|k: int| 0 <= k < ticks.len() ==> (#[trigger] ticks[k]).contains(t)
}

pub open spec fn feed_start(n: nat) -> Feed {
    Feed {
        held: Seq::new(n, |i: int| None),
        pos: Seq::new(n, |i: int| 0nat),
        emitted: seq![],
        halted: false,
    }
}

/// One `advance`, with the `deliver` it asks for; `ticks[k]` are the start
/// times of the candles of operand `k`, in arrival order.
pub open spec fn feed_step(ticks: Seq<Seq<u64>>, f: Feed) -> Feed {
    if f.halted {
        f
    } else {
        match wanted(f.held) {
            Some(k) => if f.pos[k as int] >= ticks[k as int].len() {
                Feed { halted: true, ..f }
            } else {
                Feed {
                    held: f.held.update(k as int, Some(ticks[k as int][f.pos[k as int] as int])),
                    pos: f.pos.update(k as int, f.pos[k as int] + 1),
                    ..f
                }
            },
            None => Feed {
                held: Seq::new(f.held.len(), |i: int| None),
                emitted: f.emitted.push(latest(f.held) as u64),
                ..f
            },
        }
    }
}

/// The state after `steps` steps from the start.
pub open spec fn feed_run(ticks: Seq<Seq<u64>>, steps: nat) -> Feed
    decreases steps,
{
    if steps == 0 {
        feed_start(ticks.len())
    } else {
        feed_step(ticks, feed_run(ticks, (steps - 1) as nat))
    }
}

pub open spec fn last_emitted(e: Seq<u64>) -> int {
    if e.len() == 0 {
        -1
    } else {
        e.last() as int
    }
}

pub open spec fn feed_inv(ticks: Seq<Seq<u64>>, f: Feed) -> bool {
    let n = ticks.len();
    let lst = last_emitted(f.emitted);
    &&& f.held.len() == n
    &&& f.pos.len() == n
    &&& forall|k: int| 0 <= k < n ==> #[trigger] f.pos[k] <= ticks[k].len()
    &&& forall|k: int|
        0 <= k < n && (#[trigger] f.held[k]) is Some ==> f.pos[k] >= 1 && f.held[k]->0
            == ticks[k][f.pos[k] - 1] && f.held[k]->0 > lst
    &&& forall|k: int|
        0 <= k < n && (#[trigger] f.held[k]) is None ==> (f.pos[k] == 0 ==> f.emitted.len() == 0)
            && (f.pos[k] > 0 ==> ticks[k][f.pos[k] - 1] == lst)
    &&& forall|k: int, j: int|
        0 <= k < n && 0 <= j < f.pos[k] && !(f.held[k] is Some && j == f.pos[k] - 1) && (
        #[trigger] ticks[k][j]) > lst ==> !common(ticks, ticks[k][j])
    &&& increasing(f.emitted)
    &&& forall|i: int| 0 <= i < f.emitted.len() ==> common(ticks, #[trigger] f.emitted[i])
    &&& forall|t: u64| common(ticks, t) && t <= lst ==> #[trigger] f.emitted.contains(t)
    &&& f.halted ==> forall|t: u64| common(ticks, t) ==> t <= lst
}

proof fn lemma_index_before(s: Seq<u64>, x: u64, p: int) -> (i: int)
    requires
        increasing(s),
        s.contains(x),
        0 <= p < s.len(),
        x < s[p],
    ensures
        0 <= i < p,
        s[i] == x,
{
    let i = choose|i: int| 0 <= i < s.len() && s[i] == x;
    if i >= p {
        if i > p {
            assert(s[p] < s[i]);
        }
    }
    i
}

/// A start time strictly between the last emitted one and one held was
/// read and dropped by that operand, so it is not common.
proof fn lemma_skipped_not_common(ticks: Seq<Seq<u64>>, f: Feed, j: int, x: u64)
    requires
        feed_inv(ticks, f),
        forall|k: int| 0 <= k < ticks.len() ==> increasing(#[trigger] ticks[k]),
        0 <= j < ticks.len(),
        f.held[j] is Some,
        last_emitted(f.emitted) < x < f.held[j]->0,
    ensures
        !common(ticks, x),
{
    if common(ticks, x) {
        assert(ticks[j].contains(x));
        assert(f.held[j] is Some);
        let i = lemma_index_before(ticks[j], x, f.pos[j] - 1);
        assert(ticks[j][i] == x);
    }
}

proof fn lemma_all_held_latest(h: Seq<Option<u64>>) -> (j: int)
    requires
        h.len() > 0,
        forall|k: int| 0 <= k < h.len() ==> h[k] is Some,
    ensures
        0 <= j < h.len(),
        h[j] == Some(latest(h) as u64),
{
    lemma_latest_bounds(h);
    if latest(h) > 0 {
        choose|j: int| 0 <= j < h.len() && h[j] == Some(latest(h) as u64)
    } else {
        assert(h[0]->0 <= latest(h));
        0
    }
}

/// An operand is wanted while holding a candle only when every operand
/// holds one and its candle is behind the latest.
proof fn lemma_wanted_behind(h: Seq<Option<u64>>, k: nat)
    requires
        wanted(h) == Some(k),
        k < h.len(),
        h[k as int] is Some,
    ensures
        forall|j: int| 0 <= j < h.len() ==> h[j] is Some,
        h[k as int]->0 < latest(h),
{
    lemma_first_empty(h, 0);
    lemma_first_behind(h, latest(h), 0);
}

proof fn lemma_step_inv(ticks: Seq<Seq<u64>>, f: Feed)
    requires
        ticks.len() > 0,
        forall|k: int| 0 <= k < ticks.len() ==> increasing(#[trigger] ticks[k]),
        feed_inv(ticks, f),
    ensures
        feed_inv(ticks, feed_step(ticks, f)),
{
    let n = ticks.len();
    let lst = last_emitted(f.emitted);
    let g = feed_step(ticks, f);
    if f.halted {
        return;
    }
    lemma_first_empty(f.held, 0);
    lemma_first_behind(f.held, latest(f.held), 0);
    lemma_latest_bounds(f.held);
    match wanted(f.held) {
        Some(w) => {
            let k = w as int;
            if f.pos[k] >= ticks[k].len() {
                // Waiting on an ended stream: every common start time is emitted.
                assert forall|t: u64| common(ticks, t) implies t <= lst by {
                    if t > lst {
                        assert(ticks[k].contains(t));
                        let i = choose|i: int| 0 <= i < ticks[k].len() && ticks[k][i] == t;
                        if f.held[k] is None {
                            if f.pos[k] > 0 && i < f.pos[k] - 1 {
                                assert(ticks[k][i] < ticks[k][f.pos[k] - 1]);
                            }
                        } else {
                            if i < f.pos[k] - 1 {
                                assert(!common(ticks, ticks[k][i]));
                            } else {
                                if i > f.pos[k] - 1 {
                                    assert(false);
                                }
                                lemma_wanted_behind(f.held, w);
                                assert(t == f.held[k]->0);
                                let m = lemma_all_held_latest(f.held);
                                lemma_skipped_not_common(ticks, f, m, t);
                            }
                        }
                    }
                }
            } else {
                let v = ticks[k][f.pos[k] as int];
                assert(v > lst) by {
                    if f.held[k] is None {
                        if f.pos[k] > 0 {
                            assert(ticks[k][f.pos[k] - 1] < v);
                        }
                    } else {
                        assert(ticks[k][f.pos[k] - 1] < v);
                    }
                }
                if f.held[k] is Some {
                    lemma_wanted_behind(f.held, w);
                    let m = lemma_all_held_latest(f.held);
                    lemma_skipped_not_common(ticks, f, m, f.held[k]->0);
                }
                assert forall|a: int, j: int|
                    0 <= a < n && 0 <= j < g.pos[a] && !(g.held[a] is Some && j == g.pos[a] - 1)
                        && (#[trigger] ticks[a][j]) > lst implies !common(ticks, ticks[a][j]) by {
                    if a == k {
                        if f.held[k] is None && f.pos[k] > 0 && j < f.pos[k] - 1 {
                            assert(ticks[k][j] < ticks[k][f.pos[k] - 1]);
                        }
                    }
                }
                assert forall|a: int| 0 <= a < n && (#[trigger] g.held[a]) is Some implies g.pos[a]
                    >= 1 && g.held[a]->0 == ticks[a][g.pos[a] - 1] && g.held[a]->0 > lst by {
                    if a != k {
                        assert(g.held[a] == f.held[a]);
                    }
                }
                assert forall|a: int| 0 <= a < n && (#[trigger] g.held[a]) is None implies (g.pos[a]
                    == 0 ==> g.emitted.len() == 0) && (g.pos[a] > 0 ==> ticks[a][g.pos[a] - 1]
                    == lst) by {
                    assert(g.held[a] == f.held[a]);
                }
                assert forall|a: int| 0 <= a < n implies #[trigger] g.pos[a] <= ticks[a].len() by {
                    if a != k {
                        assert(g.pos[a] == f.pos[a]);
                    }
                }
            }
        },
        None => {
            lemma_none_wanted_aligned(f.held);
            let mx = latest(f.held) as u64;
            let m = lemma_all_held_latest(f.held);
            assert(mx as int > lst);
            let e2 = f.emitted.push(mx);
            assert(common(ticks, mx)) by {
                assert forall|k: int| 0 <= k < n implies (#[trigger] ticks[k]).contains(mx) by {
                    assert(ticks[k][f.pos[k] - 1] == mx);
                }
            }
            assert forall|i: int, j: int| 0 <= i < j < e2.len() implies e2[i] < e2[j] by {
                if j < f.emitted.len() {
                } else if f.emitted.len() > 0 {
                    assert(e2[i] <= f.emitted.last());
                }
            }
            assert forall|i: int| 0 <= i < e2.len() implies common(ticks, #[trigger] e2[i]) by {
                if i < f.emitted.len() {
                    assert(e2[i] == f.emitted[i]);
                }
            }
            assert forall|t: u64| common(ticks, t) && t <= mx implies #[trigger] e2.contains(t) by {
                if t <= lst {
                    assert(f.emitted.contains(t));
                    let i = choose|i: int| 0 <= i < f.emitted.len() && f.emitted[i] == t;
                    assert(e2[i] == t);
                } else if t < mx {
                    lemma_skipped_not_common(ticks, f, m, t);
                } else {
                    assert(e2[e2.len() - 1] == t);
                }
            }
            assert forall|a: int| 0 <= a < n && (#[trigger] g.held[a]) is None implies (g.pos[a]
                == 0 ==> g.emitted.len() == 0) && (g.pos[a] > 0 ==> ticks[a][g.pos[a] - 1] == mx) by {
                assert(f.held[a] is Some);
            }
            assert forall|a: int, j: int|
                0 <= a < n && 0 <= j < g.pos[a] && !(g.held[a] is Some && j == g.pos[a] - 1) && (
                #[trigger] ticks[a][j]) > mx implies !common(ticks, ticks[a][j]) by {
                assert(f.held[a] is Some);
                if j < f.pos[a] - 1 {
                    assert(ticks[a][j] < ticks[a][f.pos[a] - 1]);
                }
            }
        },
    }
}

proof fn lemma_run_inv(ticks: Seq<Seq<u64>>, steps: nat)
    requires
        ticks.len() > 0,
        forall|k: int| 0 <= k < ticks.len() ==> increasing(#[trigger] ticks[k]),
    ensures
        feed_inv(ticks, feed_run(ticks, steps)),
    decreases steps,
{
    if steps == 0 {
        let f = feed_start(ticks.len());
        assert(f.emitted.len() == 0);
    } else {
        lemma_run_inv(ticks, (steps - 1) as nat);
        lemma_step_inv(ticks, feed_run(ticks, (steps - 1) as nat));
    }
}

/// Over operand streams whose start times strictly increase, the evaluator
/// emits start times in ascending order, each present in every stream,
/// skipping none that is; and once it waits on an ended stream, it has
/// emitted every start time present in all streams.
pub proof fn emits_each_common_start_time_once(ticks: Seq<Seq<u64>>, steps: nat)
    requires
        ticks.len() > 0,
        forall|k: int| 0 <= k < ticks.len() ==> increasing(#[trigger] ticks[k]),
    ensures
        ({
            let f = feed_run(ticks, steps);
            &&& increasing(f.emitted)
            &&& forall|i: int| 0 <= i < f.emitted.len() ==> common(ticks, #[trigger] f.emitted[i])
            &&& forall|t: u64, i: int|
                #![trigger f.emitted.contains(t), f.emitted[i]]
                0 <= i < f.emitted.len() && common(ticks, t) && t <= f.emitted[i]
                    ==> f.emitted.contains(t)
            &&& f.halted ==> forall|t: u64| common(ticks, t) ==> #[trigger] f.emitted.contains(t)
        }),
{
    lemma_run_inv(ticks, steps);
    let f = feed_run(ticks, steps);
    assert forall|t: u64, i: int|
        #![trigger f.emitted.contains(t), f.emitted[i]]
        0 <= i < f.emitted.len() && common(ticks, t) && t <= f.emitted[i]
            implies f.emitted.contains(t) by {
        if i < f.emitted.len() - 1 {
            assert(f.emitted[i] < f.emitted.last());
        }
    }
}

/// Candles not yet read, over the first `n` operand streams.
pub open spec fn unread(ticks: Seq<Seq<u64>>, pos: Seq<nat>, n: nat) -> int
    decreases n,
{
    if n == 0 {
        0
    } else {
        unread(ticks, pos, (n - 1) as nat) + ticks[n - 1].len() - pos[n - 1]
    }
}

proof fn lemma_unread_update(ticks: Seq<Seq<u64>>, pos: Seq<nat>, n: nat, k: int, v: nat)
    requires
        0 <= k < n <= pos.len(),
    ensures
        unread(ticks, pos.update(k, v), n) == unread(ticks, pos, n) + pos[k] - v,
    decreases n,
{
    let q = pos.update(k, v);
    if n - 1 != k {
        lemma_unread_update(ticks, pos, (n - 1) as nat, k, v);
        assert(q[n - 1] == pos[n - 1]);
    } else {
        lemma_unread_same(ticks, pos, q, (n - 1) as nat);
        assert(q[n - 1] == v);
    }
}

proof fn lemma_unread_same(ticks: Seq<Seq<u64>>, p: Seq<nat>, q: Seq<nat>, n: nat)
    requires
        n <= p.len(),
        n <= q.len(),
        forall|j: int| 0 <= j < n ==> p[j] == q[j],
    ensures
        unread(ticks, p, n) == unread(ticks, q, n),
    decreases n,
{
    if n > 0 {
        lemma_unread_same(ticks, p, q, (n - 1) as nat);
    }
}

proof fn lemma_unread_nonneg(ticks: Seq<Seq<u64>>, pos: Seq<nat>, n: nat)
    requires
        n <= pos.len(),
        n <= ticks.len(),
        forall|k: int| 0 <= k < n ==> #[trigger] pos[k] <= ticks[k].len(),
    ensures
        unread(ticks, pos, n) >= 0,
    decreases n,
{
    if n > 0 {
        lemma_unread_nonneg(ticks, pos, (n - 1) as nat);
    }
}

/// Twice the candles not yet read, plus one while an emission is due.
pub open spec fn progress(ticks: Seq<Seq<u64>>, f: Feed) -> int {
    2 * unread(ticks, f.pos, ticks.len()) + if wanted(f.held) is None {
        1int
    } else {
        0
    }
}

proof fn lemma_step_progress(ticks: Seq<Seq<u64>>, f: Feed)
    requires
        ticks.len() > 0,
        forall|k: int| 0 <= k < ticks.len() ==> increasing(#[trigger] ticks[k]),
        feed_inv(ticks, f),
        !feed_step(ticks, f).halted,
    ensures
        progress(ticks, feed_step(ticks, f)) < progress(ticks, f),
{
    let g = feed_step(ticks, f);
    match wanted(f.held) {
        Some(w) => {
            lemma_unread_update(ticks, f.pos, ticks.len(), w as int, f.pos[w as int] + 1);
        },
        None => {
            lemma_first_empty(g.held, 0);
            assert(g.held[0] is None);
        },
    }
}

/// The state after `steps` steps has halted, or made `steps` units of
/// progress.
proof fn lemma_run_progress(ticks: Seq<Seq<u64>>, steps: nat)
    requires
        ticks.len() > 0,
        forall|k: int| 0 <= k < ticks.len() ==> increasing(#[trigger] ticks[k]),
    ensures
        feed_run(ticks, steps).halted || progress(ticks, feed_run(ticks, steps)) <= progress(
            ticks,
            feed_start(ticks.len()),
        ) - steps,
    decreases steps,
{
    if steps > 0 {
        let p = (steps - 1) as nat;
        lemma_run_progress(ticks, p);
        lemma_run_inv(ticks, p);
        if !feed_run(ticks, steps).halted {
            lemma_step_progress(ticks, feed_run(ticks, p));
        }
    }
}

/// On finite operand streams the evaluator ends up waiting on an ended
/// stream, within two steps per candle and one more.
pub proof fn alignment_halts(ticks: Seq<Seq<u64>>)
    requires
        ticks.len() > 0,
        forall|k: int| 0 <= k < ticks.len() ==> increasing(#[trigger] ticks[k]),
    ensures
        feed_run(ticks, (progress(ticks, feed_start(ticks.len())) + 1) as nat).halted,
{
    let start = feed_start(ticks.len());
    let s = (progress(ticks, start) + 1) as nat;
    lemma_unread_nonneg(ticks, start.pos, ticks.len());
    lemma_run_progress(ticks, s);
    lemma_run_inv(ticks, s);
    let f = feed_run(ticks, s);
    lemma_unread_nonneg(ticks, f.pos, ticks.len());
}

} // verus!
