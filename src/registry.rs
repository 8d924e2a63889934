//! The upstream registry: at most one upstream subscription per stream
//! identifier, shared by every evaluator that reads that stream.
//!
//! The registry decides; its caller holds the connections. `subscribe`
//! says when a connection must be opened, `release` when it must be
//! closed, and `subscribers` in which order a candle is fanned out.
use crate::error::ServerError;
use vstd::prelude::*;

verus! {

/// One upstream stream and the evaluators reading it, in attach order.
pub struct Subscription {
    pub stream: String,
    pub subscribers: Vec<u64>,
}

/// The entries of a registry as (stream, subscribers) pairs.
pub open spec fn entry_views(es: Seq<Subscription>) -> Seq<(Seq<char>, Seq<u64>)> {
    es.map_values(|e: Subscription| (e.stream@, e.subscribers@))
}

pub open spec fn entry_map(es: Seq<(Seq<char>, Seq<u64>)>) -> Map<Seq<char>, Seq<u64>>
    decreases es.len(),
{
    if es.len() == 0 {
        Map::empty()
    } else {
        entry_map(es.drop_last()).insert(es.last().0, es.last().1)
    }
}

pub open spec fn unique_keys(es: Seq<(Seq<char>, Seq<u64>)>) -> bool {
    forall|i: int, j: int| 0 <= i < j < es.len() ==> (#[trigger] es[i]).0 != (#[trigger] es[j]).0
}

/// `v` without the first occurrence of `x`.
pub open spec fn remove_first(v: Seq<u64>, x: u64) -> Seq<u64>
    decreases v.len(),
{
    if v.len() == 0 {
        v
    } else if v[0] == x {
        v.drop_first()
    } else {
        seq![v[0]] + remove_first(v.drop_first(), x)
    }
}

/// The registry after `subscriber` subscribes to stream `s`.
pub open spec fn after_subscribe(m: Map<Seq<char>, Seq<u64>>, s: Seq<char>, subscriber: u64) -> Map<
    Seq<char>,
    Seq<u64>,
> {
    if m.contains_key(s) {
        m.insert(s, m[s].push(subscriber))
    } else {
        m.insert(s, seq![subscriber])
    }
}

/// `subscriber` holds a subscription to stream `s`.
pub open spec fn holds(m: Map<Seq<char>, Seq<u64>>, s: Seq<char>, subscriber: u64) -> bool {
    m.contains_key(s) && m[s].contains(subscriber)
}

/// The registry after `subscriber` releases stream `s`: the stream is
/// dropped with its last subscriber.
pub open spec fn after_release(m: Map<Seq<char>, Seq<u64>>, s: Seq<char>, subscriber: u64) -> Map<
    Seq<char>,
    Seq<u64>,
> {
    if !holds(m, s, subscriber) {
        m
    } else if remove_first(m[s], subscriber).len() == 0 {
        m.remove(s)
    } else {
        m.insert(s, remove_first(m[s], subscriber))
    }
}

proof fn lemma_remove_first_at(v: Seq<u64>, x: u64, i: int)
    requires
        0 <= i < v.len(),
        v[i] == x,
        forall|j: int| 0 <= j < i ==> v[j] != x,
    ensures
        remove_first(v, x) == v.remove(i),
    decreases v.len(),
{
    if i == 0 {
        assert(v.drop_first() =~= v.remove(0));
    } else {
        let d = v.drop_first();
        assert forall|j: int| 0 <= j < i - 1 implies d[j] != x by {
            assert(d[j] == v[j + 1]);
        }
        lemma_remove_first_at(d, x, i - 1);
        assert(seq![v[0]] + d.remove(i - 1) =~= v.remove(i));
    }
}

proof fn lemma_remove_first_len(v: Seq<u64>, x: u64)
    requires
        v.contains(x),
    ensures
        remove_first(v, x).len() == v.len() - 1,
    decreases v.len(),
{
    if v[0] != x {
        let j = choose|j: int| 0 <= j < v.len() && v[j] == x;
        assert(v.drop_first()[j - 1] == x);
        lemma_remove_first_len(v.drop_first(), x);
    }
}

proof fn lemma_entry_map_lookup(es: Seq<(Seq<char>, Seq<u64>)>, k: Seq<char>)
    requires
        unique_keys(es),
    ensures
        entry_map(es).contains_key(k) <==> exists|i: int| 0 <= i < es.len() && (#[trigger] es[i]).0 == k,
        forall|i: int| 0 <= i < es.len() && (#[trigger] es[i]).0 == k ==> entry_map(es)[k] == es[i].1,
    decreases es.len(),
{
    if es.len() > 0 {
        let p = es.drop_last();
        assert forall|i: int, j: int| 0 <= i < j < p.len() implies (#[trigger] p[i]).0 != (
        #[trigger] p[j]).0 by {
            assert(p[i] == es[i] && p[j] == es[j]);
        }
        lemma_entry_map_lookup(p, k);
        if entry_map(es).contains_key(k) && es.last().0 != k {
            let i = choose|i: int| 0 <= i < p.len() && (#[trigger] p[i]).0 == k;
            assert(es[i] == p[i]);
        }
        assert forall|i: int| 0 <= i < es.len() && (#[trigger] es[i]).0 == k implies entry_map(
            es,
        )[k] == es[i].1 by {
            if i < es.len() - 1 {
                assert(es[i] == p[i]);
            }
        }
        if exists|i: int| 0 <= i < es.len() && (#[trigger] es[i]).0 == k {
            let i = choose|i: int| 0 <= i < es.len() && (#[trigger] es[i]).0 == k;
            if i < es.len() - 1 {
                assert(p[i] == es[i]);
            }
        }
    }
}

proof fn lemma_entry_map_remove(es: Seq<(Seq<char>, Seq<u64>)>, i: int)
    requires
        unique_keys(es),
        0 <= i < es.len(),
    ensures
        entry_map(es.remove(i)) == entry_map(es).remove(es[i].0),
        unique_keys(es.remove(i)),
    decreases es.len(),
{
    let k = es[i].0;
    let p = es.drop_last();
    assert forall|a: int, b: int| 0 <= a < b < p.len() implies (#[trigger] p[a]).0 != (
    #[trigger] p[b]).0 by {
        assert(p[a] == es[a] && p[b] == es[b]);
    }
    let r = es.remove(i);
    assert forall|a: int, b: int| 0 <= a < b < r.len() implies (#[trigger] r[a]).0 != (
    #[trigger] r[b]).0 by {
        let a1 = if a < i { a } else { a + 1 };
        let b1 = if b < i { b } else { b + 1 };
        assert(r[a] == es[a1] && r[b] == es[b1]);
    }
    if i == es.len() - 1 {
        assert(r =~= p);
        lemma_entry_map_lookup(p, k);
        assert forall|j: int| 0 <= j < p.len() implies (#[trigger] p[j]).0 != k by {
            assert(p[j] == es[j]);
        }
        assert(entry_map(r) =~= entry_map(es).remove(k));
    } else {
        lemma_entry_map_remove(p, i);
        assert(r =~= p.remove(i).push(es.last()));
        assert(r.drop_last() =~= p.remove(i));
        assert(es.last().0 != k);
        assert(entry_map(r) =~= entry_map(es).remove(k));
    }
}

/// Deduplicated upstream subscriptions.
pub struct Registry {
    entries: Vec<Subscription>,
}

impl Registry {
    pub closed spec fn entries_view(&self) -> Seq<(Seq<char>, Seq<u64>)> {
        entry_views(self.entries@)
    }

    /// Stream identifier -> subscribers, in attach order.
    pub open spec fn view(&self) -> Map<Seq<char>, Seq<u64>> {
        entry_map(self.entries_view())
    }

    /// One entry per stream, none without subscribers.
    pub open spec fn wf(&self) -> bool {
        &&& unique_keys(self.entries_view())
        &&& forall|i: int|
            0 <= i < self.entries_view().len() ==> (#[trigger] self.entries_view()[i]).1.len() > 0
    }

    pub fn new() -> (r: Self)
        ensures
            r.wf(),
            r.view() == Map::<Seq<char>, Seq<u64>>::empty(),
    {
        let r = Registry { entries: Vec::new() };
        assert(r.entries_view() =~= seq![]);
        r
    }

    fn find(&self, stream: &str) -> (r: Option<usize>)
        requires
            self.wf(),
        ensures
            match r {
                Some(i) => i < self.entries_view().len() && self.entries_view()[i as int].0
                    == stream@,
                None => !self.view().contains_key(stream@),
            },
    {
        proof {
            lemma_entry_map_lookup(self.entries_view(), stream@);
        }
        let key = stream.to_owned();
        let mut i: usize = 0;
        while i < self.entries.len()
            invariant
                key@ == stream@,
                i <= self.entries@.len(),
                forall|j: int| 0 <= j < i ==> (#[trigger] self.entries_view()[j]).0 != stream@,
            decreases self.entries.len() - i,
        {
            assert(self.entries_view()[i as int].0 == self.entries@[i as int].stream@);
            if self.entries[i].stream == key {
                return Some(i);
            }
            i = i + 1;
        }
        None
    }

    /// Attaches `subscriber` to `stream`. Returns `true` when the stream had
    /// no subscription yet: the caller then opens its one upstream
    /// connection. Otherwise the existing connection is shared.
    pub fn subscribe(&mut self, stream: &str, subscriber: u64) -> (opened: bool)
        requires
            old(self).wf(),
        ensures
            final(self).wf(),
            opened == !old(self).view().contains_key(stream@),
            final(self).view() == after_subscribe(old(self).view(), stream@, subscriber),
    {
        let ghost es = self.entries_view();
        proof {
            lemma_entry_map_lookup(es, stream@);
        }
        match self.find(stream) {
            Some(i) => {
                let mut e = self.entries.remove(i);
                proof {
                    lemma_entry_map_remove(es, i as int);
                    assert(entry_views(self.entries@) =~= es.remove(i as int));
                }
                e.subscribers.push(subscriber);
                let ghost v = e.subscribers@;
                self.entries.push(e);
                proof {
                    let r = es.remove(i as int);
                    assert(self.entries_view() =~= r.push((stream@, v)));
                    assert(self.entries_view().drop_last() =~= r);
                    assert forall|a: int| 0 <= a < r.len() implies (#[trigger] r[a]).0 != stream@ by {
                        let a1 = if a < i { a } else { a + 1 };
                        assert(r[a] == es[a1]);
                    }
                    assert forall|a: int, b: int| 0 <= a < b < self.entries_view().len() implies (
                    #[trigger] self.entries_view()[a]).0 != (#[trigger] self.entries_view()[b]).0 by {
                        if b == r.len() {
                            assert(self.entries_view()[a] == r[a]);
                        } else {
                            assert(self.entries_view()[a] == r[a] && self.entries_view()[b] == r[b]);
                        }
                    }
                    assert forall|a: int| 0 <= a < self.entries_view().len() implies (
                    #[trigger] self.entries_view()[a]).1.len() > 0 by {
                        if a < r.len() {
                            let a1 = if a < i { a } else { a + 1 };
                            assert(self.entries_view()[a] == es[a1]);
                        }
                    }
                    assert(self.view() =~= after_subscribe(entry_map(es), stream@, subscriber));
                }
                false
            },
            None => {
                let mut subscribers: Vec<u64> = Vec::new();
                subscribers.push(subscriber);
                self.entries.push(Subscription { stream: stream.to_owned(), subscribers });
                proof {
                    assert(self.entries_view() =~= es.push((stream@, seq![subscriber])));
                    assert(self.entries_view().drop_last() =~= es);
                    assert forall|a: int| 0 <= a < es.len() implies (#[trigger] es[a]).0 != stream@ by {
                    }
                    assert forall|a: int, b: int| 0 <= a < b < self.entries_view().len() implies (
                    #[trigger] self.entries_view()[a]).0 != (#[trigger] self.entries_view()[b]).0 by {
                        assert(self.entries_view()[a] == es[a]);
                        if b < es.len() {
                            assert(self.entries_view()[b] == es[b]);
                        }
                    }
                    assert forall|a: int| 0 <= a < self.entries_view().len() implies (
                    #[trigger] self.entries_view()[a]).1.len() > 0 by {
                        if a < es.len() {
                            assert(self.entries_view()[a] == es[a]);
                        }
                    }
                    assert(self.view() =~= after_subscribe(entry_map(es), stream@, subscriber));
                }
                true
            },
        }
    }

    /// Detaches `subscriber` from `stream`. Returns `true` when it was the
    /// last subscriber: the entry is gone and the caller closes the
    /// upstream connection. Fails with `KeyNotFound` when `subscriber`
    /// holds no subscription to `stream`; nothing changes then.
    pub fn release(&mut self, stream: &str, subscriber: u64) -> (r: Result<bool, ServerError>)
        requires
            old(self).wf(),
        ensures
            final(self).wf(),
            final(self).view() == after_release(old(self).view(), stream@, subscriber),
            holds(old(self).view(), stream@, subscriber) ==> r == Ok::<bool, ServerError>(
                old(self).view()[stream@].len() == 1,
            ),
            !holds(old(self).view(), stream@, subscriber) ==> r == Err::<bool, ServerError>(
                ServerError::KeyNotFound,
            ),
    {
        let ghost es = self.entries_view();
        proof {
            lemma_entry_map_lookup(es, stream@);
        }
        let i = match self.find(stream) {
            Some(i) => i,
            None => return Err(ServerError::KeyNotFound),
        };
        let ghost subs = es[i as int].1;
        assert(self.view()[stream@] == subs);
        let mut j: usize = 0;
        while j < self.entries[i].subscribers.len()
            invariant
                i < self.entries@.len(),
                subs == self.entries@[i as int].subscribers@,
                j <= subs.len(),
                forall|a: int| 0 <= a < j ==> subs[a] != subscriber,
            ensures
                i < self.entries@.len(),
                subs == self.entries@[i as int].subscribers@,
                j <= subs.len(),
                forall|a: int| 0 <= a < j ==> subs[a] != subscriber,
                j < subs.len() ==> subs[j as int] == subscriber,
            decreases subs.len() - j,
        {
            if self.entries[i].subscribers[j] == subscriber {
                break;
            }
            j = j + 1;
        }
        if j == self.entries[i].subscribers.len() {
            assert(!subs.contains(subscriber));
            return Err(ServerError::KeyNotFound);
        }
        proof {
            lemma_remove_first_at(subs, subscriber, j as int);
            lemma_remove_first_len(subs, subscriber);
        }
        let mut e = self.entries.remove(i);
        proof {
            lemma_entry_map_remove(es, i as int);
            assert(entry_views(self.entries@) =~= es.remove(i as int));
        }
        e.subscribers.remove(j);
        let ghost r = es.remove(i as int);
        proof {
            assert forall|a: int| 0 <= a < r.len() implies (#[trigger] r[a]).1.len() > 0 by {
                let a1 = if a < i { a } else { a + 1 };
                assert(r[a] == es[a1]);
            }
        }
        if e.subscribers.len() == 0 {
            assert(self.view() =~= after_release(entry_map(es), stream@, subscriber));
            return Ok(true);
        }
        let ghost v = e.subscribers@;
        self.entries.push(e);
        proof {
            assert(self.entries_view() =~= r.push((stream@, v)));
            assert(self.entries_view().drop_last() =~= r);
            assert forall|a: int| 0 <= a < r.len() implies (#[trigger] r[a]).0 != stream@ by {
                let a1 = if a < i { a } else { a + 1 };
                assert(r[a] == es[a1]);
            }
            assert forall|a: int, b: int| 0 <= a < b < self.entries_view().len() implies (
            #[trigger] self.entries_view()[a]).0 != (#[trigger] self.entries_view()[b]).0 by {
                assert(self.entries_view()[a] == r[a]);
                if b < r.len() {
                    assert(self.entries_view()[b] == r[b]);
                }
            }
            assert forall|a: int| 0 <= a < self.entries_view().len() implies (
            #[trigger] self.entries_view()[a]).1.len() > 0 by {
                if a < r.len() {
                    assert(self.entries_view()[a] == r[a]);
                }
            }
            assert(self.view() =~= after_release(entry_map(es), stream@, subscriber));
        }
        Ok(false)
    }

    /// The subscribers of `stream` in attach order, the order in which a
    /// candle of that stream is delivered.
    pub fn subscribers(&self, stream: &str) -> (r: Option<Vec<u64>>)
        requires
            self.wf(),
        ensures
            match r {
                Some(v) => self.view().contains_key(stream@) && v@ == self.view()[stream@],
                None => !self.view().contains_key(stream@),
            },
    {
        proof {
            lemma_entry_map_lookup(self.entries_view(), stream@);
        }
        match self.find(stream) {
            Some(i) => {
                let mut v: Vec<u64> = Vec::new();
                let subs = &self.entries[i].subscribers;
                let mut j: usize = 0;
                while j < subs.len()
                    invariant
                        j <= subs@.len(),
                        v@ == subs@.take(j as int),
                    decreases subs.len() - j,
                {
                    v.push(subs[j]);
                    j = j + 1;
                    assert(v@ =~= subs@.take(j as int));
                }
                assert(subs@.take(j as int) =~= subs@);
                Some(v)
            },
            None => None,
        }
    }

    /// Drops `stream` with all its subscribers, as when its upstream
    /// connection ends; returns them so that each can be told.
    pub fn remove_stream(&mut self, stream: &str) -> (r: Option<Vec<u64>>)
        requires
            old(self).wf(),
        ensures
            final(self).wf(),
            final(self).view() == old(self).view().remove(stream@),
            match r {
                Some(v) => old(self).view().contains_key(stream@) && v@ == old(self).view()[stream@],
                None => !old(self).view().contains_key(stream@),
            },
    {
        let ghost es = self.entries_view();
        proof {
            lemma_entry_map_lookup(es, stream@);
        }
        match self.find(stream) {
            Some(i) => {
                let e = self.entries.remove(i);
                proof {
                    lemma_entry_map_remove(es, i as int);
                    assert(entry_views(self.entries@) =~= es.remove(i as int));
                    let r = es.remove(i as int);
                    assert forall|a: int| 0 <= a < r.len() implies (#[trigger] r[a]).1.len() > 0 by {
                        let a1 = if a < i { a } else { a + 1 };
                        assert(r[a] == es[a1]);
                    }
                }
                Some(e.subscribers)
            },
            None => {
                assert(entry_map(es).remove(stream@) =~= entry_map(es));
                None
            },
        }
    }
}

/// A change of the registry.
pub enum RegistryOp {
    Subscribe(Seq<char>, u64),
    Release(Seq<char>, u64),
    /// The upstream connection of a stream ended.
    Teardown(Seq<char>),
}

pub open spec fn apply_op(m: Map<Seq<char>, Seq<u64>>, op: RegistryOp) -> Map<Seq<char>, Seq<u64>> {
    match op {
        RegistryOp::Subscribe(s, x) => after_subscribe(m, s, x),
        RegistryOp::Release(s, x) => after_release(m, s, x),
        RegistryOp::Teardown(s) => m.remove(s),
    }
}

/// The stream whose upstream connection `op` opens, if any.
pub open spec fn opens(m: Map<Seq<char>, Seq<u64>>, op: RegistryOp) -> Option<Seq<char>> {
    match op {
        RegistryOp::Subscribe(s, _) => if !m.contains_key(s) {
            Some(s)
        } else {
            None
        },
        _ => None,
    }
}

/// The stream whose upstream connection `op` closes, if any.
pub open spec fn closes(m: Map<Seq<char>, Seq<u64>>, op: RegistryOp) -> Option<Seq<char>> {
    match op {
        RegistryOp::Release(s, x) => if holds(m, s, x) && m[s].len() == 1 {
            Some(s)
        } else {
            None
        },
        RegistryOp::Teardown(s) => if m.contains_key(s) {
            Some(s)
        } else {
            None
        },
        _ => None,
    }
}

/// The registry after `ops`, from empty.
pub open spec fn registry_after(ops: Seq<RegistryOp>) -> Map<Seq<char>, Seq<u64>>
    decreases ops.len(),
{
    if ops.len() == 0 {
        Map::empty()
    } else {
        apply_op(registry_after(ops.drop_last()), ops.last())
    }
}

/// Upstream connections for `s` opened and not closed during `ops`.
pub open spec fn connections(ops: Seq<RegistryOp>, s: Seq<char>) -> int
    decreases ops.len(),
{
    if ops.len() == 0 {
        0
    } else {
        let m = registry_after(ops.drop_last());
        connections(ops.drop_last(), s) + (if opens(m, ops.last()) == Some(s) {
            1int
        } else {
            0
        }) - (if closes(m, ops.last()) == Some(s) {
            1int
        } else {
            0
        })
    }
}

/// Subscriber lists in the registry are never empty.
pub open spec fn no_empty_lists(m: Map<Seq<char>, Seq<u64>>) -> bool {
    forall|s: Seq<char>| #[trigger] m.contains_key(s) ==> m[s].len() > 0
}

proof fn lemma_no_empty_lists(ops: Seq<RegistryOp>)
    ensures
        no_empty_lists(registry_after(ops)),
    decreases ops.len(),
{
    if ops.len() > 0 {
        lemma_no_empty_lists(ops.drop_last());
        let m = registry_after(ops.drop_last());
        if let RegistryOp::Release(s, x) = ops.last() {
            if holds(m, s, x) {
                lemma_remove_first_len(m[s], x);
            }
        }
    }
}

/// However evaluators subscribe to and release streams, and whenever
/// upstream connections end, every stream has exactly one upstream
/// connection while it has subscribers and none otherwise: never two, and
/// the release by its last subscriber closes it.
pub proof fn one_upstream_per_stream(ops: Seq<RegistryOp>, s: Seq<char>)
    ensures
        connections(ops, s) == if registry_after(ops).contains_key(s) {
            1int
        } else {
            0
        },
        0 <= connections(ops, s) <= 1,
    decreases ops.len(),
{
    if ops.len() > 0 {
        let p = ops.drop_last();
        one_upstream_per_stream(p, s);
        lemma_no_empty_lists(p);
        let m = registry_after(p);
        if let RegistryOp::Release(t, x) = ops.last() {
            if holds(m, t, x) {
                lemma_remove_first_len(m[t], x);
            }
        }
    }
}

} // verus!
