//! The multicast distributor: a registry of subscribed sinks keyed by
//! monotonically increasing handles, forwarding every lifecycle call it
//! receives to every registered sink in registration order.
//!
//! Beside the sinks themselves the distributor carries two ghost records: the
//! full history of events it has fanned out since creation, and, for every
//! registered sink, the sink's observation history and the fan-out history's
//! length at the moment of registration. Together they pin down exactly what
//! every subscriber has received: its observations since joining are a suffix
//! of the shared fan-out history, so all subscribers see the same calls in
//! the same order, and a sink receives nothing that was fanned out before it
//! joined.

use vstd::prelude::*;

use crate::delta::DeltaOp;
use crate::sink::{Event, Sink};

verus! {

/// Fans every lifecycle call out to every registered sink, in registration
/// order. Subscription handles are never reused, even after the sink behind
/// one was removed. If a sink reports a failure, it stays registered and
/// delivery to the remaining sinks proceeds; the first failure is reported
/// to the caller.
pub struct TxnDistributor<S> {
    /// Registered sinks with their handles, in registration order.
    subs: Vec<(usize, S)>,
    /// The next unused subscription handle.
    next: usize,
    /// Every event fanned out since creation, in order.
    hist: Ghost<Seq<Event>>,
    /// Per registered sink: its observation history at registration, and the
    /// fan-out history's length at registration.
    joins: Ghost<Seq<(Seq<Event>, int)>>,
}

impl<S: Sink> TxnDistributor<S> {
    /// The handles of the registered sinks, in registration order.
    pub closed spec fn handles(&self) -> Seq<usize> {
        Seq::new(self.subs@.len(), |i: int| self.subs@[i].0)
    }

    /// The registered sinks, in registration order.
    pub closed spec fn sinks(&self) -> Seq<S> {
        Seq::new(self.subs@.len(), |i: int| self.subs@[i].1)
    }

    /// Every event fanned out since creation, in order.
    pub closed spec fn history(&self) -> Seq<Event> {
        self.hist@
    }

    /// The handle the next subscription will receive.
    pub closed spec fn next_handle(&self) -> usize {
        self.next
    }

    /// Per registered sink, in registration order: what it had already
    /// observed when it joined, and how many events had been fanned out at
    /// that moment.
    pub closed spec fn joins(&self) -> Seq<(Seq<Event>, int)> {
        self.joins@
    }

    /// What the sink at position `i` had already observed when it joined.
    pub open spec fn join_events(&self, i: int) -> Seq<Event> {
        self.joins()[i].0
    }

    /// How many events had been fanned out when the sink at position `i`
    /// joined.
    pub open spec fn join_point(&self, i: int) -> int {
        self.joins()[i].1
    }

    /// Whether a fresh handle can still be assigned.
    pub open spec fn handles_available(&self) -> bool {
        self.next_handle() < usize::MAX
    }

    /// Everything the sink at position `i` has observed since it joined.
    pub open spec fn received(&self, i: int) -> Seq<Event> {
        self.sinks()[i].events().skip(self.join_events(i).len() as int)
    }

    /// Between two registry states, every registered sink has recorded
    /// exactly one further call outcome.
    pub open spec fn outcomes_extended(pre: Seq<S>, post: Seq<S>) -> bool {
        &&& post.len() == pre.len()
        &&& forall|i: int|
            #![trigger post[i]]
            0 <= i < pre.len() ==> post[i].outcomes().len() == pre[i].outcomes().len() + 1
                && post[i].outcomes().drop_last() == pre[i].outcomes()
    }

    /// The result of one fan-out round over the registered sinks: success
    /// exactly when every sink reported success for the round's call — in
    /// particular whenever no sink is registered — and otherwise the first
    /// failing sink's error, while delivery reached every sink regardless.
    pub open spec fn round_result(sinks: Seq<S>, r: Result<(), S::Err>) -> bool {
        &&& (r is Ok <==> (forall|i: int|
            #![trigger sinks[i]]
            0 <= i < sinks.len() ==> (sinks[i].outcomes().last() is Ok)))
        &&& (r matches Err(e) ==> (exists|i: int|
            #![trigger sinks[i]]
            0 <= i < sinks.len() && sinks[i].outcomes().last() == Err::<(), S::Err>(e) && (
            forall|j: int| #![trigger sinks[j]] 0 <= j < i ==> (sinks[j].outcomes().last() is Ok))))
    }

    /// Whether every registered sink promises success for every future call.
    pub open spec fn all_succeed(sinks: Seq<S>) -> bool {
        forall|i: int|
            #![trigger sinks[i]]
            0 <= i < sinks.len() ==> sinks[i].always_succeeds()
    }

    /// Registry invariant: handles are strictly increasing in registration
    /// order and below the next unused handle, the ghost join records align
    /// with the registry, and every registered sink's observations are its
    /// observations at joining followed by the fan-out history since.
    pub closed spec fn wf(&self) -> bool {
        &&& self.joins@.len() == self.subs@.len()
        &&& forall|i: int, j: int|
            #![trigger self.handles()[i], self.handles()[j]]
            0 <= i < j < self.subs@.len() ==> self.handles()[i] < self.handles()[j]
        &&& forall|i: int| 0 <= i < self.subs@.len() ==> #[trigger] self.handles()[i] < self.next
        &&& forall|i: int|
            0 <= i < self.subs@.len() ==> 0 <= #[trigger] self.join_point(i) <= self.hist@.len()
        &&& forall|i: int|
            0 <= i < self.subs@.len() ==> #[trigger] self.sinks()[i].events() == self.join_events(
                i,
            ) + self.hist@.skip(self.join_point(i))
    }

    /// What a subscriber has received since joining is exactly the fan-out
    /// history from its join point on: nothing fanned out earlier, nothing
    /// reordered, nothing skipped.
    pub proof fn lemma_received_is_history_suffix(&self, i: int)
        requires
            self.wf(),
            0 <= i < self.sinks().len(),
        ensures
            self.received(i) == self.history().skip(self.join_point(i)),
    {
        let je = self.join_events(i);
        let suffix = self.hist@.skip(self.join_point(i));
        assert(self.sinks()[i].events() == je + suffix);
        assert((je + suffix).skip(je.len() as int) =~= suffix);
    }

    /// Fan-out equivalence: two sinks that joined at the same point of the
    /// stream observe identical call sequences from then on.
    pub proof fn lemma_fan_out_equivalence(&self, i: int, j: int)
        requires
            self.wf(),
            0 <= i < self.sinks().len(),
            0 <= j < self.sinks().len(),
            self.join_point(i) == self.join_point(j),
        ensures
            self.received(i) == self.received(j),
    {
        self.lemma_received_is_history_suffix(i);
        self.lemma_received_is_history_suffix(j);
    }

    /// A well-formed registry holds no handle twice: its handles are
    /// strictly increasing in registration order.
    pub proof fn lemma_handles_no_duplicates(&self)
        requires
            self.wf(),
        ensures
            self.handles().no_duplicates(),
    {
        assert forall|i: int, j: int|
            #![trigger self.handles()[i], self.handles()[j]]
            0 <= i < self.handles().len() && 0 <= j < self.handles().len() && i != j
            implies self.handles()[i] != self.handles()[j] by {
            if i < j {
                assert(self.handles()[i] < self.handles()[j]);
            } else {
                assert(self.handles()[j] < self.handles()[i]);
            }
        }
    }

    /// A distributor with no subscribers and an empty fan-out history.
    pub fn new() -> (r: Self)
        ensures
            r.wf(),
            r.handles() == Seq::<usize>::empty(),
            r.sinks() == Seq::<S>::empty(),
            r.history() == Seq::<Event>::empty(),
            r.next_handle() == 0,
    {
        let r = TxnDistributor {
            subs: Vec::new(),
            next: 0,
            hist: Ghost(Seq::empty()),
            joins: Ghost(Seq::empty()),
        };
        proof {
            assert(r.handles() =~= Seq::<usize>::empty());
            assert(r.sinks() =~= Seq::<S>::empty());
        }
        r
    }

    /// Register `sink` under the next unused handle. Never fails; the
    /// `Result` keeps the uniform source-capability shape. The new subscriber
    /// has received nothing at registration: it will observe only calls
    /// fanned out after `subscribe` returns.
    pub fn subscribe(&mut self, sink: S) -> (r: Result<usize, S>)
        requires
            old(self).wf(),
            old(self).handles_available(),
        ensures
            final(self).wf(),
            r matches Ok(h) && ({
                &&& h == old(self).next_handle()
                &&& !old(self).handles().contains(h)
                &&& final(self).handles() == old(self).handles().push(h)
                &&& final(self).sinks() == old(self).sinks().push(sink)
                &&& final(self).history() == old(self).history()
                &&& final(self).next_handle() == old(self).next_handle() + 1
                &&& final(self).joins() == old(self).joins().push(
                    (sink.events(), old(self).history().len() as int),
                )
                &&& final(self).join_point(old(self).sinks().len() as int) == old(
                    self,
                ).history().len()
                &&& final(self).join_events(old(self).sinks().len() as int) == sink.events()
                &&& final(self).received(old(self).sinks().len() as int) == Seq::<Event>::empty()
            }),
            (Self::all_succeed(old(self).sinks()) && sink.always_succeeds() ==> Self::all_succeed(
                final(self).sinks(),
            )),
    {
        let h = self.next;
        self.next = self.next + 1;
        let ghost ev = sink.events();
        self.joins = Ghost(self.joins@.push((ev, self.hist@.len() as int)));
        self.subs.push((h, sink));
        proof {
            let n = old(self).subs@.len() as int;
            assert(self.handles() =~= old(self).handles().push(h));
            assert(self.sinks() =~= old(self).sinks().push(sink));
            if old(self).handles().contains(h) {
                let i = choose|i: int|
                    0 <= i < old(self).handles().len() && old(self).handles()[i] == h;
                assert(old(self).handles()[i] < old(self).next);
                assert(false);
            }
            assert(self.hist@.skip(self.hist@.len() as int) =~= Seq::<Event>::empty());
            assert(ev + Seq::<Event>::empty() =~= ev);
            assert(self.sinks()[n] == sink);
            assert(self.sinks()[n].events().skip(ev.len() as int) =~= Seq::<Event>::empty());
            if Self::all_succeed(old(self).sinks()) && sink.always_succeeds() {
                assert forall|a: int| #![trigger self.sinks()[a]] 0 <= a < n + 1 implies self.sinks()[
                    a].always_succeeds() by {
                    if a < n {
                        assert(old(self).sinks()[a].always_succeeds());
                        assert(self.sinks()[a] == old(self).sinks()[a]);
                    }
                }
            }
            assert forall|a: int, b: int|
                #![trigger self.handles()[a], self.handles()[b]]
                0 <= a < b < n + 1 implies self.handles()[a] < self.handles()[b] by {
                if b < n {
                    assert(old(self).handles()[a] < old(self).handles()[b]);
                } else {
                    assert(old(self).handles()[a] < old(self).next);
                }
            }
            assert forall|a: int| 0 <= a < n + 1 implies #[trigger] self.handles()[a]
                < self.next by {
                if a < n {
                    assert(old(self).handles()[a] < old(self).next);
                }
            }
            assert forall|a: int| 0 <= a < n + 1 implies 0 <= #[trigger] self.join_point(a)
                <= self.hist@.len() by {
                if a < n {
                    assert(self.joins@[a] == old(self).joins@[a]);
                    assert(0 <= old(self).join_point(a) <= old(self).hist@.len());
                } else {
                    assert(self.joins@[a] == (ev, old(self).hist@.len() as int));
                }
            }
            assert forall|a: int| 0 <= a < n + 1 implies #[trigger] self.sinks()[a].events()
                == self.join_events(a) + self.hist@.skip(self.join_point(a)) by {
                if a < n {
                    assert(old(self).sinks()[a].events() == old(self).join_events(a) + old(
                        self,
                    ).hist@.skip(old(self).join_point(a)));
                    assert(self.sinks()[a] == old(self).sinks()[a]);
                    assert(self.joins@[a] == old(self).joins@[a]);
                }
            }
        }
        Ok(h)
    }

    /// Remove and return the sink registered under `handle`, if any.
    /// Repeated calls with the same handle return `None`: removal is
    /// idempotent, and the handle is never assigned again.
    pub fn unsubscribe(&mut self, handle: &usize) -> (r: Option<S>)
        requires
            old(self).wf(),
        ensures
            final(self).wf(),
            final(self).history() == old(self).history(),
            final(self).next_handle() == old(self).next_handle(),
            (Self::all_succeed(old(self).sinks()) ==> Self::all_succeed(final(self).sinks())),
            old(self).handles().contains(*handle) ==> ({
                let i = old(self).handles().index_of(*handle);
                &&& r == Some(old(self).sinks()[i])
                &&& final(self).handles() == old(self).handles().remove(i)
                &&& final(self).sinks() == old(self).sinks().remove(i)
                &&& final(self).joins() == old(self).joins().remove(i)
            }),
            !old(self).handles().contains(*handle) ==> r is None && *final(self) == *old(self),
    {
        let mut i: usize = 0;
        while i < self.subs.len()
            invariant
                *self == *old(self),
                old(self).wf(),
                i <= self.subs@.len(),
                forall|j: int| 0 <= j < i ==> #[trigger] self.subs@[j].0 != *handle,
            decreases self.subs@.len() - i,
        {
            if self.subs[i].0 == *handle {
                let ghost i0 = i as int;
                proof {
                    assert(old(self).handles()[i0] == *handle);
                    assert(old(self).handles().contains(*handle));
                    let k = old(self).handles().index_of(*handle);
                    assert(0 <= k < old(self).handles().len() && old(self).handles()[k]
                        == *handle);
                    if k < i0 {
                        assert(old(self).handles()[k] < old(self).handles()[i0]);
                    }
                    if k > i0 {
                        assert(old(self).handles()[i0] < old(self).handles()[k]);
                    }
                    assert(k == i0);
                }
                let (h0, s0) = self.subs.remove(i);
                self.joins = Ghost(self.joins@.remove(i0));
                proof {
                    let n = self.subs@.len() as int;
                    assert(self.handles() =~= old(self).handles().remove(i0));
                    assert(self.sinks() =~= old(self).sinks().remove(i0));
                    assert forall|a: int, b: int|
                        #![trigger self.handles()[a], self.handles()[b]]
                        0 <= a < b < n implies self.handles()[a] < self.handles()[b] by {
                        let a2: int = if a < i0 { a } else { a + 1 };
                        let b2: int = if b < i0 { b } else { b + 1 };
                        assert(self.handles()[a] == old(self).handles()[a2]);
                        assert(self.handles()[b] == old(self).handles()[b2]);
                        assert(old(self).handles()[a2] < old(self).handles()[b2]);
                    }
                    assert forall|a: int| 0 <= a < n implies #[trigger] self.handles()[a]
                        < self.next by {
                        let a2: int = if a < i0 { a } else { a + 1 };
                        assert(self.handles()[a] == old(self).handles()[a2]);
                        assert(old(self).handles()[a2] < old(self).next);
                    }
                    assert forall|a: int| 0 <= a < n implies 0 <= #[trigger] self.join_point(a)
                        <= self.hist@.len() by {
                        let a2: int = if a < i0 { a } else { a + 1 };
                        assert(self.joins@[a] == old(self).joins@[a2]);
                        assert(0 <= old(self).join_point(a2) <= old(self).hist@.len());
                    }
                    assert forall|a: int| 0 <= a < n implies #[trigger] self.sinks()[a].events()
                        == self.join_events(a) + self.hist@.skip(self.join_point(a)) by {
                        let a2: int = if a < i0 { a } else { a + 1 };
                        assert(self.sinks()[a] == old(self).sinks()[a2]);
                        assert(self.joins@[a] == old(self).joins@[a2]);
                        assert(old(self).sinks()[a2].events() == old(self).join_events(a2) + old(
                            self,
                        ).hist@.skip(old(self).join_point(a2)));
                    }
                    if Self::all_succeed(old(self).sinks()) {
                        assert forall|a: int| #![trigger self.sinks()[a]] 0 <= a < n implies self.sinks()[
                            a].always_succeeds() by {
                            let a2: int = if a < i0 { a } else { a + 1 };
                            assert(self.sinks()[a] == old(self).sinks()[a2]);
                            assert(old(self).sinks()[a2].always_succeeds());
                        }
                    }
                }
                return Some(s0);
            }
            i += 1;
        }
        proof {
            if old(self).handles().contains(*handle) {
                let k = choose|k: int|
                    0 <= k < old(self).handles().len() && old(self).handles()[k] == *handle;
                assert(self.subs@[k].0 == *handle);
                assert(false);
            }
        }
        None
    }

    /// The sink registered under `handle`, if any, for inspection.
    pub fn get_sink(&self, handle: &usize) -> (r: Option<&S>)
        requires
            self.wf(),
        ensures
            self.handles().contains(*handle) ==> (r matches Some(s) && *s == self.sinks()[
                self.handles().index_of(*handle)]),
            !self.handles().contains(*handle) ==> r is None,
    {
        let mut i: usize = 0;
        while i < self.subs.len()
            invariant
                self.wf(),
                i <= self.subs@.len(),
                forall|j: int| 0 <= j < i ==> #[trigger] self.subs@[j].0 != *handle,
            decreases self.subs@.len() - i,
        {
            if self.subs[i].0 == *handle {
                proof {
                    let i0 = i as int;
                    assert(self.handles()[i0] == *handle);
                    assert(self.handles().contains(*handle));
                    let k = self.handles().index_of(*handle);
                    assert(0 <= k < self.handles().len() && self.handles()[k] == *handle);
                    if k < i0 {
                        assert(self.handles()[k] < self.handles()[i0]);
                    }
                    if k > i0 {
                        assert(self.handles()[i0] < self.handles()[k]);
                    }
                    assert(k == i0);
                }
                return Some(&self.subs[i].1);
            }
            i += 1;
        }
        proof {
            if self.handles().contains(*handle) {
                let k = choose|k: int|
                    0 <= k < self.handles().len() && self.handles()[k] == *handle;
                assert(self.subs@[k].0 == *handle);
                assert(false);
            }
        }
        None
    }

    /// After a fan-out that appended `e` to every registered sink's
    /// observations and to the history, the registry invariant holds again
    /// and handles, join records and registration order are unchanged.
    proof fn lemma_fan_out_wf(&self, pre: Self, e: Event)
        requires
            pre.wf(),
            self.subs@.len() == pre.subs@.len(),
            self.next == pre.next,
            self.joins@ == pre.joins@,
            self.hist@ == pre.hist@.push(e),
            forall|j: int|
                #![trigger self.subs@[j]]
                0 <= j < pre.subs@.len() ==> self.subs@[j].0 == pre.subs@[j].0
                    && self.subs@[j].1.events() == pre.subs@[j].1.events().push(e),
        ensures
            self.wf(),
            self.handles() == pre.handles(),
            forall|i: int|
                0 <= i < pre.sinks().len() ==> #[trigger] self.sinks()[i].events()
                    == pre.sinks()[i].events().push(e),
    {
        assert(self.handles() =~= pre.handles());
        assert forall|a: int| 0 <= a < pre.sinks().len() implies #[trigger] self.sinks()[
            a].events() == pre.sinks()[a].events().push(e) by {
            assert(self.subs@[a].1.events() == pre.subs@[a].1.events().push(e));
        }
        assert forall|a: int, b: int|
            #![trigger self.handles()[a], self.handles()[b]]
            0 <= a < b < self.subs@.len() implies self.handles()[a] < self.handles()[b] by {
            assert(pre.handles()[a] < pre.handles()[b]);
        }
        assert forall|a: int| 0 <= a < self.subs@.len() implies #[trigger] self.handles()[a]
            < self.next by {
            assert(pre.handles()[a] < pre.next);
        }
        assert forall|a: int| 0 <= a < self.subs@.len() implies 0 <= #[trigger] self.join_point(
            a,
        ) <= self.hist@.len() by {
            assert(0 <= pre.join_point(a) <= pre.hist@.len());
        }
        assert forall|a: int| 0 <= a < self.subs@.len() implies #[trigger] self.sinks()[
            a].events() == self.join_events(a) + self.hist@.skip(self.join_point(a)) by {
            let je = pre.join_events(a);
            let jp = pre.join_point(a);
            assert(pre.sinks()[a].events() == je + pre.hist@.skip(jp));
            assert(pre.hist@.push(e).skip(jp) =~= pre.hist@.skip(jp).push(e));
            assert(je + pre.hist@.skip(jp).push(e) =~= (je + pre.hist@.skip(jp)).push(e));
            assert(self.sinks()[a].events() == pre.sinks()[a].events().push(e));
        }
    }

    /// Forward the opening of a transaction to every registered sink, in
    /// registration order. A failing sink stays registered and delivery to
    /// the remaining sinks proceeds; the first failure is returned, so the
    /// result depends on the registered sinks' own behaviour.
    pub fn on_start(&mut self) -> (r: Result<(), S::Err>)
        requires
            old(self).wf(),
        ensures
            final(self).wf(),
            final(self).handles() == old(self).handles(),
            final(self).next_handle() == old(self).next_handle(),
            final(self).history() == old(self).history().push(Event::Start),
            forall|i: int|
                0 <= i < old(self).sinks().len() ==> #[trigger] final(self).sinks()[i].events()
                    == old(self).sinks()[i].events().push(Event::Start),
            final(self).sinks().len() == old(self).sinks().len(),
            final(self).joins() == old(self).joins(),
            Self::outcomes_extended(old(self).sinks(), final(self).sinks()),
            Self::round_result(final(self).sinks(), r),
            Self::all_succeed(old(self).sinks()) ==> r is Ok && Self::all_succeed(
                final(self).sinks(),
            ),
    {
        let n = self.subs.len();
        let mut first_err: Option<S::Err> = None;
        let ghost mut fail_at: int = 0;
        let mut i: usize = 0;
        while i < n
            invariant
                n == self.subs@.len(),
                n == old(self).subs@.len(),
                i <= n,
                self.next == old(self).next,
                self.hist@ == old(self).hist@,
                self.joins@ == old(self).joins@,
                forall|j: int|
                    #![trigger self.subs@[j]]
                    0 <= j < i ==> self.subs@[j].0 == old(self).subs@[j].0
                        && self.subs@[j].1.events() == old(self).subs@[j].1.events().push(
                        Event::Start,
                    ),
                forall|j: int|
                    #![trigger self.subs@[j]]
                    i <= j < n ==> self.subs@[j] == old(self).subs@[j],
                forall|j: int|
                    #![trigger self.subs@[j]]
                    0 <= j < i ==> self.subs@[j].1.outcomes().len() == old(self).subs@[
                        j].1.outcomes().len() + 1 && self.subs@[j].1.outcomes().drop_last() == old(
                        self,
                    ).subs@[j].1.outcomes(),
                first_err is None ==> (forall|j: int|
                    #![trigger self.subs@[j]]
                    0 <= j < i ==> (self.subs@[j].1.outcomes().last() is Ok)),
                first_err matches Some(e) ==> 0 <= fail_at < i && self.subs@[
                    fail_at].1.outcomes().last() == Err::<(), S::Err>(e) && (forall|j: int|
                    #![trigger self.subs@[j]]
                    0 <= j < fail_at ==> (self.subs@[j].1.outcomes().last() is Ok)),
                Self::all_succeed(old(self).sinks()) ==> first_err is None && (forall|j: int|
                    #![trigger self.subs@[j]]
                    0 <= j < i ==> self.subs@[j].1.always_succeeds()),
            decreases n - i,
        {
            let ghost prev = self.subs@;
            let (h, mut s) = self.subs.remove(i);
            let res = s.on_start();
            let ghost hh = h;
            let ghost ss = s;
            self.subs.insert(i, (h, s));
            proof {
                assert(self.subs@ =~= prev.update(i as int, (hh, ss)));
                assert(ss.outcomes() == prev[i as int].1.outcomes().push(res));
                assert(ss.outcomes().drop_last() =~= prev[i as int].1.outcomes());
                assert(ss.outcomes().last() == res);
                if Self::all_succeed(old(self).sinks()) {
                    assert(old(self).sinks()[i as int].always_succeeds());
                    assert(old(self).subs@[i as int].1.always_succeeds());
                }
            }
            if let Err(e) = res {
                if first_err.is_none() {
                    proof {
                        fail_at = i as int;
                    }
                    first_err = Some(e);
                }
            }
            i += 1;
        }
        self.hist = Ghost(self.hist@.push(Event::Start));
        proof {
            self.lemma_fan_out_wf(*old(self), Event::Start);
        }
        let ghost fe = first_err;
        let r = match first_err {
            None => Ok(()),
            Some(e) => Err(e),
        };
        proof {
            let m = old(self).sinks().len() as int;
            assert forall|k: int|
                #![trigger self.sinks()[k]]
                0 <= k < m implies self.sinks()[k].outcomes().len() == old(self).sinks()[
                k].outcomes().len() + 1 && self.sinks()[k].outcomes().drop_last() == old(
                self,
            ).sinks()[k].outcomes() by {
                assert(self.subs@[k].1.outcomes().len() == old(self).subs@[k].1.outcomes().len()
                    + 1);
                assert(self.subs@[k].1.outcomes().drop_last() == old(self).subs@[
                    k].1.outcomes());
            }
            if r is Ok {
                assert forall|k: int| #![trigger self.sinks()[k]] 0 <= k < m implies (self.sinks()[
                    k].outcomes().last() is Ok) by {
                    assert(self.subs@[k].1.outcomes().last() is Ok);
                }
            } else {
                match fe {
                    Some(e) => {
                        assert(r == Err::<(), S::Err>(e));
                        assert(self.sinks()[fail_at].outcomes().last() == Err::<(), S::Err>(e));
                        assert forall|j: int|
                            #![trigger self.sinks()[j]]
                            0 <= j < fail_at implies (self.sinks()[j].outcomes().last()
                            is Ok) by {
                            assert(self.subs@[j].1.outcomes().last() is Ok);
                        }
                    },
                    None => {
                        assert(false);
                    },
                }
            }
            assert(Self::outcomes_extended(old(self).sinks(), self.sinks()));
            assert(Self::round_result(self.sinks(), r));
            if Self::all_succeed(old(self).sinks()) {
                assert(fe is None);
                assert forall|k: int| #![trigger self.sinks()[k]] 0 <= k < m implies self.sinks()[
                    k].always_succeeds() by {
                    assert(self.subs@[k].1.always_succeeds());
                }
            }
        }
        r
    }

    /// Forward one batch of delta operations, unmodified, to every
    /// registered sink in registration order. A failing sink stays
    /// registered and delivery to the remaining sinks proceeds; the first
    /// failure is returned, so the result depends on the registered sinks'
    /// own behaviour.
    pub fn on_updates(&mut self, updates: &Vec<DeltaOp>) -> (r: Result<(), S::Err>)
        requires
            old(self).wf(),
        ensures
            final(self).wf(),
            final(self).handles() == old(self).handles(),
            final(self).next_handle() == old(self).next_handle(),
            final(self).history() == old(self).history().push(Event::Updates(updates@)),
            forall|i: int|
                0 <= i < old(self).sinks().len() ==> #[trigger] final(self).sinks()[i].events()
                    == old(self).sinks()[i].events().push(Event::Updates(updates@)),
            final(self).sinks().len() == old(self).sinks().len(),
            final(self).joins() == old(self).joins(),
            Self::outcomes_extended(old(self).sinks(), final(self).sinks()),
            Self::round_result(final(self).sinks(), r),
            Self::all_succeed(old(self).sinks()) ==> r is Ok && Self::all_succeed(
                final(self).sinks(),
            ),
    {
        let n = self.subs.len();
        let mut first_err: Option<S::Err> = None;
        let ghost mut fail_at: int = 0;
        let mut i: usize = 0;
        while i < n
            invariant
                n == self.subs@.len(),
                n == old(self).subs@.len(),
                i <= n,
                self.next == old(self).next,
                self.hist@ == old(self).hist@,
                self.joins@ == old(self).joins@,
                forall|j: int|
                    #![trigger self.subs@[j]]
                    0 <= j < i ==> self.subs@[j].0 == old(self).subs@[j].0
                        && self.subs@[j].1.events() == old(self).subs@[j].1.events().push(
                        Event::Updates(updates@),
                    ),
                forall|j: int|
                    #![trigger self.subs@[j]]
                    i <= j < n ==> self.subs@[j] == old(self).subs@[j],
                forall|j: int|
                    #![trigger self.subs@[j]]
                    0 <= j < i ==> self.subs@[j].1.outcomes().len() == old(self).subs@[
                        j].1.outcomes().len() + 1 && self.subs@[j].1.outcomes().drop_last() == old(
                        self,
                    ).subs@[j].1.outcomes(),
                first_err is None ==> (forall|j: int|
                    #![trigger self.subs@[j]]
                    0 <= j < i ==> (self.subs@[j].1.outcomes().last() is Ok)),
                first_err matches Some(e) ==> 0 <= fail_at < i && self.subs@[
                    fail_at].1.outcomes().last() == Err::<(), S::Err>(e) && (forall|j: int|
                    #![trigger self.subs@[j]]
                    0 <= j < fail_at ==> (self.subs@[j].1.outcomes().last() is Ok)),
                Self::all_succeed(old(self).sinks()) ==> first_err is None && (forall|j: int|
                    #![trigger self.subs@[j]]
                    0 <= j < i ==> self.subs@[j].1.always_succeeds()),
            decreases n - i,
        {
            let ghost prev = self.subs@;
            let (h, mut s) = self.subs.remove(i);
            let res = s.on_updates(updates);
            let ghost hh = h;
            let ghost ss = s;
            self.subs.insert(i, (h, s));
            proof {
                assert(self.subs@ =~= prev.update(i as int, (hh, ss)));
                assert(ss.outcomes() == prev[i as int].1.outcomes().push(res));
                assert(ss.outcomes().drop_last() =~= prev[i as int].1.outcomes());
                assert(ss.outcomes().last() == res);
                if Self::all_succeed(old(self).sinks()) {
                    assert(old(self).sinks()[i as int].always_succeeds());
                    assert(old(self).subs@[i as int].1.always_succeeds());
                }
            }
            if let Err(e) = res {
                if first_err.is_none() {
                    proof {
                        fail_at = i as int;
                    }
                    first_err = Some(e);
                }
            }
            i += 1;
        }
        self.hist = Ghost(self.hist@.push(Event::Updates(updates@)));
        proof {
            self.lemma_fan_out_wf(*old(self), Event::Updates(updates@));
        }
        let ghost fe = first_err;
        let r = match first_err {
            None => Ok(()),
            Some(e) => Err(e),
        };
        proof {
            let m = old(self).sinks().len() as int;
            assert forall|k: int|
                #![trigger self.sinks()[k]]
                0 <= k < m implies self.sinks()[k].outcomes().len() == old(self).sinks()[
                k].outcomes().len() + 1 && self.sinks()[k].outcomes().drop_last() == old(
                self,
            ).sinks()[k].outcomes() by {
                assert(self.subs@[k].1.outcomes().len() == old(self).subs@[k].1.outcomes().len()
                    + 1);
                assert(self.subs@[k].1.outcomes().drop_last() == old(self).subs@[
                    k].1.outcomes());
            }
            if r is Ok {
                assert forall|k: int| #![trigger self.sinks()[k]] 0 <= k < m implies (self.sinks()[
                    k].outcomes().last() is Ok) by {
                    assert(self.subs@[k].1.outcomes().last() is Ok);
                }
            } else {
                match fe {
                    Some(e) => {
                        assert(r == Err::<(), S::Err>(e));
                        assert(self.sinks()[fail_at].outcomes().last() == Err::<(), S::Err>(e));
                        assert forall|j: int|
                            #![trigger self.sinks()[j]]
                            0 <= j < fail_at implies (self.sinks()[j].outcomes().last()
                            is Ok) by {
                            assert(self.subs@[j].1.outcomes().last() is Ok);
                        }
                    },
                    None => {
                        assert(false);
                    },
                }
            }
            assert(Self::outcomes_extended(old(self).sinks(), self.sinks()));
            assert(Self::round_result(self.sinks(), r));
            if Self::all_succeed(old(self).sinks()) {
                assert(fe is None);
                assert forall|k: int| #![trigger self.sinks()[k]] 0 <= k < m implies self.sinks()[
                    k].always_succeeds() by {
                    assert(self.subs@[k].1.always_succeeds());
                }
            }
        }
        r
    }

    /// Forward the commit of the open transaction to every registered sink,
    /// in registration order. A failing sink stays registered and delivery
    /// to the remaining sinks proceeds; the first failure is returned, so
    /// the result depends on the registered sinks' own behaviour.
    pub fn on_commit(&mut self) -> (r: Result<(), S::Err>)
        requires
            old(self).wf(),
        ensures
            final(self).wf(),
            final(self).handles() == old(self).handles(),
            final(self).next_handle() == old(self).next_handle(),
            final(self).history() == old(self).history().push(Event::Commit),
            forall|i: int|
                0 <= i < old(self).sinks().len() ==> #[trigger] final(self).sinks()[i].events()
                    == old(self).sinks()[i].events().push(Event::Commit),
            final(self).sinks().len() == old(self).sinks().len(),
            final(self).joins() == old(self).joins(),
            Self::outcomes_extended(old(self).sinks(), final(self).sinks()),
            Self::round_result(final(self).sinks(), r),
            Self::all_succeed(old(self).sinks()) ==> r is Ok && Self::all_succeed(
                final(self).sinks(),
            ),
    {
        let n = self.subs.len();
        let mut first_err: Option<S::Err> = None;
        let ghost mut fail_at: int = 0;
        let mut i: usize = 0;
        while i < n
            invariant
                n == self.subs@.len(),
                n == old(self).subs@.len(),
                i <= n,
                self.next == old(self).next,
                self.hist@ == old(self).hist@,
                self.joins@ == old(self).joins@,
                forall|j: int|
                    #![trigger self.subs@[j]]
                    0 <= j < i ==> self.subs@[j].0 == old(self).subs@[j].0
                        && self.subs@[j].1.events() == old(self).subs@[j].1.events().push(
                        Event::Commit,
                    ),
                forall|j: int|
                    #![trigger self.subs@[j]]
                    i <= j < n ==> self.subs@[j] == old(self).subs@[j],
                forall|j: int|
                    #![trigger self.subs@[j]]
                    0 <= j < i ==> self.subs@[j].1.outcomes().len() == old(self).subs@[
                        j].1.outcomes().len() + 1 && self.subs@[j].1.outcomes().drop_last() == old(
                        self,
                    ).subs@[j].1.outcomes(),
                first_err is None ==> (forall|j: int|
                    #![trigger self.subs@[j]]
                    0 <= j < i ==> (self.subs@[j].1.outcomes().last() is Ok)),
                first_err matches Some(e) ==> 0 <= fail_at < i && self.subs@[
                    fail_at].1.outcomes().last() == Err::<(), S::Err>(e) && (forall|j: int|
                    #![trigger self.subs@[j]]
                    0 <= j < fail_at ==> (self.subs@[j].1.outcomes().last() is Ok)),
                Self::all_succeed(old(self).sinks()) ==> first_err is None && (forall|j: int|
                    #![trigger self.subs@[j]]
                    0 <= j < i ==> self.subs@[j].1.always_succeeds()),
            decreases n - i,
        {
            let ghost prev = self.subs@;
            let (h, mut s) = self.subs.remove(i);
            let res = s.on_commit();
            let ghost hh = h;
            let ghost ss = s;
            self.subs.insert(i, (h, s));
            proof {
                assert(self.subs@ =~= prev.update(i as int, (hh, ss)));
                assert(ss.outcomes() == prev[i as int].1.outcomes().push(res));
                assert(ss.outcomes().drop_last() =~= prev[i as int].1.outcomes());
                assert(ss.outcomes().last() == res);
                if Self::all_succeed(old(self).sinks()) {
                    assert(old(self).sinks()[i as int].always_succeeds());
                    assert(old(self).subs@[i as int].1.always_succeeds());
                }
            }
            if let Err(e) = res {
                if first_err.is_none() {
                    proof {
                        fail_at = i as int;
                    }
                    first_err = Some(e);
                }
            }
            i += 1;
        }
        self.hist = Ghost(self.hist@.push(Event::Commit));
        proof {
            self.lemma_fan_out_wf(*old(self), Event::Commit);
        }
        let ghost fe = first_err;
        let r = match first_err {
            None => Ok(()),
            Some(e) => Err(e),
        };
        proof {
            let m = old(self).sinks().len() as int;
            assert forall|k: int|
                #![trigger self.sinks()[k]]
                0 <= k < m implies self.sinks()[k].outcomes().len() == old(self).sinks()[
                k].outcomes().len() + 1 && self.sinks()[k].outcomes().drop_last() == old(
                self,
            ).sinks()[k].outcomes() by {
                assert(self.subs@[k].1.outcomes().len() == old(self).subs@[k].1.outcomes().len()
                    + 1);
                assert(self.subs@[k].1.outcomes().drop_last() == old(self).subs@[
                    k].1.outcomes());
            }
            if r is Ok {
                assert forall|k: int| #![trigger self.sinks()[k]] 0 <= k < m implies (self.sinks()[
                    k].outcomes().last() is Ok) by {
                    assert(self.subs@[k].1.outcomes().last() is Ok);
                }
            } else {
                match fe {
                    Some(e) => {
                        assert(r == Err::<(), S::Err>(e));
                        assert(self.sinks()[fail_at].outcomes().last() == Err::<(), S::Err>(e));
                        assert forall|j: int|
                            #![trigger self.sinks()[j]]
                            0 <= j < fail_at implies (self.sinks()[j].outcomes().last()
                            is Ok) by {
                            assert(self.subs@[j].1.outcomes().last() is Ok);
                        }
                    },
                    None => {
                        assert(false);
                    },
                }
            }
            assert(Self::outcomes_extended(old(self).sinks(), self.sinks()));
            assert(Self::round_result(self.sinks(), r));
            if Self::all_succeed(old(self).sinks()) {
                assert(fe is None);
                assert forall|k: int| #![trigger self.sinks()[k]] 0 <= k < m implies self.sinks()[
                    k].always_succeeds() by {
                    assert(self.subs@[k].1.always_succeeds());
                }
            }
        }
        r
    }

    /// Forward the terminal completion signal to every registered sink, in
    /// registration order. Subscribers stay registered: entries are removed
    /// only by `unsubscribe`. A failing sink does not stop delivery; the
    /// first failure is returned, so the result depends on the registered
    /// sinks' own behaviour.
    pub fn on_completed(&mut self) -> (r: Result<(), S::Err>)
        requires
            old(self).wf(),
        ensures
            final(self).wf(),
            final(self).handles() == old(self).handles(),
            final(self).next_handle() == old(self).next_handle(),
            final(self).history() == old(self).history().push(Event::Complete),
            forall|i: int|
                0 <= i < old(self).sinks().len() ==> #[trigger] final(self).sinks()[i].events()
                    == old(self).sinks()[i].events().push(Event::Complete),
            final(self).sinks().len() == old(self).sinks().len(),
            final(self).joins() == old(self).joins(),
            Self::outcomes_extended(old(self).sinks(), final(self).sinks()),
            Self::round_result(final(self).sinks(), r),
            Self::all_succeed(old(self).sinks()) ==> r is Ok && Self::all_succeed(
                final(self).sinks(),
            ),
    {
        let n = self.subs.len();
        let mut first_err: Option<S::Err> = None;
        let ghost mut fail_at: int = 0;
        let mut i: usize = 0;
        while i < n
            invariant
                n == self.subs@.len(),
                n == old(self).subs@.len(),
                i <= n,
                self.next == old(self).next,
                self.hist@ == old(self).hist@,
                self.joins@ == old(self).joins@,
                forall|j: int|
                    #![trigger self.subs@[j]]
                    0 <= j < i ==> self.subs@[j].0 == old(self).subs@[j].0
                        && self.subs@[j].1.events() == old(self).subs@[j].1.events().push(
                        Event::Complete,
                    ),
                forall|j: int|
                    #![trigger self.subs@[j]]
                    i <= j < n ==> self.subs@[j] == old(self).subs@[j],
                forall|j: int|
                    #![trigger self.subs@[j]]
                    0 <= j < i ==> self.subs@[j].1.outcomes().len() == old(self).subs@[
                        j].1.outcomes().len() + 1 && self.subs@[j].1.outcomes().drop_last() == old(
                        self,
                    ).subs@[j].1.outcomes(),
                first_err is None ==> (forall|j: int|
                    #![trigger self.subs@[j]]
                    0 <= j < i ==> (self.subs@[j].1.outcomes().last() is Ok)),
                first_err matches Some(e) ==> 0 <= fail_at < i && self.subs@[
                    fail_at].1.outcomes().last() == Err::<(), S::Err>(e) && (forall|j: int|
                    #![trigger self.subs@[j]]
                    0 <= j < fail_at ==> (self.subs@[j].1.outcomes().last() is Ok)),
                Self::all_succeed(old(self).sinks()) ==> first_err is None && (forall|j: int|
                    #![trigger self.subs@[j]]
                    0 <= j < i ==> self.subs@[j].1.always_succeeds()),
            decreases n - i,
        {
            let ghost prev = self.subs@;
            let (h, mut s) = self.subs.remove(i);
            let res = s.on_completed();
            let ghost hh = h;
            let ghost ss = s;
            self.subs.insert(i, (h, s));
            proof {
                assert(self.subs@ =~= prev.update(i as int, (hh, ss)));
                assert(ss.outcomes() == prev[i as int].1.outcomes().push(res));
                assert(ss.outcomes().drop_last() =~= prev[i as int].1.outcomes());
                assert(ss.outcomes().last() == res);
                if Self::all_succeed(old(self).sinks()) {
                    assert(old(self).sinks()[i as int].always_succeeds());
                    assert(old(self).subs@[i as int].1.always_succeeds());
                }
            }
            if let Err(e) = res {
                if first_err.is_none() {
                    proof {
                        fail_at = i as int;
                    }
                    first_err = Some(e);
                }
            }
            i += 1;
        }
        self.hist = Ghost(self.hist@.push(Event::Complete));
        proof {
            self.lemma_fan_out_wf(*old(self), Event::Complete);
        }
        let ghost fe = first_err;
        let r = match first_err {
            None => Ok(()),
            Some(e) => Err(e),
        };
        proof {
            let m = old(self).sinks().len() as int;
            assert forall|k: int|
                #![trigger self.sinks()[k]]
                0 <= k < m implies self.sinks()[k].outcomes().len() == old(self).sinks()[
                k].outcomes().len() + 1 && self.sinks()[k].outcomes().drop_last() == old(
                self,
            ).sinks()[k].outcomes() by {
                assert(self.subs@[k].1.outcomes().len() == old(self).subs@[k].1.outcomes().len()
                    + 1);
                assert(self.subs@[k].1.outcomes().drop_last() == old(self).subs@[
                    k].1.outcomes());
            }
            if r is Ok {
                assert forall|k: int| #![trigger self.sinks()[k]] 0 <= k < m implies (self.sinks()[
                    k].outcomes().last() is Ok) by {
                    assert(self.subs@[k].1.outcomes().last() is Ok);
                }
            } else {
                match fe {
                    Some(e) => {
                        assert(r == Err::<(), S::Err>(e));
                        assert(self.sinks()[fail_at].outcomes().last() == Err::<(), S::Err>(e));
                        assert forall|j: int|
                            #![trigger self.sinks()[j]]
                            0 <= j < fail_at implies (self.sinks()[j].outcomes().last()
                            is Ok) by {
                            assert(self.subs@[j].1.outcomes().last() is Ok);
                        }
                    },
                    None => {
                        assert(false);
                    },
                }
            }
            assert(Self::outcomes_extended(old(self).sinks(), self.sinks()));
            assert(Self::round_result(self.sinks(), r));
            if Self::all_succeed(old(self).sinks()) {
                assert(fe is None);
                assert forall|k: int| #![trigger self.sinks()[k]] 0 <= k < m implies self.sinks()[
                    k].always_succeeds() by {
                    assert(self.subs@[k].1.always_succeeds());
                }
            }
        }
        r
    }
}

} // verus!
