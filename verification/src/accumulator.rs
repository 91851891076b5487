//! The composite accumulator: simultaneously a sink accepting the upstream
//! delta stream and a source offering subscription.
//!
//! It owns a [`DeltaStore`] holding the materialized snapshot and a
//! [`TxnDistributor`] fanning the live stream out to subscribers. On top of
//! plain delegation it adds the two synthetic transactions: a subscriber
//! joining through [`DistributingAccumulator::subscribe`] first receives a
//! catch-up transaction replaying the snapshot, and stream completion is
//! translated into a tear-down transaction deleting the whole snapshot
//! before the terminal signal is forwarded.
//!
//! The exclusive borrow a caller needs for every operation plays the role of
//! the single lock of a shared deployment: no update can run between a
//! snapshot read and a registration, because one `&mut` call spans both.
//! Upstream lifecycle calls are expected to arrive strictly sequentially
//! from a single producer.

use vstd::prelude::*;

use crate::delta::{
    apply_ops, is_delete_batch, is_insert_batch, lemma_apply_ops_concat, lemma_apply_ops_push,
    lemma_delete_batch_clears, DeltaOp, RelId,
};
use crate::distributor::TxnDistributor;
use crate::sink::{Event, Sink};
use crate::store::{DeltaStore, Snapshot};

verus! {

/// The delta operations carried by one observed event: the payload of an
/// updates event, nothing for the control signals.
pub open spec fn event_ops(e: Event) -> Seq<DeltaOp> {
    match e {
        Event::Updates(ops) => ops,
        _ => Seq::<DeltaOp>::empty(),
    }
}

/// Every delta operation carried by a sequence of events, in delivery order.
pub open spec fn updates_of(events: Seq<Event>) -> Seq<DeltaOp>
    decreases events.len(),
{
    if events.len() == 0 {
        Seq::<DeltaOp>::empty()
    } else {
        updates_of(events.drop_last()) + event_ops(events.last())
    }
}

/// One more event at the end of a history contributes exactly its payload.
pub proof fn lemma_updates_of_push(h: Seq<Event>, e: Event)
    ensures
        updates_of(h.push(e)) == updates_of(h) + event_ops(e),
{
    assert(h.push(e).drop_last() =~= h);
    assert(h.push(e).last() == e);
}

/// The events of one complete transaction carrying the single batch `ops`.
pub open spec fn txn_events(ops: Seq<DeltaOp>) -> Seq<Event> {
    seq![Event::Start, Event::Updates(ops), Event::Commit]
}

/// Catch-up exactness: relates what a directly subscribing sink had observed
/// before registration (`pre`) to what it has observed after (`post`), given
/// the accumulated state `s` at registration. An empty state is not replayed
/// at all; a non-empty state is replayed as one complete transaction whose
/// single batch inserts every pair of `s` exactly once, in some order.
pub open spec fn caught_up(pre: Seq<Event>, post: Seq<Event>, s: Set<(RelId, usize)>) -> bool {
    if s == Set::<(RelId, usize)>::empty() {
        post == pre
    } else {
        exists|ops: Seq<DeltaOp>| #[trigger] is_insert_batch(ops, s) && post == pre + txn_events(
            ops,
        )
    }
}

/// The accumulator: applies every operation of the upstream stream to its
/// store, fans the identical stream out to all subscribers, replays the
/// snapshot to late subscribers and deletes it on completion.
pub struct DistributingAccumulator<S> {
    /// The materialized per-relation state.
    store: DeltaStore,
    /// The fan-out registry for all subscribers.
    distributor: TxnDistributor<S>,
}

impl<S: Sink> DistributingAccumulator<S> {
    /// The distributor holding the subscriber registry.
    pub closed spec fn dist(&self) -> TxnDistributor<S> {
        self.distributor
    }

    /// The accumulated state: the set of `(relation, value)` pairs present.
    pub closed spec fn state(&self) -> Set<(RelId, usize)> {
        self.store@
    }

    /// The handles of the registered subscribers, in registration order.
    pub open spec fn handles(&self) -> Seq<usize> {
        self.dist().handles()
    }

    /// The registered subscribers, in registration order.
    pub open spec fn sinks(&self) -> Seq<S> {
        self.dist().sinks()
    }

    /// Every event fanned out to subscribers so far, in order.
    pub open spec fn history(&self) -> Seq<Event> {
        self.dist().history()
    }

    /// Whether a fresh subscription handle can still be assigned.
    pub open spec fn handles_available(&self) -> bool {
        self.dist().handles_available()
    }

    /// Well-formedness: both components are well-formed, and the
    /// accumulated state is exactly the fold of every update batch fanned
    /// out so far, applied in delivery order starting from empty.
    pub closed spec fn wf(&self) -> bool {
        &&& self.store.wf()
        &&& self.distributor.wf()
        &&& self.store@ == apply_ops(
            Set::<(RelId, usize)>::empty(),
            updates_of(self.distributor.history()),
        )
    }

    /// Snapshot correctness: the accumulated state equals the fold of all
    /// delivered operations in delivery order, starting from empty, however
    /// the stream was grouped into transactions.
    pub proof fn lemma_state_is_fold_of_history(&self)
        requires
            self.wf(),
        ensures
            self.state() == apply_ops(Set::<(RelId, usize)>::empty(), updates_of(self.history())),
    {
    }

    /// Fan-out equivalence: two subscribers that joined at the same point
    /// of the stream observe identical call sequences from then on.
    pub proof fn lemma_fan_out_equivalence(&self, i: int, j: int)
        requires
            self.wf(),
            0 <= i < self.sinks().len(),
            0 <= j < self.sinks().len(),
            self.dist().join_point(i) == self.dist().join_point(j),
        ensures
            self.dist().received(i) == self.dist().received(j),
    {
        self.dist().lemma_fan_out_equivalence(i, j);
    }

    /// The registry never holds one handle twice.
    pub proof fn lemma_handles_no_duplicates(&self)
        requires
            self.wf(),
        ensures
            self.handles().no_duplicates(),
    {
        self.dist().lemma_handles_no_duplicates();
    }

    /// An accumulator with empty state and no subscribers.
    pub fn new() -> (r: Self)
        ensures
            r.wf(),
            r.state() == Set::<(RelId, usize)>::empty(),
            r.handles() == Seq::<usize>::empty(),
            r.sinks() == Seq::<S>::empty(),
            r.history() == Seq::<Event>::empty(),
            r.dist().next_handle() == 0,
    {
        let r = DistributingAccumulator {
            store: DeltaStore::new(),
            distributor: TxnDistributor::new(),
        };
        proof {
            assert(updates_of(r.distributor.history()) =~= Seq::<DeltaOp>::empty());
        }
        r
    }

    /// The current accumulated state, as an immutable snapshot. Safe to call
    /// at any time between lifecycle calls.
    pub fn get_current_state(&self) -> (r: Snapshot)
        requires
            self.wf(),
        ensures
            r.wf(),
            r@ == self.state(),
    {
        self.store.snapshot()
    }

    /// Forward the opening of a transaction to every subscriber. No state
    /// mutation; the first subscriber failure is reported, delivery still
    /// reaches every subscriber.
    pub fn on_start(&mut self) -> (r: Result<(), S::Err>)
        requires
            old(self).wf(),
        ensures
            final(self).wf(),
            final(self).state() == old(self).state(),
            final(self).handles() == old(self).handles(),
            final(self).history() == old(self).history().push(Event::Start),
            final(self).dist().next_handle() == old(self).dist().next_handle(),
            final(self).sinks().len() == old(self).sinks().len(),
            TxnDistributor::<S>::outcomes_extended(old(self).sinks(), final(self).sinks()),
            TxnDistributor::<S>::round_result(final(self).sinks(), r),
            TxnDistributor::<S>::all_succeed(old(self).sinks()) ==> r is Ok
                && TxnDistributor::<S>::all_succeed(final(self).sinks()),
            forall|i: int|
                0 <= i < old(self).sinks().len() ==> #[trigger] final(self).sinks()[i].events()
                    == old(self).sinks()[i].events().push(Event::Start),
            final(self).dist().joins() == old(self).dist().joins(),
    {
        let r = self.distributor.on_start();
        proof {
            lemma_updates_of_push(old(self).distributor.history(), Event::Start);
            assert(updates_of(old(self).distributor.history()) + Seq::<DeltaOp>::empty()
                =~= updates_of(old(self).distributor.history()));
        }
        r
    }

    /// Forward the commit of the open transaction to every subscriber.
    /// Commit carries no state mutation: it is a pure boundary signal.
    pub fn on_commit(&mut self) -> (r: Result<(), S::Err>)
        requires
            old(self).wf(),
        ensures
            final(self).wf(),
            final(self).state() == old(self).state(),
            final(self).handles() == old(self).handles(),
            final(self).history() == old(self).history().push(Event::Commit),
            final(self).dist().next_handle() == old(self).dist().next_handle(),
            final(self).sinks().len() == old(self).sinks().len(),
            TxnDistributor::<S>::outcomes_extended(old(self).sinks(), final(self).sinks()),
            TxnDistributor::<S>::round_result(final(self).sinks(), r),
            TxnDistributor::<S>::all_succeed(old(self).sinks()) ==> r is Ok
                && TxnDistributor::<S>::all_succeed(final(self).sinks()),
            forall|i: int|
                0 <= i < old(self).sinks().len() ==> #[trigger] final(self).sinks()[i].events()
                    == old(self).sinks()[i].events().push(Event::Commit),
            final(self).dist().joins() == old(self).dist().joins(),
    {
        let r = self.distributor.on_commit();
        proof {
            lemma_updates_of_push(old(self).distributor.history(), Event::Commit);
            assert(updates_of(old(self).distributor.history()) + Seq::<DeltaOp>::empty()
                =~= updates_of(old(self).distributor.history()));
        }
        r
    }

    /// Apply every operation of the batch to the accumulated state, in
    /// order and immediately, then forward the identical batch to every
    /// subscriber. The first subscriber failure is reported; the state
    /// mutation and full delivery happen regardless.
    pub fn on_updates(&mut self, updates: &Vec<DeltaOp>) -> (r: Result<(), S::Err>)
        requires
            old(self).wf(),
        ensures
            final(self).wf(),
            final(self).state() == apply_ops(old(self).state(), updates@),
            final(self).handles() == old(self).handles(),
            final(self).history() == old(self).history().push(Event::Updates(updates@)),
            final(self).dist().next_handle() == old(self).dist().next_handle(),
            final(self).sinks().len() == old(self).sinks().len(),
            TxnDistributor::<S>::outcomes_extended(old(self).sinks(), final(self).sinks()),
            TxnDistributor::<S>::round_result(final(self).sinks(), r),
            TxnDistributor::<S>::all_succeed(old(self).sinks()) ==> r is Ok
                && TxnDistributor::<S>::all_succeed(final(self).sinks()),
            forall|i: int|
                0 <= i < old(self).sinks().len() ==> #[trigger] final(self).sinks()[i].events()
                    == old(self).sinks()[i].events().push(Event::Updates(updates@)),
            final(self).dist().joins() == old(self).dist().joins(),
    {
        proof {
            assert(updates@.take(0) =~= Seq::<DeltaOp>::empty());
        }
        let mut i: usize = 0;
        while i < updates.len()
            invariant
                i <= updates@.len(),
                self.store.wf(),
                self.store@ == apply_ops(old(self).store@, updates@.take(i as int)),
                self.distributor == old(self).distributor,
            decreases updates@.len() - i,
        {
            let op = updates[i];
            self.store.apply(op);
            proof {
                assert(updates@.take(i as int).push(op) =~= updates@.take(i + 1));
                lemma_apply_ops_push(old(self).store@, updates@.take(i as int), op);
            }
            i += 1;
        }
        proof {
            assert(updates@.take(updates@.len() as int) =~= updates@);
        }
        let r = self.distributor.on_updates(updates);
        proof {
            lemma_updates_of_push(old(self).distributor.history(), Event::Updates(updates@));
            lemma_apply_ops_concat(
                Set::<(RelId, usize)>::empty(),
                updates_of(old(self).distributor.history()),
                updates@,
            );
        }
        r
    }

    /// Register a subscriber with catch-up: if the accumulated state is
    /// non-empty, the sink first receives one synthetic transaction holding
    /// an insert for every present pair — delivered before registration, so
    /// it cannot arrive twice — and only then is registered. A sink
    /// registered this way observes the equivalent of having listened since
    /// the beginning. Registration itself never fails; the handle space is
    /// bounded only by the machine.
    pub fn subscribe(&mut self, sink: S) -> (r: Result<usize, S>)
        requires
            old(self).wf(),
            old(self).handles_available(),
        ensures
            final(self).wf(),
            final(self).state() == old(self).state(),
            final(self).history() == old(self).history(),
            r matches Ok(h) && ({
                &&& h == old(self).dist().next_handle()
                &&& !old(self).handles().contains(h)
                &&& final(self).dist().next_handle() == old(self).dist().next_handle() + 1
                &&& final(self).handles() == old(self).handles().push(h)
                &&& final(self).sinks().len() == old(self).sinks().len() + 1
                &&& final(self).sinks().drop_last() == old(self).sinks()
                &&& caught_up(
                    sink.events(),
                    final(self).sinks().last().events(),
                    old(self).state(),
                )
                &&& final(self).dist().join_point(old(self).sinks().len() as int) == old(
                    self,
                ).history().len()
                &&& forall|i: int|
                    0 <= i < old(self).sinks().len() ==> #[trigger] final(self).sinks()[i] == old(
                        self,
                    ).sinks()[i]
            }),
            (TxnDistributor::<S>::all_succeed(old(self).sinks()) && sink.always_succeeds()
                ==> TxnDistributor::<S>::all_succeed(final(self).sinks())),
    {
        let mut sink = sink;
        let ghost pre_events = sink.events();
        let ghost mut catch_ops: Seq<DeltaOp> = Seq::<DeltaOp>::empty();
        let snap = self.store.snapshot();
        if !snap.is_empty() {
            let ops = snap.insert_ops();
            // Synthetic catch-up: each result is deliberately discarded. A
            // failing subscriber must neither abort its own catch-up nor
            // prevent its registration.
            let _ = sink.on_start();
            let _ = sink.on_updates(&ops);
            let _ = sink.on_commit();
            proof {
                catch_ops = ops@;
                assert(sink.events() =~= pre_events + txn_events(catch_ops));
                assert(is_insert_batch(catch_ops, old(self).state()));
            }
        }
        let r = self.distributor.subscribe(sink);
        proof {
            assert(self.sinks().drop_last() =~= old(self).sinks());
            if old(self).state() == Set::<(RelId, usize)>::empty() {
                assert(self.sinks().last().events() == pre_events);
            } else {
                assert(self.sinks().last().events() == pre_events + txn_events(catch_ops));
            }
            assert forall|i: int| 0 <= i < old(self).sinks().len() implies #[trigger] self.sinks()[
                i] == old(self).sinks()[i] by {
            }
        }
        r
    }

    /// Remove and return the subscriber registered under `handle`, if any,
    /// handing its ownership back to the caller. Idempotent: a second call
    /// with the same handle returns `None`.
    pub fn unsubscribe(&mut self, handle: &usize) -> (r: Option<S>)
        requires
            old(self).wf(),
        ensures
            final(self).wf(),
            final(self).state() == old(self).state(),
            final(self).history() == old(self).history(),
            final(self).dist().next_handle() == old(self).dist().next_handle(),
            (TxnDistributor::<S>::all_succeed(old(self).sinks()) ==> TxnDistributor::<S>::all_succeed(
                final(self).sinks(),
            )),
            old(self).handles().contains(*handle) ==> ({
                let i = old(self).handles().index_of(*handle);
                &&& r == Some(old(self).sinks()[i])
                &&& final(self).handles() == old(self).handles().remove(i)
                &&& final(self).sinks() == old(self).sinks().remove(i)
            }),
            !old(self).handles().contains(*handle) ==> r is None && *final(self) == *old(self),
    {
        self.distributor.unsubscribe(handle)
    }

    /// The subscriber registered under `handle`, if any, for inspection.
    pub fn get_sink(&self, handle: &usize) -> (r: Option<&S>)
        requires
            self.wf(),
        ensures
            self.handles().contains(*handle) ==> (r matches Some(s) && *s == self.sinks()[
                self.handles().index_of(*handle)]),
            !self.handles().contains(*handle) ==> r is None,
    {
        self.distributor.get_sink(handle)
    }

    /// The bare fan-out surface: a handle to the raw distributor, bypassing
    /// catch-up. A sink registered through it receives no replay of
    /// previously committed state — only calls fanned out strictly after its
    /// registration. As long as the borrow only subscribes, unsubscribes or
    /// inspects — which leaves the fan-out history unchanged — the
    /// accumulator is well-formed again once the borrow ends.
    pub fn create_observable(&mut self) -> (r: &mut TxnDistributor<S>)
        requires
            old(self).wf(),
        ensures
            *r == old(self).dist(),
            (*r).wf(),
            final(self).dist() == *final(r),
            final(self).state() == old(self).state(),
            ((*final(r)).wf() && (*final(r)).history() == old(self).dist().history())
                ==> final(self).wf(),
    {
        &mut self.distributor
    }

    /// Translate stream completion into tear-down: if the accumulated state
    /// is non-empty, every currently registered subscriber first receives
    /// one synthetic transaction deleting every present pair, clearing its
    /// replicated view; then the store is cleared and a single terminal
    /// completion signal is forwarded to every subscriber. Afterwards the
    /// accumulated state is empty. Failures during the synthetic transaction
    /// are deliberately not propagated; the terminal signal's first failure
    /// is reported.
    pub fn on_completed(&mut self) -> (r: Result<(), S::Err>)
        requires
            old(self).wf(),
        ensures
            final(self).wf(),
            final(self).state() == Set::<(RelId, usize)>::empty(),
            final(self).handles() == old(self).handles(),
            final(self).dist().next_handle() == old(self).dist().next_handle(),
            final(self).sinks().len() == old(self).sinks().len(),
            final(self).dist().joins() == old(self).dist().joins(),
            TxnDistributor::<S>::round_result(final(self).sinks(), r),
            TxnDistributor::<S>::all_succeed(old(self).sinks()) ==> r is Ok
                && TxnDistributor::<S>::all_succeed(final(self).sinks()),
            old(self).state() == Set::<(RelId, usize)>::empty() ==> final(self).history() == old(
                self,
            ).history().push(Event::Complete) && forall|i: int|
                0 <= i < old(self).sinks().len() ==> #[trigger] final(self).sinks()[i].events()
                    == old(self).sinks()[i].events().push(Event::Complete),
            old(self).state() != Set::<(RelId, usize)>::empty() ==> (exists|ops: Seq<DeltaOp>|
                #[trigger] is_delete_batch(ops, old(self).state()) && final(self).history() == old(
                    self,
                ).history() + txn_events(ops).push(Event::Complete) && forall|i: int|
                    0 <= i < old(self).sinks().len() ==> #[trigger] final(self).sinks()[i].events()
                        == old(self).sinks()[i].events() + txn_events(ops).push(Event::Complete)),
    {
        let ghost n = old(self).sinks().len() as int;
        let snap = self.store.snapshot();
        let empty = snap.is_empty();
        let ghost mut del_ops: Seq<DeltaOp> = Seq::<DeltaOp>::empty();
        let ghost mut d1 = self.distributor;
        let ghost mut d2 = self.distributor;
        if !empty {
            let ops = snap.delete_ops();
            proof {
                del_ops = ops@;
            }
            // Synthetic tear-down: each result is deliberately discarded. A
            // failing subscriber must not keep the others from having their
            // replicated state cleared, nor prevent completion.
            let _ = self.distributor.on_start();
            proof {
                d1 = self.distributor;
            }
            let _ = self.distributor.on_updates(&ops);
            proof {
                d2 = self.distributor;
            }
            let _ = self.distributor.on_commit();
        }
        let ghost d3 = self.distributor;
        self.store.clear();
        let r = self.distributor.on_completed();
        proof {
            if !empty {
                assert forall|i: int| 0 <= i < n implies #[trigger] self.distributor.sinks()[
                    i].events() == old(self).sinks()[i].events() + txn_events(del_ops).push(
                    Event::Complete,
                ) by {
                    assert(self.distributor.sinks()[i].events() == d3.sinks()[i].events().push(
                        Event::Complete,
                    ));
                    assert(old(self).sinks()[i].events().push(Event::Start).push(
                        Event::Updates(del_ops),
                    ).push(Event::Commit).push(Event::Complete) =~= old(self).sinks()[i].events()
                        + txn_events(del_ops).push(Event::Complete));
                }
                assert(self.distributor.history() =~= old(self).history() + txn_events(
                    del_ops,
                ).push(Event::Complete));
                lemma_updates_of_push(old(self).distributor.history(), Event::Start);
                lemma_updates_of_push(d1.history(), Event::Updates(del_ops));
                lemma_updates_of_push(d2.history(), Event::Commit);
                lemma_updates_of_push(d3.history(), Event::Complete);
                let u0 = updates_of(old(self).distributor.history());
                assert(updates_of(self.distributor.history()) =~= u0 + del_ops);
                lemma_apply_ops_concat(Set::<(RelId, usize)>::empty(), u0, del_ops);
                old(self).store.lemma_finite();
                lemma_delete_batch_clears(old(self).store@, del_ops);
                assert(is_delete_batch(del_ops, old(self).state()));
            } else {
                lemma_updates_of_push(d3.history(), Event::Complete);
                assert(updates_of(self.distributor.history()) =~= updates_of(
                    old(self).distributor.history(),
                ));
            }
        }
        r
    }
}

} // verus!
