//! The sink capability: the lifecycle interface every downstream subscriber
//! implements, together with an in-memory recording sink.
//!
//! A sink's behaviour is specified through the sequence of lifecycle calls it
//! has observed, modelled by [`Event`]. Every implementation promises to
//! append exactly the call it received to that observation history, and to
//! record the outcome it reported for it; whether a call succeeds is the
//! implementation's own business, but the recorded outcomes let a caller's
//! contract say exactly how a fan-out round's result was reached.

use vstd::prelude::*;

use crate::delta::DeltaOp;

verus! {

/// One lifecycle call as a subscriber observes it (specification-level).
pub enum Event {
    /// A transaction was opened.
    Start,
    /// A batch of delta operations was delivered.
    Updates(Seq<DeltaOp>),
    /// The open transaction was committed.
    Commit,
    /// The stream terminated.
    Complete,
}

/// The lifecycle interface of a downstream subscriber. Calls arrive in a
/// well-formed sequence: zero or more complete `(Start, Updates*, Commit)`
/// transactions, optionally followed by a single terminal `Complete`.
///
/// Each method records the call it received in the sink's observation
/// history and reports success or an implementation-defined error; a failure
/// never un-records the call.
pub trait Sink: Sized {
    /// The implementation-defined error kind reported by lifecycle calls.
    type Err;

    /// The complete sequence of lifecycle calls this sink has observed.
    spec fn events(&self) -> Seq<Event>;

    /// The outcome the sink reported for each observed call, aligned with
    /// `events()`.
    spec fn outcomes(&self) -> Seq<Result<(), Self::Err>>;

    /// Whether this sink is known to report success for every future call.
    /// An implementation that cannot promise that defines it as `false`.
    spec fn always_succeeds(&self) -> bool;

    /// Observe the opening of a transaction.
    fn on_start(&mut self) -> (r: Result<(), Self::Err>)
        ensures
            final(self).events() == old(self).events().push(Event::Start),
            final(self).outcomes() == old(self).outcomes().push(r),
            old(self).always_succeeds() ==> r is Ok && final(self).always_succeeds(),
    ;

    /// Observe one batch of delta operations, in delivery order.
    fn on_updates(&mut self, updates: &Vec<DeltaOp>) -> (r: Result<(), Self::Err>)
        ensures
            final(self).events() == old(self).events().push(Event::Updates(updates@)),
            final(self).outcomes() == old(self).outcomes().push(r),
            old(self).always_succeeds() ==> r is Ok && final(self).always_succeeds(),
    ;

    /// Observe the commit of the open transaction.
    fn on_commit(&mut self) -> (r: Result<(), Self::Err>)
        ensures
            final(self).events() == old(self).events().push(Event::Commit),
            final(self).outcomes() == old(self).outcomes().push(r),
            old(self).always_succeeds() ==> r is Ok && final(self).always_succeeds(),
    ;

    /// Observe the termination of the stream.
    fn on_completed(&mut self) -> (r: Result<(), Self::Err>)
        ensures
            final(self).events() == old(self).events().push(Event::Complete),
            final(self).outcomes() == old(self).outcomes().push(r),
            old(self).always_succeeds() ==> r is Ok && final(self).always_succeeds(),
    ;
}

/// One lifecycle call as recorded in memory by a [`RecordingSink`].
#[derive(Clone, PartialEq, Eq, Debug)]
pub enum RecEvent {
    Start,
    Updates(Vec<DeltaOp>),
    Commit,
    Complete,
}

impl View for RecEvent {
    type V = Event;

    open spec fn view(&self) -> Event {
        match self {
            RecEvent::Start => Event::Start,
            RecEvent::Updates(ops) => Event::Updates(ops@),
            RecEvent::Commit => Event::Commit,
            RecEvent::Complete => Event::Complete,
        }
    }
}

/// A sink that stores every lifecycle call it receives and reports, for
/// every call, the fixed outcome it was built with: success from [`new`],
/// failure from [`failing`]. It stands in for an arbitrary downstream
/// consumer in tests and lets a caller inspect exactly what was delivered.
///
/// [`new`]: RecordingSink::new
/// [`failing`]: RecordingSink::failing
#[derive(Debug)]
pub struct RecordingSink {
    log: Vec<RecEvent>,
    fail: bool,
}

impl RecordingSink {
    /// Whether every call reports failure instead of success.
    pub closed spec fn fails(&self) -> bool {
        self.fail
    }

    /// The fixed outcome this sink reports for every call.
    pub open spec fn outcome(&self) -> Result<(), ()> {
        if self.fails() {
            Err(())
        } else {
            Ok(())
        }
    }

    /// A sink that has observed nothing yet and reports success for every
    /// call.
    pub fn new() -> (r: Self)
        ensures
            r.events() == Seq::<Event>::empty(),
            r.outcomes() == Seq::<Result<(), ()>>::empty(),
            !r.fails(),
    {
        let r = RecordingSink { log: Vec::new(), fail: false };
        proof {
            assert(r.events() =~= Seq::<Event>::empty());
            assert(r.outcomes() =~= Seq::<Result<(), ()>>::empty());
        }
        r
    }

    /// A sink that has observed nothing yet and reports failure for every
    /// call, while still recording it; it stands in for a misbehaving
    /// subscriber.
    pub fn failing() -> (r: Self)
        ensures
            r.events() == Seq::<Event>::empty(),
            r.outcomes() == Seq::<Result<(), ()>>::empty(),
            r.fails(),
    {
        let r = RecordingSink { log: Vec::new(), fail: true };
        proof {
            assert(r.events() =~= Seq::<Event>::empty());
            assert(r.outcomes() =~= Seq::<Result<(), ()>>::empty());
        }
        r
    }

    /// Every recorded call, in the order received.
    pub fn received(&self) -> (r: &Vec<RecEvent>)
        ensures
            r@.map_values(|e: RecEvent| e@) == self.events(),
    {
        &self.log
    }

    /// Recording one more call appends its event to the observed history.
    proof fn lemma_log_push(pre: Seq<RecEvent>, e: RecEvent)
        ensures
            pre.push(e).map_values(|x: RecEvent| x@) == pre.map_values(|x: RecEvent| x@).push(e@),
    {
        assert(pre.push(e).map_values(|x: RecEvent| x@) =~= pre.map_values(
            |x: RecEvent| x@,
        ).push(e@));
    }
}

impl Sink for RecordingSink {
    type Err = ();

    closed spec fn events(&self) -> Seq<Event> {
        self.log@.map_values(|e: RecEvent| e@)
    }

    closed spec fn outcomes(&self) -> Seq<Result<(), ()>> {
        Seq::new(self.log@.len(), |i: int| self.outcome())
    }

    open spec fn always_succeeds(&self) -> bool {
        !self.fails()
    }

    fn on_start(&mut self) -> (r: Result<(), ()>) {
        proof {
            Self::lemma_log_push(self.log@, RecEvent::Start);
        }
        self.log.push(RecEvent::Start);
        proof {
            assert(self.outcomes() =~= old(self).outcomes().push(self.outcome()));
        }
        if self.fail {
            Err(())
        } else {
            Ok(())
        }
    }

    fn on_updates(&mut self, updates: &Vec<DeltaOp>) -> (r: Result<(), ()>) {
        let mut ops: Vec<DeltaOp> = Vec::new();
        let mut i: usize = 0;
        while i < updates.len()
            invariant
                i <= updates@.len(),
                ops@ == updates@.subrange(0, i as int),
            decreases updates@.len() - i,
        {
            ops.push(updates[i]);
            proof {
                assert(ops@ =~= updates@.subrange(0, i + 1));
            }
            i += 1;
        }
        proof {
            assert(ops@ =~= updates@);
            Self::lemma_log_push(self.log@, RecEvent::Updates(ops));
        }
        self.log.push(RecEvent::Updates(ops));
        proof {
            assert(self.outcomes() =~= old(self).outcomes().push(self.outcome()));
        }
        if self.fail {
            Err(())
        } else {
            Ok(())
        }
    }

    fn on_commit(&mut self) -> (r: Result<(), ()>) {
        proof {
            Self::lemma_log_push(self.log@, RecEvent::Commit);
        }
        self.log.push(RecEvent::Commit);
        proof {
            assert(self.outcomes() =~= old(self).outcomes().push(self.outcome()));
        }
        if self.fail {
            Err(())
        } else {
            Ok(())
        }
    }

    fn on_completed(&mut self) -> (r: Result<(), ()>) {
        proof {
            Self::lemma_log_push(self.log@, RecEvent::Complete);
        }
        self.log.push(RecEvent::Complete);
        proof {
            assert(self.outcomes() =~= old(self).outcomes().push(self.outcome()));
        }
        if self.fail {
            Err(())
        } else {
            Ok(())
        }
    }
}

} // verus!
