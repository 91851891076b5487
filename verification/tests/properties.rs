use delta_accumulator::accumulator::DistributingAccumulator;
use delta_accumulator::delta::DeltaOp;
use delta_accumulator::sink::{RecEvent, RecordingSink};
use delta_accumulator::store::Snapshot;

fn new_acc() -> DistributingAccumulator<RecordingSink> {
    DistributingAccumulator::new()
}

fn commit_batch(acc: &mut DistributingAccumulator<RecordingSink>, ops: &Vec<DeltaOp>) {
    assert_eq!(acc.on_start(), Ok(()));
    assert_eq!(acc.on_updates(ops), Ok(()));
    assert_eq!(acc.on_commit(), Ok(()));
}

fn snapshot_pairs(snap: &Snapshot) -> Vec<(usize, usize)> {
    snap.entries().clone()
}

fn ops_of(e: &RecEvent) -> Option<&Vec<DeltaOp>> {
    match e {
        RecEvent::Updates(ops) => Some(ops),
        _ => None,
    }
}

/// The example scenario: three inserts committed as one transaction, a direct
/// subscriber caught up with exactly those three, a live batch of two, and a
/// tear-down of all five followed by exactly one completion.
#[test]
fn catch_up_live_and_tear_down_scenario() {
    let mut acc = new_acc();
    commit_batch(
        &mut acc,
        &vec![
            DeltaOp::Insert { relid: 1, v: 1 },
            DeltaOp::Insert { relid: 2, v: 2 },
            DeltaOp::Insert { relid: 3, v: 3 },
        ],
    );

    let ha = acc.subscribe(RecordingSink::new()).ok().unwrap();
    {
        // the catch-up is exactly one transaction holding those 3 inserts
        let events = acc.get_sink(&ha).unwrap().received();
        assert_eq!(events.len(), 3);
        assert!(matches!(events[0], RecEvent::Start));
        let ops = ops_of(&events[1]).unwrap();
        assert_eq!(ops.len(), 3);
        for relid in 1..4 {
            assert!(ops.contains(&DeltaOp::Insert { relid, v: relid }));
        }
        assert!(matches!(events[2], RecEvent::Commit));
    }

    commit_batch(
        &mut acc,
        &vec![DeltaOp::Insert { relid: 4, v: 1 }, DeltaOp::Insert { relid: 4, v: 2 }],
    );
    {
        // the live batch arrives as one updates event of 2 ops, no replay
        let events = acc.get_sink(&ha).unwrap().received();
        assert_eq!(events.len(), 6);
        let ops = ops_of(&events[4]).unwrap();
        assert_eq!(ops.len(), 2);
    }

    assert_eq!(acc.on_completed(), Ok(()));
    {
        // tear-down: one transaction deleting all 5 pairs, then one Complete
        let events = acc.get_sink(&ha).unwrap().received();
        assert_eq!(events.len(), 10);
        assert!(matches!(events[6], RecEvent::Start));
        let ops = ops_of(&events[7]).unwrap();
        assert_eq!(ops.len(), 5);
        assert!(ops.contains(&DeltaOp::Delete { relid: 1, v: 1 }));
        assert!(ops.contains(&DeltaOp::Delete { relid: 2, v: 2 }));
        assert!(ops.contains(&DeltaOp::Delete { relid: 3, v: 3 }));
        assert!(ops.contains(&DeltaOp::Delete { relid: 4, v: 1 }));
        assert!(ops.contains(&DeltaOp::Delete { relid: 4, v: 2 }));
        assert!(matches!(events[8], RecEvent::Commit));
        assert!(matches!(events[9], RecEvent::Complete));
    }
    assert!(acc.get_current_state().is_empty());
}

/// Deleting a value not present in its relation's set is a no-op on the
/// state and never an error.
#[test]
fn delete_absent_value_is_noop() {
    let mut acc = new_acc();
    commit_batch(&mut acc, &vec![DeltaOp::Insert { relid: 7, v: 7 }]);
    // delete a value that was never inserted, and one from an unknown relation
    commit_batch(
        &mut acc,
        &vec![DeltaOp::Delete { relid: 7, v: 8 }, DeltaOp::Delete { relid: 9, v: 1 }],
    );
    let snap = acc.get_current_state();
    assert_eq!(snap.len(), 1);
    assert!(snap.contains(7, 7));
    assert!(!snap.contains(7, 8));
    assert!(!snap.contains(9, 1));
}

/// Inserting a value already present is a no-op observable from the state.
#[test]
fn insert_present_value_is_noop() {
    let mut acc = new_acc();
    commit_batch(&mut acc, &vec![DeltaOp::Insert { relid: 1, v: 5 }]);
    commit_batch(&mut acc, &vec![DeltaOp::Insert { relid: 1, v: 5 }]);
    let snap = acc.get_current_state();
    assert_eq!(snap.len(), 1);
    assert!(snap.contains(1, 5));
}

/// The accumulated state is the fold of all operations in delivery order,
/// independent of how they were grouped into transactions.
#[test]
fn state_independent_of_transaction_grouping() {
    let ops = vec![
        DeltaOp::Insert { relid: 1, v: 1 },
        DeltaOp::Insert { relid: 1, v: 2 },
        DeltaOp::Delete { relid: 1, v: 1 },
        DeltaOp::Insert { relid: 2, v: 1 },
    ];

    let mut one_txn = new_acc();
    commit_batch(&mut one_txn, &ops);

    let mut many_txns = new_acc();
    for op in &ops {
        commit_batch(&mut many_txns, &vec![*op]);
    }

    let mut a = snapshot_pairs(&one_txn.get_current_state());
    let mut b = snapshot_pairs(&many_txns.get_current_state());
    a.sort();
    b.sort();
    assert_eq!(a, vec![(1, 2), (2, 1)]);
    assert_eq!(a, b);
}

/// Two sinks registered on the bare surface before a run of lifecycle calls
/// observe identical call sequences.
#[test]
fn bare_subscribers_observe_identical_streams() {
    let mut acc = new_acc();
    let h1 = acc.create_observable().subscribe(RecordingSink::new()).ok().unwrap();
    let h2 = acc.create_observable().subscribe(RecordingSink::new()).ok().unwrap();

    commit_batch(&mut acc, &vec![DeltaOp::Insert { relid: 1, v: 1 }]);
    commit_batch(
        &mut acc,
        &vec![DeltaOp::Insert { relid: 2, v: 2 }, DeltaOp::Delete { relid: 1, v: 1 }],
    );
    assert_eq!(acc.on_completed(), Ok(()));

    let e1 = acc.get_sink(&h1).unwrap().received().clone();
    let e2 = acc.get_sink(&h2).unwrap().received().clone();
    assert_eq!(e1, e2);
}

/// A subscriber registered through the bare surface after non-empty state
/// exists receives nothing until a new transaction is committed.
#[test]
fn bare_surface_skips_catch_up() {
    let mut acc = new_acc();
    commit_batch(
        &mut acc,
        &vec![DeltaOp::Insert { relid: 1, v: 1 }, DeltaOp::Insert { relid: 2, v: 2 }],
    );

    let h = acc.create_observable().subscribe(RecordingSink::new()).ok().unwrap();
    assert_eq!(acc.get_sink(&h).unwrap().received().len(), 0);

    commit_batch(&mut acc, &vec![DeltaOp::Insert { relid: 3, v: 3 }]);
    let events = acc.get_sink(&h).unwrap().received();
    assert_eq!(events.len(), 3);
    assert_eq!(ops_of(&events[1]).unwrap(), &vec![DeltaOp::Insert { relid: 3, v: 3 }]);
}

/// A subscriber joining on an empty accumulator receives no catch-up
/// transaction at all.
#[test]
fn direct_subscribe_on_empty_state_receives_nothing() {
    let mut acc = new_acc();
    let h = acc.subscribe(RecordingSink::new()).ok().unwrap();
    assert_eq!(acc.get_sink(&h).unwrap().received().len(), 0);
}

/// Completion on an empty accumulator sends exactly one completion signal
/// and no synthetic deletion transaction.
#[test]
fn completion_with_empty_state_sends_only_complete() {
    let mut acc = new_acc();
    let h = acc.subscribe(RecordingSink::new()).ok().unwrap();
    assert_eq!(acc.on_completed(), Ok(()));
    let events = acc.get_sink(&h).unwrap().received();
    assert_eq!(events, &vec![RecEvent::Complete]);
    assert!(acc.get_current_state().is_empty());
}

/// Unsubscribing returns the sink with everything it observed; a second
/// unsubscribe with the same handle returns `None`, and the removed sink
/// observes nothing further.
#[test]
fn unsubscribe_is_idempotent_and_stops_delivery() {
    let mut acc = new_acc();
    let h1 = acc.subscribe(RecordingSink::new()).ok().unwrap();
    let h2 = acc.subscribe(RecordingSink::new()).ok().unwrap();
    commit_batch(&mut acc, &vec![DeltaOp::Insert { relid: 1, v: 1 }]);

    let removed = acc.unsubscribe(&h1).unwrap();
    assert_eq!(count_ops(&removed), 1);
    assert!(acc.unsubscribe(&h1).is_none());
    assert!(acc.get_sink(&h1).is_none());

    commit_batch(&mut acc, &vec![DeltaOp::Insert { relid: 2, v: 2 }]);
    assert_eq!(count_ops(&removed), 1);
    assert_eq!(count_ops(acc.get_sink(&h2).unwrap()), 2);
}

fn count_ops(s: &RecordingSink) -> usize {
    s.received()
        .iter()
        .map(|e| match e {
            RecEvent::Updates(ops) => ops.len(),
            _ => 0,
        })
        .sum()
}

/// Handles are never reused: after an unsubscribe, a new subscription gets a
/// fresh handle.
#[test]
fn handles_are_never_reused() {
    let mut acc = new_acc();
    let h1 = acc.subscribe(RecordingSink::new()).ok().unwrap();
    assert!(acc.unsubscribe(&h1).is_some());
    let h2 = acc.subscribe(RecordingSink::new()).ok().unwrap();
    assert_ne!(h1, h2);
}

/// A snapshot is a point-in-time copy: later updates do not change it.
#[test]
fn snapshot_is_immutable_copy() {
    let mut acc = new_acc();
    commit_batch(&mut acc, &vec![DeltaOp::Insert { relid: 1, v: 1 }]);
    let snap = acc.get_current_state();
    commit_batch(&mut acc, &vec![DeltaOp::Insert { relid: 1, v: 2 }]);
    assert_eq!(snap.len(), 1);
    assert!(snap.contains(1, 1));
    assert!(!snap.contains(1, 2));
    assert_eq!(acc.get_current_state().len(), 2);
}

/// A failing subscriber neither blocks delivery to the others nor prevents
/// state accumulation or completion; its first error is reported on the
/// genuine transactional path.
#[test]
fn failing_subscriber_does_not_block_delivery() {
    let mut acc = new_acc();
    let hf = acc.subscribe(RecordingSink::failing()).ok().unwrap();
    let hs = acc.subscribe(RecordingSink::new()).ok().unwrap();

    // the genuine path reports the first failing subscriber's error
    assert_eq!(acc.on_start(), Err(()));
    assert_eq!(acc.on_updates(&vec![DeltaOp::Insert { relid: 1, v: 1 }]), Err(()));
    assert_eq!(acc.on_commit(), Err(()));

    // delivery reached both subscribers and the state was accumulated
    assert_eq!(acc.get_sink(&hf).unwrap().received().len(), 3);
    assert_eq!(acc.get_sink(&hs).unwrap().received().len(), 3);
    assert!(acc.get_current_state().contains(1, 1));

    // completion still tears everything down everywhere; the terminal
    // fan-out's first failure is reported
    assert_eq!(acc.on_completed(), Err(()));
    assert_eq!(acc.get_sink(&hf).unwrap().received().len(), 7);
    assert_eq!(acc.get_sink(&hs).unwrap().received().len(), 7);
    assert!(matches!(acc.get_sink(&hs).unwrap().received()[6], RecEvent::Complete));
    assert!(acc.get_current_state().is_empty());
}

/// A failing subscriber does not stop a later subscriber's catch-up, and
/// registration itself still succeeds for both.
#[test]
fn failing_subscriber_is_still_caught_up_and_registered() {
    let mut acc = new_acc();
    commit_batch(&mut acc, &vec![DeltaOp::Insert { relid: 1, v: 1 }]);

    // the synthetic catch-up's errors are swallowed: subscribe returns Ok
    let hf = acc.subscribe(RecordingSink::failing()).ok().unwrap();
    let events = acc.get_sink(&hf).unwrap().received();
    assert_eq!(events.len(), 3);
    assert_eq!(ops_of(&events[1]).unwrap(), &vec![DeltaOp::Insert { relid: 1, v: 1 }]);

    // lifecycle calls report the failure but are delivered to everyone
    let hs = acc.subscribe(RecordingSink::new()).ok().unwrap();
    assert_eq!(acc.on_start(), Err(()));
    assert_eq!(acc.get_sink(&hs).unwrap().received().len(), 4);

    // with the failing subscriber gone, rounds succeed again
    assert!(acc.unsubscribe(&hf).is_some());
    assert_eq!(acc.on_updates(&vec![DeltaOp::Insert { relid: 2, v: 2 }]), Ok(()));
    assert_eq!(acc.on_commit(), Ok(()));
}
