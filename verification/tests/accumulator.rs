use delta_accumulator::accumulator::DistributingAccumulator;
use delta_accumulator::delta::DeltaOp;
use delta_accumulator::sink::{RecEvent, RecordingSink};

fn get_usize_updates_1() -> Vec<DeltaOp> {
    vec![
        DeltaOp::Insert { relid: 1, v: 1 },
        DeltaOp::Insert { relid: 2, v: 2 },
        DeltaOp::Insert { relid: 3, v: 3 },
    ]
}

fn get_usize_updates_2() -> Vec<DeltaOp> {
    vec![
        DeltaOp::Insert { relid: 1, v: 2 },
        DeltaOp::Insert { relid: 1, v: 3 },
        DeltaOp::Insert { relid: 2, v: 3 },
    ]
}

fn get_usize_updates_3() -> Vec<DeltaOp> {
    vec![
        DeltaOp::Insert { relid: 4, v: 1 },
        DeltaOp::Insert { relid: 4, v: 2 },
        DeltaOp::Insert { relid: 4, v: 3 },
        DeltaOp::Insert { relid: 4, v: 4 },
    ]
}

fn get_usize_delete_updates_1() -> Vec<DeltaOp> {
    vec![
        DeltaOp::Delete { relid: 1, v: 1 },
        DeltaOp::Delete { relid: 2, v: 2 },
        DeltaOp::Delete { relid: 3, v: 3 },
    ]
}

fn count_start(s: &RecordingSink) -> usize {
    s.received().iter().filter(|e| matches!(e, RecEvent::Start)).count()
}

fn count_commit(s: &RecordingSink) -> usize {
    s.received().iter().filter(|e| matches!(e, RecEvent::Commit)).count()
}

fn count_complete(s: &RecordingSink) -> usize {
    s.received().iter().filter(|e| matches!(e, RecEvent::Complete)).count()
}

/// The number of individual delta operations delivered, like the per-op
/// update counter of an observer mock.
fn count_update_ops(s: &RecordingSink) -> usize {
    s.received()
        .iter()
        .map(|e| match e {
            RecEvent::Updates(ops) => ops.len(),
            _ => 0,
        })
        .sum()
}

/// Every delivered delta operation, flattened in delivery order.
fn received_ops(s: &RecordingSink) -> Vec<DeltaOp> {
    let mut all = Vec::new();
    for e in s.received() {
        if let RecEvent::Updates(ops) = e {
            for op in ops {
                all.push(*op);
            }
        }
    }
    all
}

fn has_op(ops: &[DeltaOp], op: DeltaOp) -> bool {
    ops.iter().any(|u| *u == op)
}

/// Test subscribing and unsubscribing for a `DistributingAccumulator`.
/// A subscription can occur directly via `subscribe` or via `create_observable`.
#[test]
fn subscribe_unsubscribe() {
    let mut accumulator: DistributingAccumulator<RecordingSink> = DistributingAccumulator::new();
    let observer = RecordingSink::new();

    let subscription = accumulator.subscribe(observer);
    assert!(subscription.is_ok());
    assert!(accumulator.unsubscribe(&subscription.unwrap()).is_some());

    let observable = accumulator.create_observable();
    let observer = RecordingSink::new();

    let subscription = observable.subscribe(observer);
    assert!(subscription.is_ok());
    assert!(observable.unsubscribe(&subscription.unwrap()).is_some());
}

/// Test multiple direct subscriptions to a `DistributingAccumulator`.
#[test]
fn multiple_subscribe_direct_distributor() {
    let mut accumulator: DistributingAccumulator<RecordingSink> = DistributingAccumulator::new();

    let sub1 = accumulator.subscribe(RecordingSink::new());
    assert!(sub1.is_ok());
    let sub2 = accumulator.subscribe(RecordingSink::new());
    assert!(sub2.is_ok());
    let h1 = sub1.unwrap();
    let h2 = sub2.unwrap();

    assert_eq!(accumulator.on_start(), Ok(()));
    assert_eq!(count_start(accumulator.get_sink(&h1).unwrap()), 1);
    assert_eq!(count_start(accumulator.get_sink(&h2).unwrap()), 1);

    assert_eq!(accumulator.on_updates(&get_usize_updates_1()), Ok(()));
    assert_eq!(count_update_ops(accumulator.get_sink(&h1).unwrap()), 3);
    assert_eq!(count_update_ops(accumulator.get_sink(&h2).unwrap()), 3);

    assert_eq!(accumulator.on_commit(), Ok(()));
    assert_eq!(count_commit(accumulator.get_sink(&h1).unwrap()), 1);
    assert_eq!(count_commit(accumulator.get_sink(&h2).unwrap()), 1);

    assert_eq!(accumulator.on_completed(), Ok(()));
    assert_eq!(count_start(accumulator.get_sink(&h1).unwrap()), 2);
    assert_eq!(count_start(accumulator.get_sink(&h2).unwrap()), 2);
    assert_eq!(count_update_ops(accumulator.get_sink(&h1).unwrap()), 6);
    assert_eq!(count_update_ops(accumulator.get_sink(&h2).unwrap()), 6);
    assert_eq!(count_commit(accumulator.get_sink(&h1).unwrap()), 2);
    assert_eq!(count_commit(accumulator.get_sink(&h2).unwrap()), 2);
    assert_eq!(count_complete(accumulator.get_sink(&h1).unwrap()), 1);
    assert_eq!(count_complete(accumulator.get_sink(&h2).unwrap()), 1);
}

/// Test multiple indirect subscriptions via `create_observable` to a
/// `DistributingAccumulator`.
#[test]
fn multiple_subscribe_indirect_distributor() {
    let mut accumulator: DistributingAccumulator<RecordingSink> = DistributingAccumulator::new();

    let sub1 = accumulator.create_observable().subscribe(RecordingSink::new());
    assert!(sub1.is_ok());
    let sub2 = accumulator.create_observable().subscribe(RecordingSink::new());
    assert!(sub2.is_ok());
    let h1 = sub1.unwrap();
    let h2 = sub2.unwrap();

    assert_eq!(accumulator.on_start(), Ok(()));
    assert_eq!(count_start(accumulator.get_sink(&h1).unwrap()), 1);
    assert_eq!(count_start(accumulator.get_sink(&h2).unwrap()), 1);

    assert_eq!(accumulator.on_updates(&get_usize_updates_1()), Ok(()));
    assert_eq!(count_update_ops(accumulator.get_sink(&h1).unwrap()), 3);
    assert_eq!(count_update_ops(accumulator.get_sink(&h2).unwrap()), 3);

    assert_eq!(accumulator.on_commit(), Ok(()));
    assert_eq!(count_commit(accumulator.get_sink(&h1).unwrap()), 1);
    assert_eq!(count_commit(accumulator.get_sink(&h2).unwrap()), 1);
}

/// Test pass-through filter behaviour for transactions via a
/// `DistributingAccumulator`.
#[test]
fn transparent_transactions_proxy() {
    let mut accumulator: DistributingAccumulator<RecordingSink> = DistributingAccumulator::new();

    let sub1 = accumulator.create_observable().subscribe(RecordingSink::new());
    assert!(sub1.is_ok());
    let sub2 = accumulator.subscribe(RecordingSink::new());
    assert!(sub2.is_ok());
    let h1 = sub1.unwrap();
    let h2 = sub2.unwrap();

    assert_eq!(accumulator.on_start(), Ok(()));
    assert_eq!(count_start(accumulator.get_sink(&h1).unwrap()), 1);
    assert_eq!(count_start(accumulator.get_sink(&h2).unwrap()), 1);

    assert_eq!(accumulator.on_updates(&get_usize_updates_1()), Ok(()));
    assert_eq!(count_update_ops(accumulator.get_sink(&h1).unwrap()), 3);
    assert_eq!(count_update_ops(accumulator.get_sink(&h2).unwrap()), 3);

    assert_eq!(accumulator.on_updates(&get_usize_updates_2()), Ok(()));
    assert_eq!(count_update_ops(accumulator.get_sink(&h1).unwrap()), 6);
    assert_eq!(count_update_ops(accumulator.get_sink(&h2).unwrap()), 6);

    assert_eq!(accumulator.on_commit(), Ok(()));
    assert_eq!(count_commit(accumulator.get_sink(&h1).unwrap()), 1);
    assert_eq!(count_commit(accumulator.get_sink(&h2).unwrap()), 1);

    assert_eq!(accumulator.on_start(), Ok(()));
    assert_eq!(count_start(accumulator.get_sink(&h1).unwrap()), 2);
    assert_eq!(count_start(accumulator.get_sink(&h2).unwrap()), 2);

    assert_eq!(accumulator.on_updates(&get_usize_updates_3()), Ok(()));
    assert_eq!(count_update_ops(accumulator.get_sink(&h1).unwrap()), 10);
    assert_eq!(count_update_ops(accumulator.get_sink(&h2).unwrap()), 10);

    assert_eq!(accumulator.on_commit(), Ok(()));
    assert_eq!(count_commit(accumulator.get_sink(&h1).unwrap()), 2);
    assert_eq!(count_commit(accumulator.get_sink(&h2).unwrap()), 2);

    assert_eq!(accumulator.on_completed(), Ok(()));
    assert_eq!(count_start(accumulator.get_sink(&h1).unwrap()), 3);
    assert_eq!(count_start(accumulator.get_sink(&h2).unwrap()), 3);
    assert_eq!(count_update_ops(accumulator.get_sink(&h1).unwrap()), 20);
    assert_eq!(count_update_ops(accumulator.get_sink(&h2).unwrap()), 20);
    assert_eq!(count_commit(accumulator.get_sink(&h1).unwrap()), 3);
    assert_eq!(count_commit(accumulator.get_sink(&h2).unwrap()), 3);
    assert_eq!(count_complete(accumulator.get_sink(&h1).unwrap()), 1);
    assert_eq!(count_complete(accumulator.get_sink(&h2).unwrap()), 1);
}

/// when a new downstream consumer subscribes, it should be updated with the
/// current values
#[test]
fn test_fix_up_updates() {
    let mut accumulator: DistributingAccumulator<RecordingSink> = DistributingAccumulator::new();

    // start with one observer and give it updates
    let sub1 = accumulator.subscribe(RecordingSink::new());
    assert!(sub1.is_ok());
    let h1 = sub1.unwrap();
    assert_eq!(accumulator.on_start(), Ok(()));
    assert_eq!(accumulator.on_updates(&get_usize_updates_1()), Ok(()));
    assert_eq!(accumulator.on_commit(), Ok(()));
    let received_updates = received_ops(accumulator.get_sink(&h1).unwrap());
    assert_eq!(received_updates.len(), 3);
    assert!(has_op(&received_updates, DeltaOp::Insert { relid: 1, v: 1 }));
    assert!(has_op(&received_updates, DeltaOp::Insert { relid: 2, v: 2 }));
    assert!(has_op(&received_updates, DeltaOp::Insert { relid: 3, v: 3 }));

    // provide second batch of updates to the accumulator
    assert_eq!(accumulator.on_start(), Ok(()));
    assert_eq!(accumulator.on_updates(&get_usize_updates_2()), Ok(()));
    assert_eq!(accumulator.on_commit(), Ok(()));

    // an un-accumulated subscription does not see any earlier updates
    let sub2 = accumulator.create_observable().subscribe(RecordingSink::new());
    assert!(sub2.is_ok());
    let h2 = sub2.unwrap();
    let received_updates = received_ops(accumulator.get_sink(&h2).unwrap());
    assert_eq!(received_updates.len(), 0);

    // the following updates should be received via the bare surface
    assert_eq!(accumulator.on_start(), Ok(()));
    assert_eq!(accumulator.on_updates(&get_usize_updates_3()), Ok(()));
    assert_eq!(accumulator.on_commit(), Ok(()));
    let received_updates = received_ops(accumulator.get_sink(&h2).unwrap());
    assert_eq!(received_updates.len(), 4);
    assert!(has_op(&received_updates, DeltaOp::Insert { relid: 4, v: 1 }));
    assert!(has_op(&received_updates, DeltaOp::Insert { relid: 4, v: 2 }));
    assert!(has_op(&received_updates, DeltaOp::Insert { relid: 4, v: 3 }));
    assert!(has_op(&received_updates, DeltaOp::Insert { relid: 4, v: 4 }));

    // a new observer via subscribe() should receive all updates
    assert_eq!(accumulator.on_start(), Ok(()));
    assert_eq!(accumulator.on_updates(&get_usize_delete_updates_1()), Ok(()));
    assert_eq!(accumulator.on_commit(), Ok(()));

    let sub3 = accumulator.subscribe(RecordingSink::new());
    assert!(sub3.is_ok());
    let h3 = sub3.unwrap();
    let received_updates = received_ops(accumulator.get_sink(&h3).unwrap());
    assert_eq!(received_updates.len(), 7);
    assert!(has_op(&received_updates, DeltaOp::Insert { relid: 1, v: 2 }));
    assert!(has_op(&received_updates, DeltaOp::Insert { relid: 1, v: 3 }));
    assert!(has_op(&received_updates, DeltaOp::Insert { relid: 2, v: 3 }));
    assert!(has_op(&received_updates, DeltaOp::Insert { relid: 4, v: 1 }));
    assert!(has_op(&received_updates, DeltaOp::Insert { relid: 4, v: 2 }));
    assert!(has_op(&received_updates, DeltaOp::Insert { relid: 4, v: 3 }));
    assert!(has_op(&received_updates, DeltaOp::Insert { relid: 4, v: 4 }));
}

/// when an upstream source calls `on_completed`,
/// the accumulated state should be removed from observers
#[test]
fn test_delete_updates() {
    let mut accumulator: DistributingAccumulator<RecordingSink> = DistributingAccumulator::new();

    let sub1 = accumulator.subscribe(RecordingSink::new());
    assert!(sub1.is_ok());
    let h1 = sub1.unwrap();
    assert_eq!(accumulator.on_start(), Ok(()));
    assert_eq!(accumulator.on_updates(&get_usize_updates_1()), Ok(()));
    assert_eq!(accumulator.on_updates(&get_usize_updates_3()), Ok(()));
    assert_eq!(accumulator.on_commit(), Ok(()));

    assert_eq!(accumulator.on_start(), Ok(()));
    assert_eq!(accumulator.on_updates(&get_usize_delete_updates_1()), Ok(()));
    assert_eq!(accumulator.on_commit(), Ok(()));

    let sub2 = accumulator.subscribe(RecordingSink::new());
    assert!(sub2.is_ok());
    let h2 = sub2.unwrap();
    let received_updates = received_ops(accumulator.get_sink(&h2).unwrap());
    assert_eq!(received_updates.len(), 4);
    assert!(has_op(&received_updates, DeltaOp::Insert { relid: 4, v: 1 }));
    assert!(has_op(&received_updates, DeltaOp::Insert { relid: 4, v: 2 }));
    assert!(has_op(&received_updates, DeltaOp::Insert { relid: 4, v: 3 }));
    assert!(has_op(&received_updates, DeltaOp::Insert { relid: 4, v: 4 }));

    assert_eq!(accumulator.on_completed(), Ok(()));

    // 3 + 4 inserts, 3 manual deletions, 4 automatic deletions
    let received_updates = received_ops(accumulator.get_sink(&h1).unwrap());
    assert_eq!(received_updates.len(), 14);
    assert!(has_op(&received_updates, DeltaOp::Delete { relid: 4, v: 1 }));
    assert!(has_op(&received_updates, DeltaOp::Delete { relid: 4, v: 2 }));
    assert!(has_op(&received_updates, DeltaOp::Delete { relid: 4, v: 3 }));
    assert!(has_op(&received_updates, DeltaOp::Delete { relid: 4, v: 4 }));

    // 4 inserts, 4 automatic deletions
    let received_updates = received_ops(accumulator.get_sink(&h2).unwrap());
    assert_eq!(received_updates.len(), 8);
    assert!(has_op(&received_updates, DeltaOp::Delete { relid: 4, v: 1 }));
    assert!(has_op(&received_updates, DeltaOp::Delete { relid: 4, v: 2 }));
    assert!(has_op(&received_updates, DeltaOp::Delete { relid: 4, v: 3 }));
    assert!(has_op(&received_updates, DeltaOp::Delete { relid: 4, v: 4 }));
}
