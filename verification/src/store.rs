//! The in-memory materialized state: per-relation value sets, together with
//! point-in-time snapshots of them.
//!
//! Both the live store and a snapshot are represented as a duplicate-free
//! vector of `(relation, value)` pairs and are viewed, for specification
//! purposes, as the set of pairs currently present.

use vstd::prelude::*;

use crate::delta::{
    apply_op, delete_of, insert_of, is_delete_batch, is_insert_batch, op_deletes_pair_of,
    op_inserts_pair_of, DeltaOp, RelId,
};

verus! {

/// Pushing a pair onto a duplicate-free pair sequence adds it to the set of
/// pairs present.
proof fn lemma_pairs_push(s: Seq<(RelId, usize)>, p: (RelId, usize))
    requires
        s.no_duplicates(),
        !s.contains(p),
    ensures
        s.push(p).to_set() =~= s.to_set().insert(p),
        s.push(p).no_duplicates(),
{
    broadcast use vstd::set::group_set_axioms;

    assert forall|x: (RelId, usize)| #[trigger] s.push(p).to_set().contains(x) implies s.to_set()
        .insert(p).contains(x) by {
        let i = choose|i: int| 0 <= i < s.push(p).len() && s.push(p)[i] == x;
        if i < s.len() {
            assert(s[i] == x);
        }
    }
    assert forall|x: (RelId, usize)| s.to_set().insert(p).contains(x) implies #[trigger] s.push(
        p,
    ).to_set().contains(x) by {
        if x == p {
            assert(s.push(p)[s.len() as int] == x);
        } else {
            let i = choose|i: int| 0 <= i < s.len() && s[i] == x;
            assert(s.push(p)[i] == x);
        }
    }
}

/// Removing position `i` from a duplicate-free pair sequence removes exactly
/// the pair that stood there from the set of pairs present.
proof fn lemma_pairs_remove(s: Seq<(RelId, usize)>, i: int)
    requires
        s.no_duplicates(),
        0 <= i < s.len(),
    ensures
        s.remove(i).to_set() =~= s.to_set().remove(s[i]),
        s.remove(i).no_duplicates(),
{
    broadcast use vstd::set::group_set_axioms;

    let r = s.remove(i);
    assert forall|x: (RelId, usize)| #[trigger] r.to_set().contains(x) implies s.to_set().remove(
        s[i],
    ).contains(x) by {
        let j = choose|j: int| 0 <= j < r.len() && r[j] == x;
        if j < i {
            assert(s[j] == x);
        } else {
            assert(s[j + 1] == x);
        }
    }
    assert forall|x: (RelId, usize)| s.to_set().remove(s[i]).contains(x) implies #[trigger] r
        .to_set().contains(x) by {
        let j = choose|j: int| 0 <= j < s.len() && s[j] == x;
        if j < i {
            assert(r[j] == x);
        } else {
            assert(r[j - 1] == x);
        }
    }
    assert forall|j: int, k: int|
        0 <= j < r.len() && 0 <= k < r.len() && j != k implies r[j] != r[k] by {
        let j2: int = if j < i { j } else { j + 1 };
        let k2: int = if k < i { k } else { k + 1 };
        assert(r[j] == s[j2] && r[k] == s[k2]);
    }
}

/// A point-in-time copy of the materialized state: the set of
/// `(relation, value)` pairs present when no transaction was open.
pub struct Snapshot {
    pairs: Vec<(RelId, usize)>,
}

impl View for Snapshot {
    type V = Set<(RelId, usize)>;

    closed spec fn view(&self) -> Set<(RelId, usize)> {
        self.pairs@.to_set()
    }
}

impl Snapshot {
    /// The snapshot's representation holds each present pair exactly once.
    pub closed spec fn wf(&self) -> bool {
        self.pairs@.no_duplicates()
    }

    /// The set of pairs in a snapshot is finite.
    pub proof fn lemma_finite(&self)
        ensures
            self@.finite(),
    {
        broadcast use vstd::seq_lib::seq_to_set_is_finite;

    }

    /// Whether the snapshot holds no pair at all.
    pub fn is_empty(&self) -> (r: bool)
        requires
            self.wf(),
        ensures
            r <==> self@ == Set::<(RelId, usize)>::empty(),
    {
        broadcast use vstd::set::group_set_axioms;

        if self.pairs.len() == 0 {
            proof {
                assert(self@ =~= Set::<(RelId, usize)>::empty());
            }
            true
        } else {
            proof {
                assert(self@.contains(self.pairs@[0]));
            }
            false
        }
    }

    /// The number of `(relation, value)` pairs held.
    pub fn len(&self) -> (r: usize)
        requires
            self.wf(),
        ensures
            r == self@.len(),
    {
        proof {
            self.pairs@.unique_seq_to_set();
        }
        self.pairs.len()
    }

    /// Whether `v` is currently present in relation `relid`.
    pub fn contains(&self, relid: RelId, v: usize) -> (r: bool)
        requires
            self.wf(),
        ensures
            r <==> self@.contains((relid, v)),
    {
        broadcast use vstd::set::group_set_axioms;

        let mut i: usize = 0;
        while i < self.pairs.len()
            invariant
                i <= self.pairs@.len(),
                forall|j: int| 0 <= j < i ==> self.pairs@[j] != (relid, v),
            decreases self.pairs@.len() - i,
        {
            let (r0, v0) = self.pairs[i];
            if r0 == relid && v0 == v {
                proof {
                    assert(self.pairs@.contains((relid, v)));
                }
                return true;
            }
            i += 1;
        }
        proof {
            if self.pairs@.contains((relid, v)) {
                let j = choose|j: int| 0 <= j < self.pairs@.len() && self.pairs@[j] == (relid, v);
                assert(false);
            }
        }
        false
    }

    /// The pairs held, each exactly once, in the store's internal order.
    pub fn entries(&self) -> (r: &Vec<(RelId, usize)>)
        requires
            self.wf(),
        ensures
            r@.to_set() == self@,
            r@.no_duplicates(),
    {
        &self.pairs
    }

    /// A batch holding one insert for every pair of the snapshot: the
    /// synthetic catch-up transaction's payload.
    pub fn insert_ops(&self) -> (r: Vec<DeltaOp>)
        requires
            self.wf(),
        ensures
            is_insert_batch(r@, self@),
    {
        broadcast use vstd::set::group_set_axioms;

        let mut ops: Vec<DeltaOp> = Vec::new();
        let mut i: usize = 0;
        while i < self.pairs.len()
            invariant
                i <= self.pairs@.len(),
                self.wf(),
                ops@.len() == i,
                forall|j: int| 0 <= j < i ==> #[trigger] ops@[j] == insert_of(self.pairs@[j]),
            decreases self.pairs@.len() - i,
        {
            let (r0, v0) = self.pairs[i];
            ops.push(DeltaOp::Insert { relid: r0, v: v0 });
            i += 1;
        }
        proof {
            self.lemma_batch_shape_insert(ops@);
        }
        ops
    }

    /// A batch holding one delete for every pair of the snapshot: the
    /// synthetic tear-down transaction's payload.
    pub fn delete_ops(&self) -> (r: Vec<DeltaOp>)
        requires
            self.wf(),
        ensures
            is_delete_batch(r@, self@),
    {
        broadcast use vstd::set::group_set_axioms;

        let mut ops: Vec<DeltaOp> = Vec::new();
        let mut i: usize = 0;
        while i < self.pairs.len()
            invariant
                i <= self.pairs@.len(),
                self.wf(),
                ops@.len() == i,
                forall|j: int| 0 <= j < i ==> #[trigger] ops@[j] == delete_of(self.pairs@[j]),
            decreases self.pairs@.len() - i,
        {
            let (r0, v0) = self.pairs[i];
            ops.push(DeltaOp::Delete { relid: r0, v: v0 });
            i += 1;
        }
        proof {
            self.lemma_batch_shape_delete(ops@);
        }
        ops
    }

    /// An op-per-pair image of the snapshot's pairs as inserts is a catch-up
    /// batch for the snapshot's state.
    proof fn lemma_batch_shape_insert(&self, ops: Seq<DeltaOp>)
        requires
            self.wf(),
            ops.len() == self.pairs@.len(),
            forall|j: int| 0 <= j < ops.len() ==> #[trigger] ops[j] == insert_of(self.pairs@[j]),
        ensures
            is_insert_batch(ops, self@),
    {
        broadcast use vstd::set::group_set_axioms;

        self.pairs@.unique_seq_to_set();
        assert forall|i: int, j: int|
            0 <= i < ops.len() && 0 <= j < ops.len() && i != j implies ops[i] != ops[j] by {
            assert(self.pairs@[i] != self.pairs@[j]);
        }
        assert forall|i: int| 0 <= i < ops.len() implies op_inserts_pair_of(
            #[trigger] ops[i],
            self@,
        ) by {
            assert(self.pairs@.contains(self.pairs@[i]));
        }
        assert forall|p: (RelId, usize)| #[trigger] self@.contains(p) implies ops.contains(
            insert_of(p),
        ) by {
            let j = choose|j: int| 0 <= j < self.pairs@.len() && self.pairs@[j] == p;
            assert(ops[j] == insert_of(p));
        }
    }

    /// An op-per-pair image of the snapshot's pairs as deletes is a tear-down
    /// batch for the snapshot's state.
    proof fn lemma_batch_shape_delete(&self, ops: Seq<DeltaOp>)
        requires
            self.wf(),
            ops.len() == self.pairs@.len(),
            forall|j: int| 0 <= j < ops.len() ==> #[trigger] ops[j] == delete_of(self.pairs@[j]),
        ensures
            is_delete_batch(ops, self@),
    {
        broadcast use vstd::set::group_set_axioms;

        self.pairs@.unique_seq_to_set();
        assert forall|i: int, j: int|
            0 <= i < ops.len() && 0 <= j < ops.len() && i != j implies ops[i] != ops[j] by {
            assert(self.pairs@[i] != self.pairs@[j]);
        }
        assert forall|i: int| 0 <= i < ops.len() implies op_deletes_pair_of(
            #[trigger] ops[i],
            self@,
        ) by {
            assert(self.pairs@.contains(self.pairs@[i]));
        }
        assert forall|p: (RelId, usize)| #[trigger] self@.contains(p) implies ops.contains(
            delete_of(p),
        ) by {
            let j = choose|j: int| 0 <= j < self.pairs@.len() && self.pairs@[j] == p;
            assert(ops[j] == delete_of(p));
        }
    }
}

/// The live materialized state. Applies insert and delete operations in
/// delivery order and answers snapshot queries; cleared exactly once when the
/// stream completes.
pub struct DeltaStore {
    pairs: Vec<(RelId, usize)>,
}

impl View for DeltaStore {
    type V = Set<(RelId, usize)>;

    closed spec fn view(&self) -> Set<(RelId, usize)> {
        self.pairs@.to_set()
    }
}

impl DeltaStore {
    /// The store's representation holds each present pair exactly once.
    pub closed spec fn wf(&self) -> bool {
        self.pairs@.no_duplicates()
    }

    /// The set of pairs in the store is finite.
    pub proof fn lemma_finite(&self)
        ensures
            self@.finite(),
    {
        broadcast use vstd::seq_lib::seq_to_set_is_finite;

    }

    /// A store with no accumulated state.
    pub fn new() -> (r: Self)
        ensures
            r.wf(),
            r@ == Set::<(RelId, usize)>::empty(),
    {
        let r = DeltaStore { pairs: Vec::new() };
        proof {
            assert(r@ =~= Set::<(RelId, usize)>::empty());
        }
        r
    }

    /// The position of `(relid, v)` in the representation, if present.
    fn position_of(&self, relid: RelId, v: usize) -> (r: Option<usize>)
        ensures
            (match r {
                Some(i) => i < self.pairs@.len() && self.pairs@[i as int] == (relid, v)
                    && self.pairs@.contains((relid, v)),
                None => !self.pairs@.contains((relid, v)),
            }),
    {
        let mut i: usize = 0;
        while i < self.pairs.len()
            invariant
                i <= self.pairs@.len(),
                forall|j: int| 0 <= j < i ==> self.pairs@[j] != (relid, v),
            decreases self.pairs@.len() - i,
        {
            let (r0, v0) = self.pairs[i];
            if r0 == relid && v0 == v {
                proof {
                    assert(self.pairs@[i as int] == (relid, v));
                }
                return Some(i);
            }
            i += 1;
        }
        proof {
            if self.pairs@.contains((relid, v)) {
                let j = choose|j: int| 0 <= j < self.pairs@.len() && self.pairs@[j] == (relid, v);
                assert(false);
            }
        }
        None
    }

    /// Apply one operation: insert adds the pair to its relation's set
    /// (idempotently), delete removes it if present and otherwise does
    /// nothing. Never fails.
    pub fn apply(&mut self, op: DeltaOp)
        requires
            old(self).wf(),
        ensures
            final(self).wf(),
            final(self)@ == apply_op(old(self)@, op),
    {
        broadcast use vstd::set::group_set_axioms;

        match op {
            DeltaOp::Insert { relid, v } => {
                match self.position_of(relid, v) {
                    Some(_) => {
                        proof {
                            assert(self.pairs@.contains((relid, v)));
                            assert(self@.insert((relid, v)) =~= self@);
                        }
                    },
                    None => {
                        proof {
                            lemma_pairs_push(self.pairs@, (relid, v));
                        }
                        self.pairs.push((relid, v));
                    },
                }
            },
            DeltaOp::Delete { relid, v } => {
                match self.position_of(relid, v) {
                    Some(i) => {
                        proof {
                            lemma_pairs_remove(self.pairs@, i as int);
                        }
                        self.pairs.remove(i);
                    },
                    None => {
                        proof {
                            assert(self@.remove((relid, v)) =~= self@);
                        }
                    },
                }
            },
        }
    }

    /// An immutable copy of the current state.
    pub fn snapshot(&self) -> (r: Snapshot)
        requires
            self.wf(),
        ensures
            r.wf(),
            r@ == self@,
    {
        let mut pairs: Vec<(RelId, usize)> = Vec::new();
        let mut i: usize = 0;
        while i < self.pairs.len()
            invariant
                i <= self.pairs@.len(),
                pairs@ == self.pairs@.subrange(0, i as int),
            decreases self.pairs@.len() - i,
        {
            let p = self.pairs[i];
            pairs.push(p);
            proof {
                assert(pairs@ =~= self.pairs@.subrange(0, i + 1));
            }
            i += 1;
        }
        proof {
            assert(pairs@ =~= self.pairs@);
        }
        Snapshot { pairs }
    }

    /// Remove all relations and values, returning to the empty initial state.
    pub fn clear(&mut self)
        ensures
            final(self).wf(),
            final(self)@ == Set::<(RelId, usize)>::empty(),
    {
        self.pairs.clear();
        proof {
            assert(self@ =~= Set::<(RelId, usize)>::empty());
        }
    }
}

} // verus!
