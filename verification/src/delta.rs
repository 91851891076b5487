//! Delta operations and their meaning on the materialized state.
//!
//! The state accumulated from a stream of deltas is modelled as the set of
//! `(relation, value)` pairs currently present. Inserting a pair that is
//! already present and deleting a pair that is absent are both no-ops.

use vstd::prelude::*;

verus! {

/// Identifier of a logical relation (table or view).
pub type RelId = usize;

/// One atomic change to the materialized state: one value inserted into or
/// deleted from one relation.
#[derive(Clone, Copy, PartialEq, Eq, Structural, Debug)]
pub enum DeltaOp {
    Insert { relid: RelId, v: usize },
    Delete { relid: RelId, v: usize },
}

/// The insert operation for one `(relation, value)` pair.
pub open spec fn insert_of(p: (RelId, usize)) -> DeltaOp {
    DeltaOp::Insert { relid: p.0, v: p.1 }
}

/// The delete operation for one `(relation, value)` pair.
pub open spec fn delete_of(p: (RelId, usize)) -> DeltaOp {
    DeltaOp::Delete { relid: p.0, v: p.1 }
}

/// The effect of one operation on the state. Inserts add the pair, deletes
/// remove it; both are idempotent on the set.
pub open spec fn apply_op(s: Set<(RelId, usize)>, op: DeltaOp) -> Set<(RelId, usize)> {
    match op {
        DeltaOp::Insert { relid, v } => s.insert((relid, v)),
        DeltaOp::Delete { relid, v } => s.remove((relid, v)),
    }
}

/// The effect of a batch of operations applied in delivery order.
pub open spec fn apply_ops(s: Set<(RelId, usize)>, ops: Seq<DeltaOp>) -> Set<(RelId, usize)>
    decreases ops.len(),
{
    if ops.len() == 0 {
        s
    } else {
        apply_ops(apply_op(s, ops[0]), ops.drop_first())
    }
}

/// Applying two batches one after the other is the same as applying their
/// concatenation: the accumulated state does not depend on how a stream of
/// operations was grouped into transactions.
pub proof fn lemma_apply_ops_concat(s: Set<(RelId, usize)>, ops1: Seq<DeltaOp>, ops2: Seq<DeltaOp>)
    ensures
        apply_ops(s, ops1 + ops2) == apply_ops(apply_ops(s, ops1), ops2),
    decreases ops1.len(),
{
    if ops1.len() == 0 {
        assert(ops1 + ops2 =~= ops2);
    } else {
        assert((ops1 + ops2)[0] == ops1[0]);
        assert((ops1 + ops2).drop_first() =~= ops1.drop_first() + ops2);
        lemma_apply_ops_concat(apply_op(s, ops1[0]), ops1.drop_first(), ops2);
    }
}

/// Applying one more operation at the end of a batch folds it onto the result
/// of the batch.
pub proof fn lemma_apply_ops_push(s: Set<(RelId, usize)>, ops: Seq<DeltaOp>, op: DeltaOp)
    ensures
        apply_ops(s, ops.push(op)) == apply_op(apply_ops(s, ops), op),
{
    let one = seq![op];
    assert(ops.push(op) =~= ops + one);
    lemma_apply_ops_concat(s, ops, one);
    let x = apply_ops(s, ops);
    let y = apply_op(x, op);
    assert(one.len() == 1 && one[0] == op);
    assert(one.drop_first().len() == 0);
    assert(apply_ops(y, one.drop_first()) == y);
    assert(apply_ops(x, one) == apply_ops(apply_op(x, one[0]), one.drop_first()));
}

/// Deleting a pair that is not present leaves the state unchanged; a delete
/// never fails, so an absent pair makes it a pure no-op.
pub proof fn lemma_idempotent_delete(s: Set<(RelId, usize)>, relid: RelId, v: usize)
    requires
        !s.contains((relid, v)),
    ensures
        apply_op(s, DeltaOp::Delete { relid, v }) == s,
{
    assert(s.remove((relid, v)) =~= s);
}

/// Inserting a pair that is already present leaves the state unchanged.
pub proof fn lemma_idempotent_insert(s: Set<(RelId, usize)>, relid: RelId, v: usize)
    requires
        s.contains((relid, v)),
    ensures
        apply_op(s, DeltaOp::Insert { relid, v }) == s,
{
    assert(s.insert((relid, v)) =~= s);
}

/// Whether `op` is an insert of a pair present in `s`.
pub open spec fn op_inserts_pair_of(op: DeltaOp, s: Set<(RelId, usize)>) -> bool {
    match op {
        DeltaOp::Insert { relid, v } => s.contains((relid, v)),
        DeltaOp::Delete { .. } => false,
    }
}

/// Whether `op` is a delete of a pair present in `s`.
pub open spec fn op_deletes_pair_of(op: DeltaOp, s: Set<(RelId, usize)>) -> bool {
    match op {
        DeltaOp::Insert { .. } => false,
        DeltaOp::Delete { relid, v } => s.contains((relid, v)),
    }
}

/// A catch-up batch for state `s`: one insert for every pair of `s`, in some
/// order, each pair exactly once and nothing else.
pub open spec fn is_insert_batch(ops: Seq<DeltaOp>, s: Set<(RelId, usize)>) -> bool {
    &&& ops.no_duplicates()
    &&& ops.len() == s.len()
    &&& forall|i: int| 0 <= i < ops.len() ==> op_inserts_pair_of(#[trigger] ops[i], s)
    &&& forall|p: (RelId, usize)| #[trigger] s.contains(p) ==> ops.contains(insert_of(p))
}

/// A tear-down batch for state `s`: one delete for every pair of `s`, in some
/// order, each pair exactly once and nothing else.
pub open spec fn is_delete_batch(ops: Seq<DeltaOp>, s: Set<(RelId, usize)>) -> bool {
    &&& ops.no_duplicates()
    &&& ops.len() == s.len()
    &&& forall|i: int| 0 <= i < ops.len() ==> op_deletes_pair_of(#[trigger] ops[i], s)
    &&& forall|p: (RelId, usize)| #[trigger] s.contains(p) ==> ops.contains(delete_of(p))
}

/// A tear-down batch deletes exactly the pairs of the state it was built
/// from, so applying it to that state leaves the empty state.
pub proof fn lemma_delete_batch_clears(s: Set<(RelId, usize)>, ops: Seq<DeltaOp>)
    requires
        s.finite(),
        is_delete_batch(ops, s),
    ensures
        apply_ops(s, ops) == Set::<(RelId, usize)>::empty(),
    decreases ops.len(),
{
    broadcast use vstd::set::group_set_axioms;

    if ops.len() == 0 {
        s.lemma_len0_is_empty();
        assert(s =~= Set::<(RelId, usize)>::empty());
    } else {
        let op0 = ops[0];
        assert(op_deletes_pair_of(op0, s));
        match op0 {
            DeltaOp::Delete { relid, v } => {
                let p0 = (relid, v);
                let s1 = s.remove(p0);
                let tail = ops.drop_first();
                assert(apply_op(s, op0) == s1);
                assert forall|i: int| 0 <= i < tail.len() implies op_deletes_pair_of(
                    #[trigger] tail[i],
                    s1,
                ) by {
                    assert(tail[i] == ops[i + 1]);
                    assert(op_deletes_pair_of(ops[i + 1], s));
                    assert(ops[i + 1] != ops[0]);
                }
                assert forall|p: (RelId, usize)| #[trigger] s1.contains(p) implies tail.contains(
                    delete_of(p),
                ) by {
                    assert(s.contains(p));
                    let k = choose|k: int| 0 <= k < ops.len() && ops[k] == delete_of(p);
                    assert(delete_of(p) != op0);
                    assert(k != 0);
                    assert(tail[k - 1] == ops[k]);
                }
                assert(tail.no_duplicates());
                assert(is_delete_batch(tail, s1));
                lemma_delete_batch_clears(s1, tail);
            },
            DeltaOp::Insert { .. } => {
                assert(false);
            },
        }
    }
}

} // verus!
