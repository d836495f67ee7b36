use vstd::prelude::*;

use crate::tree::lemma_sorted_insert_len;
use crate::tree::sorted_insert;

verus! {

/// One call of the container's mutating interface, acting on the abstract
/// view exactly as the contracts of `Tree::insert`, `Tree::pop_min` and
/// `Tree::pop_max` describe it.
pub enum Op {
    Insert(u64),
    PopMin,
    PopMax,
}

/// The view that one operation leaves behind: an insert places its item as
/// `Tree::insert` promises, a pop removes the first or last element of a
/// non-empty view and leaves an empty view alone.
pub open spec fn apply_op(s: Seq<u64>, op: Op) -> Seq<u64> {
    match op {
        Op::Insert(v) => sorted_insert(s, v),
        Op::PopMin => if s.len() == 0 {
            s
        } else {
            s.subrange(1, s.len() as int)
        },
        Op::PopMax => if s.len() == 0 {
            s
        } else {
            s.drop_last()
        },
    }
}

/// The view after a whole sequence of operations, first one first.
pub open spec fn run_ops(s: Seq<u64>, ops: Seq<Op>) -> Seq<u64>
    decreases ops.len(),
{
    if ops.len() == 0 {
        s
    } else {
        run_ops(apply_op(s, ops[0]), ops.subrange(1, ops.len() as int))
    }
}

/// How many of the operations are inserts.
pub open spec fn count_inserts(ops: Seq<Op>) -> nat
    decreases ops.len(),
{
    if ops.len() == 0 {
        0
    } else {
        (match ops[0] {
            Op::Insert(_) => 1nat,
            _ => 0nat,
        }) + count_inserts(ops.subrange(1, ops.len() as int))
    }
}

/// How many of the removals succeed, that is, meet a non-empty view when
/// their turn comes.
pub open spec fn count_removals(s: Seq<u64>, ops: Seq<Op>) -> nat
    decreases ops.len(),
{
    if ops.len() == 0 {
        0
    } else {
        (match ops[0] {
            Op::Insert(_) => 0nat,
            _ => if s.len() > 0 {
                1nat
            } else {
                0nat
            },
        }) + count_removals(apply_op(s, ops[0]), ops.subrange(1, ops.len() as int))
    }
}

/// The view after a sequence of inserts with no removals.
pub open spec fn insert_all(s: Seq<u64>, items: Seq<u64>) -> Seq<u64>
    decreases items.len(),
{
    if items.len() == 0 {
        s
    } else {
        insert_all(sorted_insert(s, items[0]), items.subrange(1, items.len() as int))
    }
}

/// Law: after any sequence of inserts with no removals, the size grows by
/// exactly the number of inserted items — on an initially empty tree,
/// `size()` equals the number of `insert` calls.
pub proof fn lemma_size_after_inserts(s: Seq<u64>, items: Seq<u64>)
    ensures
        insert_all(s, items).len() == s.len() + items.len(),
    decreases items.len(),
{
    if items.len() == 0 {
    } else {
        lemma_sorted_insert_len(s, items[0]);
        lemma_size_after_inserts(sorted_insert(s, items[0]), items.subrange(1, items.len() as int));
    }
}

/// Law: over any sequence of inserts and removals, the items stored at the
/// end plus the items successfully removed are exactly the items stored at
/// the start plus the items inserted.
pub proof fn lemma_conservation(s: Seq<u64>, ops: Seq<Op>)
    ensures
        run_ops(s, ops).len() + count_removals(s, ops) == s.len() + count_inserts(ops),
    decreases ops.len(),
{
    if ops.len() == 0 {
    } else {
        match ops[0] {
            Op::Insert(v) => lemma_sorted_insert_len(s, v),
            _ => {},
        }
        lemma_conservation(apply_op(s, ops[0]), ops.subrange(1, ops.len() as int));
    }
}

} // verus!
