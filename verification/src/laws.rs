//! General laws of the uniform store contract. Every engine's operations
//! are specified against the abstract `Map<int, i32>` view, so the laws are
//! stated and proved over that view once, and hold of every engine through
//! its contracts.

use vstd::prelude::*;

verus! {

/// The view after a sequence of inserts, applied first to last.
pub open spec fn kv_after_inserts(m: Map<int, i32>, ops: Seq<(i32, i32)>) -> Map<int, i32>
    decreases ops.len(),
{
    if ops.len() == 0 {
        m
    } else {
        kv_after_inserts(m.insert(ops[0].0 as int, ops[0].1), ops.drop_first())
    }
}

/// Inserts of other keys leave a key's binding alone.
pub proof fn lemma_inserts_skip(m: Map<int, i32>, ops: Seq<(i32, i32)>, k: int)
    requires
        forall|j: int| 0 <= j < ops.len() ==> ops[j].0 as int != k,
    ensures
        kv_after_inserts(m, ops).dom().contains(k) == m.dom().contains(k),
        m.dom().contains(k) ==> kv_after_inserts(m, ops)[k] == m[k],
    decreases ops.len(),
{
    if ops.len() > 0 {
        lemma_inserts_skip(m.insert(ops[0].0 as int, ops[0].1), ops.drop_first(), k);
    }
}

/// Round trip: after any sequence of inserts, the view binds an inserted
/// key to the value of the last insert with that key. Combined with each
/// engine's `insert` and `search` contracts, a search after the sequence
/// reports exactly that value, on every engine.
pub proof fn lemma_round_trip(m: Map<int, i32>, ops: Seq<(i32, i32)>, i: int)
    requires
        0 <= i < ops.len(),
        forall|j: int| i < j < ops.len() ==> ops[j].0 != ops[i].0,
    ensures
        kv_after_inserts(m, ops).dom().contains(ops[i].0 as int),
        kv_after_inserts(m, ops)[ops[i].0 as int] == ops[i].1,
    decreases ops.len(),
{
    let m1 = m.insert(ops[0].0 as int, ops[0].1);
    let dropped = ops.drop_first();
    if i == 0 {
        assert forall|j: int| #![trigger dropped[j]] 0 <= j < dropped.len() implies dropped[j].0
            as int != ops[i].0 as int by {
            assert(dropped[j] == ops[j + 1]);
        }
        lemma_inserts_skip(m1, dropped, ops[i].0 as int);
    } else {
        assert forall|j: int| #![trigger dropped[j]] i - 1 < j < dropped.len() implies dropped[j].0
            != dropped[i - 1].0 by {
            assert(dropped[j] == ops[j + 1]);
            assert(dropped[i - 1] == ops[i]);
        }
        lemma_round_trip(m1, dropped, i - 1);
        assert(dropped[i - 1] == ops[i]);
    }
}

/// Remove-then-search: after a key is removed the view no longer holds it,
/// so by the `search` contract every engine then reports absent for it.
pub proof fn lemma_remove_then_search(m: Map<int, i32>, k: int)
    ensures
        !m.remove(k).dom().contains(k),
{
}

/// Removing an absent key leaves the view unchanged, so by the `remove`
/// contract the call reports absent and the key set and order invariant of
/// the engine are untouched.
pub proof fn lemma_absent_remove_noop(m: Map<int, i32>, k: int)
    requires
        !m.dom().contains(k),
    ensures
        m.remove(k) == m,
{
    assert(m.remove(k) =~= m);
}

} // verus!
