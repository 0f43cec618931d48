//! Laws that relate the operations of the B+ tree and of the queue. Each takes the values
//! before and after the operations and asks of them what the operations' contracts promise.
use vstd::prelude::*;

use crate::bptree::BPlusTree;
use crate::entries::{has_key, inserted, removed, sorted_by_key};
use crate::queue::Queue;

verus! {

/// After `insert(key, value)` returned `r`, a search for the key finds `value` where the
/// insertion succeeded and the old record where it was refused, and every other key keeps its
/// record or its absence.
pub proof fn law_insert_then_search<T>(
    before: BPlusTree<T>,
    after: BPlusTree<T>,
    key: u64,
    value: T,
    r: bool,
)
    requires
        r == !before@.contains_key(key),
        after@ == (if r {
            before@.insert(key, value)
        } else {
            before@
        }),
    ensures
        after@.contains_key(key),
        r ==> after@[key] == value,
        !r ==> after@[key] == before@[key],
        forall|k: u64|
            k != key ==> (#[trigger] after@.contains_key(k) == before@.contains_key(k) && (
            before@.contains_key(k) ==> after@[k] == before@[k])),
{
}

/// After `delete(key)`, a search for the key finds nothing, and every other key keeps its
/// record or its absence; deleting a key the tree lacks changes nothing.
pub proof fn law_delete_then_search<T>(before: BPlusTree<T>, after: BPlusTree<T>, key: u64)
    requires
        after@ == before@.remove(key),
    ensures
        !after@.contains_key(key),
        forall|k: u64|
            k != key ==> (#[trigger] after@.contains_key(k) == before@.contains_key(k) && (
            before@.contains_key(k) ==> after@[k] == before@[k])),
        !before@.contains_key(key) ==> after@ == before@,
{
    if !before@.contains_key(key) {
        assert(after@ =~= before@);
    }
}

/// After `update(key, record)`, a search for a key the tree held finds the new record, a key
/// it lacked stays absent, and every other key keeps its record or its absence.
pub proof fn law_update_then_search<T>(
    before: BPlusTree<T>,
    after: BPlusTree<T>,
    key: u64,
    record: T,
)
    requires
        after@ == (if before@.contains_key(key) {
            before@.insert(key, record)
        } else {
            before@
        }),
    ensures
        after@.contains_key(key) == before@.contains_key(key),
        before@.contains_key(key) ==> after@[key] == record,
        forall|k: u64|
            k != key ==> (#[trigger] after@.contains_key(k) == before@.contains_key(k) && (
            before@.contains_key(k) ==> after@[k] == before@[k])),
{
}

/// Deleting a key right after an insertion of it succeeded gives back the records of the tree
/// exactly as they were, in the same order.
pub proof fn law_delete_undoes_insert<T>(
    before: BPlusTree<T>,
    between: BPlusTree<T>,
    after: BPlusTree<T>,
    key: u64,
    value: T,
)
    requires
        sorted_by_key(between.entries()),
        inserted(before.entries(), between.entries(), key, value),
        removed(between.entries(), after.entries(), key),
    ensures
        after.entries() == before.entries(),
        after@ == before@,
{
    let b = before.entries();
    let m = between.entries();
    let p = choose|p: int| 0 <= p <= b.len() && m == b.insert(p, (key, value));
    assert(m[p].0 == key);
    assert(has_key(m, key));
    let q = choose|q: int| 0 <= q < m.len() && m[q].0 == key && after.entries() == m.remove(q);
    if q < p {
        assert(m[q].0 < m[p].0);
    } else if p < q {
        assert(m[p].0 < m[q].0);
    }
    assert(after.entries() =~= b);
}

/// A queue hands its values out in the order they came in: after `enqueue(value)`, the front
/// of a queue that was not empty stays where it was and taking it off commutes with the
/// insertion, and a value put into an empty queue is the next to come out.
pub proof fn law_fifo<T>(before: Queue<T>, after: Queue<T>, value: T)
    requires
        after@ == before@.push(value),
    ensures
        after@.len() > 0,
        before@.len() > 0 ==> after@[0] == before@[0] && after@.drop_first()
            == before@.drop_first().push(value),
        before@.len() == 0 ==> after@[0] == value && after@.drop_first() == before@,
{
    if before@.len() > 0 {
        assert(after@.drop_first() =~= before@.drop_first().push(value));
    } else {
        assert(after@.drop_first() =~= before@);
    }
}

} // verus!
