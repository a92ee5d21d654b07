//! The scheduling queue: `priority_queue::PriorityQueue`, holding the
//! places of the words that can still be shortened.
//!
//! The queue is the crate's own; nothing in this module is proved. The
//! contracts below say of `new`, `push` and `pop` what the queue's
//! documentation says of them, over the entries that it holds. An item is a
//! place (`usize`) and its key a pair of `usize`, which std orders by the
//! first part and then by the second.

use priority_queue::PriorityQueue;
use vstd::prelude::*;

verus! {

/// `priority_queue::PriorityQueue`, taken as it is: nothing is known of a
/// queue but what the functions below say.
#[verifier::external_type_specification]
#[verifier::external_body]
#[verifier::reject_recursive_types(I)]
#[verifier::reject_recursive_types(P)]
#[verifier::reject_recursive_types(H)]
pub struct ExPriorityQueue<I, P, H>(PriorityQueue<I, P, H>);

/// What a queue holds: each item with the key that it was last pushed
/// with.
pub uninterp spec fn queue_entries(q: PriorityQueue<usize, (usize, usize)>) -> Map<usize, (usize, usize)>;

/// The order of keys, as std orders pairs: by the first part, then by the
/// second.
pub open spec fn key_le(a: (usize, usize), b: (usize, usize)) -> bool {
    a.0 < b.0 || (a.0 == b.0 && a.1 <= b.1)
}

/// `PriorityQueue::new`: the new queue holds nothing.
#[verifier::external_body]
pub(crate) fn queue_new() -> (q: PriorityQueue<usize, (usize, usize)>)
    ensures
        forall|item: usize| !queue_entries(q).contains_key(item),
{
    PriorityQueue::new()
}

/// `PriorityQueue::push`: afterwards the item is in the queue with the
/// given key, whether it was there before (then its key is replaced) or
/// not; the other entries stay as they are.
#[verifier::external_body]
pub(crate) fn queue_push(q: &mut PriorityQueue<usize, (usize, usize)>, item: usize, key: (usize, usize))
    ensures
        queue_entries(*final(q)) == queue_entries(*old(q)).insert(item, key),
{
    q.push(item, key);
}

/// `PriorityQueue::pop`: `None` exactly when the queue is empty, and then
/// it stays so; otherwise an entry with the greatest key leaves the queue
/// and is returned, and the other entries stay as they are. Which of
/// several entries with the same greatest key leaves is left open.
#[verifier::external_body]
pub(crate) fn queue_pop(q: &mut PriorityQueue<usize, (usize, usize)>) -> (r: Option<(usize, (usize, usize))>)
    ensures
        r is None <==> (forall|item: usize| !queue_entries(*old(q)).contains_key(item)),
        r is None ==> queue_entries(*final(q)) == queue_entries(*old(q)),
        r is Some ==> {
            let (item, key) = r->0;
            &&& queue_entries(*old(q)).contains_pair(item, key)
            &&& forall|other: usize| #[trigger]
                queue_entries(*old(q)).contains_key(other) ==> key_le(
                    queue_entries(*old(q))[other],
                    key,
                )
            &&& queue_entries(*final(q)) == queue_entries(*old(q)).remove(item)
        },
{
    q.pop()
}

} // verus!
