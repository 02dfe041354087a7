use vstd::prelude::*;

verus! {

/// A record waiting in the search frontier: the column and row of a cell, the
/// number of steps that lead to it, and the column and row of the cell it was
/// reached from.
pub type Entry = (u32, u32, usize, u32, u32);

/// `queues::Queue`, the first-in-first-out queue that holds the search frontier. It is
/// declared so that it can stand in signatures; nothing inside it is visible here.
#[verifier::external_type_specification]
#[verifier::external_body]
#[verifier::reject_recursive_types(T)]
pub struct ExQueue<T: Clone>(queues::Queue<T>);

/// The records that a `queues::Queue` holds, oldest first.
pub uninterp spec fn frontier_items(q: queues::Queue<Entry>) -> Seq<Entry>;

/// `queues::Queue::new`: a queue that holds nothing.
#[verifier::external_body]
pub(crate) fn frontier_new() -> (q: queues::Queue<Entry>)
    ensures
        frontier_items(q) == Seq::<Entry>::empty(),
{
    queues::Queue::new()
}

/// `queues::Queue::add` (of `IsQueue`): the record goes behind all that the queue
/// holds; the queue has no limit, so the call never refuses one.
#[verifier::external_body]
pub(crate) fn frontier_add(q: &mut queues::Queue<Entry>, entry: Entry)
    ensures
        frontier_items(*final(q)) == frontier_items(*old(q)).push(entry),
{
    let _ = queues::IsQueue::add(q, entry);
}

/// `queues::Queue::remove` (of `IsQueue`): takes the oldest record out and returns
/// it; on an empty queue it returns an error, given here as `None`, and leaves the
/// queue as it was.
#[verifier::external_body]
pub(crate) fn frontier_remove(q: &mut queues::Queue<Entry>) -> (r: Option<Entry>)
    ensures
        match r {
            Some(entry) => {
                &&& frontier_items(*old(q)).len() > 0
                &&& entry == frontier_items(*old(q))[0]
                &&& frontier_items(*final(q)) == frontier_items(*old(q)).drop_first()
            },
            None => {
                &&& frontier_items(*old(q)).len() == 0
                &&& frontier_items(*final(q)) == frontier_items(*old(q))
            },
        },
{
    match queues::IsQueue::remove(q) {
        Ok(entry) => Some(entry),
        Err(_) => None,
    }
}

/// `queues::Queue::size` (of `IsQueue`): the number of records in the queue.
#[verifier::external_body]
pub(crate) fn frontier_size(q: &queues::Queue<Entry>) -> (n: usize)
    ensures
        n == frontier_items(*q).len(),
{
    queues::IsQueue::size(q)
}

} // verus!
