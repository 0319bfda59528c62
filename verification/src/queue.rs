//! The priority queue of the path search: the queue of the `priority_queue`
//! crate, with cells as items and integers as priorities.  Nothing here is
//! proved; each item says what it takes on trust.

use vstd::prelude::*;
use priority_queue::PriorityQueue;
use std::collections::hash_map::RandomState;

verus! {

/// A queue of items of type `I` with priorities of type `P`.  The library
/// sees its contents only through `queue_contents`.
#[verifier::external_type_specification]
#[verifier::external_body]
#[verifier::reject_recursive_types(I)]
#[verifier::reject_recursive_types(P)]
#[verifier::reject_recursive_types(H)]
pub struct ExPriorityQueue<I, P, H>(PriorityQueue<I, P, H>);

/// A cell as the queue holds it: `(x, y)`.
pub type Cell = (i32, i32);

/// The items that the queue holds, each with its priority.
pub uninterp spec fn queue_contents(queue: PriorityQueue<Cell, i32, RandomState>) -> Map<Cell, i32>;

/// `PriorityQueue::new`: a queue that holds nothing.
#[verifier::external_body]
pub(crate) fn queue_new() -> (made: PriorityQueue<Cell, i32, RandomState>)
    ensures
        queue_contents(made) == (Map::<Cell, i32>::empty()),
{
    PriorityQueue::new()
}

/// `PriorityQueue::push`: puts `item` into the queue with `priority`.  An
/// item that the queue holds already stays once and takes the new priority.
#[verifier::external_body]
pub(crate) fn queue_push(
    queue: &mut PriorityQueue<Cell, i32, RandomState>,
    item: Cell,
    priority: i32,
)
    ensures
        queue_contents(*final(queue)) == queue_contents(*old(queue)).insert(item, priority),
{
    queue.push(item, priority);
}

/// `PriorityQueue::pop`: takes out an item of the greatest priority and
/// returns it with its priority, or returns `None` where the queue holds
/// nothing.  Which of several items of the greatest priority leaves is not
/// stated.
#[verifier::external_body]
pub(crate) fn queue_pop(queue: &mut PriorityQueue<Cell, i32, RandomState>) -> (popped: Option<(Cell, i32)>)
    ensures
        match popped {
            None => queue_contents(*old(queue)) == Map::<Cell, i32>::empty()
                && queue_contents(*final(queue)) == queue_contents(*old(queue)),
            Some((item, priority)) => {
                &&& queue_contents(*old(queue)).contains_pair(item, priority)
                &&& queue_contents(*final(queue)) == queue_contents(*old(queue)).remove(item)
                &&& forall|other: Cell| #[trigger]
                    queue_contents(*old(queue)).dom().contains(other) ==> queue_contents(
                        *old(queue),
                    )[other] <= priority
            },
        },
{
    queue.pop()
}

} // verus!
