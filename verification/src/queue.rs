//! The frontier of the weighted searches: a priority queue that hands out
//! the vertex of least weight first.
use vstd::prelude::*;
use crate::types::{pair_le, VertexId};

verus! {

/// `std::cmp::Reverse`, of which the verifier sees the name alone.
#[verifier::external_type_specification]
#[verifier::external_body]
#[verifier::reject_recursive_types(T)]
pub struct ExReverse<T>(std::cmp::Reverse<T>);

/// `priority_queue::PriorityQueue`, of which the verifier sees the name
/// alone.
#[verifier::external_type_specification]
#[verifier::external_body]
#[verifier::reject_recursive_types(I)]
#[verifier::reject_recursive_types(P)]
#[verifier::reject_recursive_types(H)]
pub struct ExPriorityQueue<I, P, H>(priority_queue::PriorityQueue<I, P, H>);

/// A queue of vertices. The priority of a vertex is a pair (crossings,
/// sum), reversed, so that the greatest priority is the least pair.
pub type WeightQueue = priority_queue::PriorityQueue<
    VertexId,
    std::cmp::Reverse<(u128, u128)>,
    std::collections::hash_map::RandomState,
>;

/// The vertices that a queue holds, each with the pair (crossings, sum) by
/// which it is ordered.
pub uninterp spec fn queue_contents(q: WeightQueue) -> Map<VertexId, (u128, u128)>;

/// `PriorityQueue::new`: the new queue holds nothing.
#[verifier::external_body]
pub(crate) fn queue_new() -> (q: WeightQueue)
    ensures
        queue_contents(q).dom() == Set::<VertexId>::empty(),
{
    priority_queue::PriorityQueue::new()
}

/// `PriorityQueue::push`: afterwards the queue holds `item` with the given
/// pair, whether or not it held `item` before; nothing else changes.
#[verifier::external_body]
pub(crate) fn queue_push(q: &mut WeightQueue, item: VertexId, priority: (u128, u128))
    ensures
        queue_contents(*final(q)) == queue_contents(*old(q)).insert(item, priority),
{
    q.push(item, std::cmp::Reverse(priority));
}

/// `PriorityQueue::pop`: from an empty queue nothing comes and nothing
/// changes. Otherwise one vertex leaves with its pair, and no vertex of the
/// queue had a smaller pair. Which of several vertices of the least pair
/// leaves is not said.
#[verifier::external_body]
pub(crate) fn queue_pop(q: &mut WeightQueue) -> (r: Option<(VertexId, (u128, u128))>)
    ensures
        r is None ==> queue_contents(*old(q)).dom() == Set::<VertexId>::empty()
            && queue_contents(*final(q)) == queue_contents(*old(q)),
        r is Some ==> queue_contents(*old(q)).contains_key(r.unwrap().0) && queue_contents(
            *old(q),
        )[r.unwrap().0] == r.unwrap().1 && queue_contents(*final(q)) == queue_contents(
            *old(q),
        ).remove(r.unwrap().0),
        r is Some ==> forall|k: VertexId| #[trigger]
            queue_contents(*old(q)).contains_key(k) ==> pair_le(
                r.unwrap().1,
                queue_contents(*old(q))[k],
            ),
{
    q.pop().map(|entry| (entry.0, entry.1.0))
}

/// `PriorityQueue::change_priority`: where the queue holds `item`, it holds
/// it with the new pair afterwards and the result is `true`; where it does
/// not, nothing changes and the result is `false`.
#[verifier::external_body]
pub(crate) fn queue_change_priority(q: &mut WeightQueue, item: VertexId, priority: (u128, u128)) -> (r:
    bool)
    ensures
        r == queue_contents(*old(q)).contains_key(item),
        r ==> queue_contents(*final(q)) == queue_contents(*old(q)).insert(item, priority),
        !r ==> queue_contents(*final(q)) == queue_contents(*old(q)),
{
    q.change_priority(&item, std::cmp::Reverse(priority)).is_some()
}

} // verus!
