use vstd::prelude::*;
use crate::color::Color;
use crate::profile::HUES;
use crate::queue::PendingRange;

verus! {

/// Whether `range` lies on the wheel, is at least two hues wide, and holds
/// only unlabeled hues strictly between its bounds.
pub open spec fn unresolved(slots: Seq<Option<Color>>, range: PendingRange) -> bool {
    &&& range.low + 2 <= range.high <= HUES
    &&& forall|h: int| range.surrounds(h) ==> (#[trigger] slots[h]).is_none()
}

/// Whether every range of `queue` is unresolved and no two of them overlap.
pub open spec fn queue_unresolved(slots: Seq<Option<Color>>, queue: Seq<PendingRange>) -> bool {
    &&& forall|i: int| 0 <= i < queue.len() ==> unresolved(slots, #[trigger] queue[i])
    &&& forall|i: int, j: int|
        0 <= i < j < queue.len() ==> (#[trigger] queue[i]).apart_from(#[trigger] queue[j])
}

/// Whether `hue` lies strictly inside a range of `queue`.
pub open spec fn queued(queue: Seq<PendingRange>, hue: int) -> bool {
    exists|i: int| 0 <= i < queue.len() && (#[trigger] queue[i]).surrounds(hue)
}

/// A hue inside a range of the queue stays inside one when a range joins
/// the queue, and the hues inside the new range are inside one too.
pub proof fn lemma_queued_push(queue: Seq<PendingRange>, range: PendingRange, hue: int)
    requires
        queued(queue, hue) || range.surrounds(hue),
    ensures
        queued(queue.push(range), hue),
{
    let longer = queue.push(range);
    if queued(queue, hue) {
        let i = choose|i: int| 0 <= i < queue.len() && (#[trigger] queue[i]).surrounds(hue);
        assert(longer[i].surrounds(hue));
    } else {
        assert(longer[queue.len() as int].surrounds(hue));
    }
}

/// A hue inside a range of the queue lies inside the front range, or
/// inside a range of the rest.
pub proof fn lemma_queued_front(queue: Seq<PendingRange>, hue: int)
    requires
        queued(queue, hue),
    ensures
        queue.len() > 0,
        queue[0].surrounds(hue) || queued(queue.drop_first(), hue),
{
    let i = choose|i: int| 0 <= i < queue.len() && (#[trigger] queue[i]).surrounds(hue);
    if i > 0 {
        assert(queue.drop_first()[i - 1].surrounds(hue));
    }
}

} // verus!
