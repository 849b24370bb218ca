use vstd::prelude::*;
use crate::color::Color;
use crate::coverage::{lemma_queued_front, lemma_queued_push, queue_unresolved, queued, unresolved};
use crate::profile::{
    all_labeled, keeps_labels, labeled_count, lemma_labeled_count_bound,
    lemma_labeled_count_grows_strictly, Profile, HUES,
};
use crate::queue::{PendingRange, WorkQueue};

verus! {

/// The queue with the range `[low, high)` behind it, where that range is
/// wider than one hue; else the queue as it is.
pub open spec fn with_range(queue: Seq<PendingRange>, low: int, high: int) -> Seq<PendingRange> {
    if high - low > 1 {
        queue.push(PendingRange { low: low as usize, high: high as usize })
    } else {
        queue
    }
}

/// The queue with the two halves of `range` behind it, the lower half
/// first, each only where it is wider than one hue.
pub open spec fn with_halves(queue: Seq<PendingRange>, range: PendingRange) -> Seq<PendingRange> {
    with_range(
        with_range(queue, range.low as int, range.mid()),
        range.mid(),
        range.high as int,
    )
}

/// Splits `range` at its midpoint, queues the halves that are wider than
/// one hue, the lower half first, and returns the midpoint.
pub fn split(queue: &mut WorkQueue, range: PendingRange) -> (mid: usize)
    requires
        range.low <= range.high,
    ensures
        mid == range.mid(),
        final(queue)@ == with_halves(old(queue)@, range),
{
    let mid: usize = range.midpoint();
    if mid - range.low > 1 {
        queue.push_back(PendingRange { low: range.low, high: mid });
    }
    if range.high - mid > 1 {
        queue.push_back(PendingRange { low: mid, high: range.high });
    }
    mid
}

/// The state of a sampler that only bisects: the profile, the queue of
/// pending ranges, and the hue that awaits a judgment, if any.
pub struct BisectionState {
    pub profile: Seq<Option<Color>>,
    pub queue: Seq<PendingRange>,
    pub target: Option<usize>,
}

impl BisectionState {
    /// The state at the start: nothing is labeled, the whole wheel is
    /// queued, and the first question is hue 0.
    pub open spec fn initial() -> BisectionState {
        BisectionState {
            profile: Seq::new(HUES as nat, |h: int| None::<Color>),
            queue: seq![PendingRange { low: 0, high: HUES }],
            target: Some(0),
        }
    }

    /// The state after the judgment `color` for the current target: the
    /// colour is stored, and the midpoint of the next range of the queue
    /// becomes the target, its halves joining the queue. Without a target
    /// the judgment is ignored.
    pub open spec fn step(self, color: Color) -> BisectionState {
        match self.target {
            None => self,
            Some(hue) => {
                let stored = self.profile.update(hue as int, Some(color));
                if self.queue.len() == 0 {
                    BisectionState { profile: stored, queue: self.queue, target: None }
                } else {
                    BisectionState {
                        profile: stored,
                        queue: with_halves(self.queue.drop_first(), self.queue[0]),
                        target: Some(self.queue[0].mid() as usize),
                    }
                }
            },
        }
    }

    /// The invariant of a run. The ranges of the queue are unresolved and
    /// apart. A target is an unlabeled hue that lies inside no range of the
    /// queue, and every other unlabeled hue lies inside one. Without a
    /// target the queue is empty and every hue is labeled.
    #[verifier::opaque]
    pub open spec fn wf(self) -> bool {
        &&& self.profile.len() == HUES
        &&& queue_unresolved(self.profile, self.queue)
        &&& match self.target {
            Some(t) => {
                &&& t < HUES
                &&& self.profile[t as int].is_none()
                &&& forall|i: int|
                    0 <= i < self.queue.len() ==> !(#[trigger] self.queue[i]).surrounds(t as int)
                &&& forall|h: int|
                    0 <= h < HUES && (#[trigger] self.profile[h]).is_none() ==> h == t || queued(
                        self.queue,
                        h,
                    )
            },
            None => self.queue.len() == 0 && all_labeled(self.profile),
        }
    }
}

/// The initial state meets the invariant.
pub proof fn lemma_initial_wf()
    ensures
        BisectionState::initial().wf(),
{
    reveal(BisectionState::wf);
    let s = BisectionState::initial();
    assert forall|h: int| 0 <= h < HUES && (#[trigger] s.profile[h]).is_none() implies h == 0
        || queued(s.queue, h) by {
        if h != 0 {
            assert(s.queue[0].surrounds(h));
        }
    }
}

/// What queueing a part of an unresolved range does: the ranges of the
/// queue stay unresolved and apart, and a hue inside a range of the queue
/// or strictly inside the part lies inside a range of the queue afterwards.
proof fn lemma_with_range(
    slots: Seq<Option<Color>>,
    queue: Seq<PendingRange>,
    whole: PendingRange,
    low: int,
    high: int,
)
    requires
        queue_unresolved(slots, queue),
        unresolved(slots, whole),
        whole.low <= low <= high <= whole.high,
        forall|i: int| 0 <= i < queue.len() ==> (#[trigger] queue[i]).apart_from(whole) || (
        whole.low <= queue[i].low && queue[i].high <= low),
    ensures
        queue_unresolved(slots, with_range(queue, low, high)),
        forall|h: int| queued(queue, h) || low < h < high ==> #[trigger] queued(
            with_range(queue, low, high),
            h,
        ),
        forall|i: int|
            0 <= i < with_range(queue, low, high).len() ==> {
                ||| (i < queue.len() && (#[trigger] with_range(queue, low, high)[i]) == queue[i])
                ||| with_range(queue, low, high)[i] == (PendingRange {
                    low: low as usize,
                    high: high as usize,
                })
            },
{
    let later = with_range(queue, low, high);
    let part = PendingRange { low: low as usize, high: high as usize };
    assert forall|h: int| queued(queue, h) || low < h < high implies #[trigger] queued(
        later,
        h,
    ) by {
        if later != queue {
            lemma_queued_push(queue, part, h);
        }
    }
    assert forall|i: int| 0 <= i < later.len() implies unresolved(slots, #[trigger] later[i]) by {
        if i < queue.len() {
            assert(later[i] == queue[i]);
        } else {
            assert forall|h: int| part.surrounds(h) implies (#[trigger] slots[h]).is_none() by {
                assert(whole.surrounds(h));
            }
        }
    }
    assert forall|i: int, j: int| 0 <= i < j < later.len() implies (#[trigger] later[i]).apart_from(
        #[trigger] later[j],
    ) by {
        if j < queue.len() {
            assert(queue[i].apart_from(queue[j]));
        } else {
            assert(queue[i].apart_from(whole) || (whole.low <= queue[i].low && queue[i].high
                <= low));
        }
    }
}

/// A judgment keeps the invariant, keeps every label that the profile
/// held, and changes the profile at the hue that was asked only, which
/// gets the colour that was given.
pub proof fn lemma_step(state: BisectionState, color: Color)
    requires
        state.wf(),
    ensures
        state.step(color).wf(),
        keeps_labels(state.profile, state.step(color).profile),
        state.target.is_some() ==> state.step(color).profile == state.profile.update(
            state.target.unwrap() as int,
            Some(color),
        ),
        state.target.is_none() ==> state.step(color) == state,
{
    reveal(BisectionState::wf);
    if let Some(t) = state.target {
        let stored = state.profile.update(t as int, Some(color));
        assert(queue_unresolved(stored, state.queue)) by {
            assert forall|i: int| 0 <= i < state.queue.len() implies unresolved(
                stored,
                #[trigger] state.queue[i],
            ) by {
                assert(unresolved(state.profile, state.queue[i]));
                assert(!state.queue[i].surrounds(t as int));
            }
        }
        if state.queue.len() == 0 {
            assert forall|h: int| 0 <= h < stored.len() implies (#[trigger] stored[h]).is_some() by {
                if stored[h].is_none() {
                    assert(state.profile[h].is_none());
                    assert(queued(state.queue, h));
                }
            }
        } else {
            let front = state.queue[0];
            let rest = state.queue.drop_first();
            let mid = front.mid();
            let half = with_range(rest, front.low as int, mid);
            let both = with_range(half, mid, front.high as int);
            assert(unresolved(stored, front));
            assert(front.surrounds(mid));
            assert(queue_unresolved(stored, rest)) by {
                assert forall|i: int| 0 <= i < rest.len() implies unresolved(
                    stored,
                    #[trigger] rest[i],
                ) by {
                    assert(rest[i] == state.queue[i + 1]);
                }
                assert forall|i: int, j: int| 0 <= i < j < rest.len() implies (
                #[trigger] rest[i]).apart_from(#[trigger] rest[j]) by {
                    assert(state.queue[i + 1].apart_from(state.queue[j + 1]));
                }
            }
            assert forall|i: int| 0 <= i < rest.len() implies (#[trigger] rest[i]).apart_from(
                front,
            ) by {
                assert(state.queue[0].apart_from(state.queue[i + 1]));
            }
            lemma_with_range(stored, rest, front, front.low as int, mid);
            assert forall|i: int| 0 <= i < half.len() implies (#[trigger] half[i]).apart_from(front)
                || (front.low <= half[i].low && half[i].high <= mid) by {
                if i < rest.len() && half[i] == rest[i] {
                    assert(rest[i].apart_from(front));
                }
            }
            lemma_with_range(stored, half, front, mid, front.high as int);
            assert forall|i: int| 0 <= i < both.len() implies !(#[trigger] both[i]).surrounds(
                mid,
            ) by {
                if i < half.len() && both[i] == half[i] {
                    if i < rest.len() && half[i] == rest[i] {
                        assert(rest[i].apart_from(front));
                    }
                }
            }
            assert forall|h: int| 0 <= h < HUES && (#[trigger] stored[h]).is_none() implies h
                == mid || queued(both, h) by {
                assert(state.profile[h].is_none());
                assert(queued(state.queue, h));
                lemma_queued_front(state.queue, h);
                if queued(rest, h) {
                    assert(queued(half, h));
                } else if h < mid {
                    assert(queued(half, h));
                }
            }
        }
    }
}

/// The state after the judgments `answers`, given in turn.
pub open spec fn run(state: BisectionState, answers: Seq<Color>) -> BisectionState
    decreases answers.len(),
{
    if answers.len() == 0 {
        state
    } else {
        run(state.step(answers[0]), answers.drop_first())
    }
}

/// How many of the judgments `answers`, given in turn, answer a question:
/// those given while a target is pending.
pub open spec fn judgments(state: BisectionState, answers: Seq<Color>) -> nat
    decreases answers.len(),
{
    if answers.len() == 0 {
        0
    } else {
        judgments(state.step(answers[0]), answers.drop_first()) + if state.target.is_some() {
            1nat
        } else {
            0nat
        }
    }
}

/// A state that meets the invariant holds a profile of 360 slots. With a
/// target a hue is still unlabeled; without one the queue is empty and
/// every hue is labeled.
pub proof fn lemma_closed_state(state: BisectionState)
    requires
        state.wf(),
    ensures
        state.profile.len() == HUES,
        state.target.is_some() ==> labeled_count(state.profile) < HUES,
        state.target.is_none() ==> state.queue.len() == 0 && all_labeled(state.profile),
{
    reveal(BisectionState::wf);
    if let Some(hue) = state.target {
        let stored = state.profile.update(hue as int, Some(Color::Red));
        lemma_labeled_count_grows_strictly(state.profile, stored, hue as int);
        lemma_labeled_count_bound(stored);
    }
}

/// A judgment that answers a question raises the number of labeled hues.
pub proof fn lemma_step_labels(state: BisectionState, color: Color)
    requires
        state.wf(),
        state.target.is_some(),
    ensures
        labeled_count(state.profile) < labeled_count(state.step(color).profile),
{
    reveal(BisectionState::wf);
    lemma_step(state, color);
    lemma_labeled_count_grows_strictly(
        state.profile,
        state.step(color).profile,
        state.target.unwrap() as int,
    );
}

/// Once no target is pending, further judgments change nothing.
pub proof fn lemma_run_without_target(state: BisectionState, answers: Seq<Color>)
    requires
        state.target.is_none(),
    ensures
        run(state, answers) == state,
        judgments(state, answers) == 0,
    decreases answers.len(),
{
    if answers.len() > 0 {
        lemma_run_without_target(state, answers.drop_first());
    }
}

/// Every run keeps the invariant and every label once given, and each
/// judgment that answers a question labels one more hue, so no run asks
/// more than 360 questions. A run of at least as many judgments as hues
/// were unlabeled ends with no target, an empty queue and every hue
/// labeled.
pub proof fn lemma_run(state: BisectionState, answers: Seq<Color>)
    requires
        state.wf(),
    ensures
        run(state, answers).wf(),
        keeps_labels(state.profile, run(state, answers).profile),
        labeled_count(state.profile) + judgments(state, answers) <= labeled_count(
            run(state, answers).profile,
        ) <= HUES,
        judgments(state, answers) <= HUES,
        run(state, answers).target.is_some() ==> judgments(state, answers) == answers.len(),
        labeled_count(state.profile) + answers.len() >= HUES ==> {
            &&& run(state, answers).target.is_none()
            &&& run(state, answers).queue.len() == 0
            &&& all_labeled(run(state, answers).profile)
        },
    decreases answers.len(),
{
    lemma_labeled_count_bound(state.profile);
    lemma_closed_state(state);
    if answers.len() > 0 {
        let next = state.step(answers[0]);
        lemma_step(state, answers[0]);
        if state.target.is_some() {
            lemma_step_labels(state, answers[0]);
        }
        lemma_run(next, answers.drop_first());
        if next.target.is_none() {
            lemma_run_without_target(next, answers.drop_first());
        }
    }
    lemma_labeled_count_bound(run(state, answers).profile);
    lemma_closed_state(run(state, answers));
}

/// Of every run from the start: it asks at most 360 questions; once it has
/// been given 360 judgments no target is pending; and when no target is
/// pending every hue is labeled and the queue is empty.
pub proof fn lemma_every_run(answers: Seq<Color>)
    ensures
        run(BisectionState::initial(), answers).wf(),
        judgments(BisectionState::initial(), answers) <= HUES,
        answers.len() >= HUES ==> run(BisectionState::initial(), answers).target.is_none(),
        run(BisectionState::initial(), answers).target.is_none() ==> {
            &&& all_labeled(run(BisectionState::initial(), answers).profile)
            &&& run(BisectionState::initial(), answers).queue.len() == 0
        },
{
    let start = BisectionState::initial();
    lemma_initial_wf();
    lemma_run(start, answers);
    lemma_closed_state(run(start, answers));
}

/// A sampler that bisects the wheel and asks about every hue.
pub struct BisectionSampler {
    profile: Profile,
    queue: WorkQueue,
    target: Option<usize>,
}

impl View for BisectionSampler {
    type V = BisectionState;

    closed spec fn view(&self) -> BisectionState {
        BisectionState { profile: self.profile@, queue: self.queue@, target: self.target }
    }
}

impl BisectionSampler {
    /// The invariant of a run holds of the sampler's state.
    pub open spec fn wf(&self) -> bool {
        self@.wf()
    }

    /// A sampler at the start of a run: the first question is hue 0, and
    /// the whole wheel is queued.
    pub fn new() -> (sampler: BisectionSampler)
        ensures
            sampler@ == BisectionState::initial(),
            sampler.wf(),
    {
        let mut queue = WorkQueue::new();
        queue.push_back(PendingRange { low: 0, high: HUES });
        let sampler = BisectionSampler { profile: Profile::new(), queue, target: Some(0) };
        proof {
            assert(sampler@.profile =~= BisectionState::initial().profile);
            assert(sampler@.queue =~= BisectionState::initial().queue);
            assert(sampler@ == BisectionState::initial());
            lemma_initial_wf();
        }
        sampler
    }

    /// The hue to ask about; `None` when sampling is complete.
    pub fn get_current_target(&self) -> (target: Option<usize>)
        ensures
            target == self@.target,
    {
        self.target
    }

    /// Whether sampling is complete: no question is left, and every hue is
    /// labeled.
    pub fn is_complete(&self) -> (complete: bool)
        ensures
            complete == self@.target.is_none(),
            self.wf() && complete ==> all_labeled(self@.profile) && self@.queue.len() == 0,
    {
        proof {
            reveal(BisectionState::wf);
        }
        self.target.is_none()
    }

    /// Takes the judgment `color` for the current target, stores it, and
    /// returns the next target: the midpoint of the range that has waited
    /// longest. A judgment given when no target is pending is ignored.
    pub fn submit_judgment(&mut self, color: Color) -> (next: Option<usize>)
        requires
            old(self).wf(),
        ensures
            final(self)@ == old(self)@.step(color),
            final(self).wf(),
            next == final(self)@.target,
            keeps_labels(old(self)@.profile, final(self)@.profile),
            old(self)@.target.is_some() ==> labeled_count(old(self)@.profile) < labeled_count(
                final(self)@.profile,
            ),
    {
        proof {
            reveal(BisectionState::wf);
            lemma_step(self@, color);
            if self@.target.is_some() {
                lemma_step_labels(self@, color);
            }
        }
        match self.target {
            None => None,
            Some(hue) => {
                self.profile.set(hue, color);
                match self.queue.pop_front() {
                    None => {
                        self.target = None;
                        None
                    },
                    Some(range) => {
                        assert(unresolved(old(self)@.profile, old(self)@.queue[0]));
                        let mid: usize = split(&mut self.queue, range);
                        self.target = Some(mid);
                        Some(mid)
                    },
                }
            },
        }
    }

    /// The profile as it stands: the 360 slots in ascending order of hue,
    /// each with its hue.
    pub fn get_profile(&self) -> (slots: Vec<(usize, Option<Color>)>)
        requires
            self.wf(),
        ensures
            slots@.len() == HUES,
            forall|h: int|
                0 <= h < HUES ==> (#[trigger] slots@[h]) == (h as usize, self@.profile[h]),
    {
        proof {
            reveal(BisectionState::wf);
        }
        self.profile.all()
    }

    /// The pending ranges, in the order in which they will be bisected.
    pub fn pending_ranges(&self) -> (ranges: Vec<PendingRange>)
        ensures
            ranges@ == self@.queue,
    {
        self.queue.to_vec()
    }
}

} // verus!
