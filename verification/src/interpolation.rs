use vstd::prelude::*;
use crate::color::Color;
use crate::profile::{
    all_labeled, keeps_labels, labeled_count, lemma_labeled_count_bound,
    lemma_labeled_count_grows_strictly, Profile, HUES,
};
use crate::queue::{PendingRange, WorkQueue};
use crate::coverage::{queue_unresolved, queued, unresolved, lemma_queued_push, lemma_queued_front};

verus! {

/// Whether the run of positions `[low, high)`, walked forward round the
/// wheel, passes the hue `hue`.
pub open spec fn in_run(low: usize, high: usize, hue: int) -> bool {
    (hue - low) % (HUES as int) < high - low
}

/// The profile `slots` with `color` written to every hue of the run
/// `[low, high)`.
pub open spec fn filled(slots: Seq<Option<Color>>, low: usize, high: usize, color: Color) -> Seq<
    Option<Color>,
> {
    Seq::new(
        slots.len(),
        |h: int|
            if in_run(low, high, h) {
                Some(color)
            } else {
                slots[h]
            },
    )
}

/// Whether the two ends of `[low, high)` are different hues that carry the
/// same label.
pub open spec fn ends_agree(slots: Seq<Option<Color>>, low: usize, high: usize) -> bool {
    let lm = low % HUES;
    let hm = high % HUES;
    lm != hm && slots[lm as int].is_some() && slots[lm as int] == slots[hm as int]
}

/// The profile after the range `[low, high)` was resolved: filled with the
/// label of its ends where they agree, and unchanged where they do not.
pub open spec fn resolved_profile(slots: Seq<Option<Color>>, low: usize, high: usize) -> Seq<
    Option<Color>,
> {
    if ends_agree(slots, low, high) {
        filled(slots, low, high, slots[(low % HUES) as int].unwrap())
    } else {
        slots
    }
}

/// The queue after the range `[low, high)` was resolved: the range joins the
/// queue where its ends do not agree and it is wider than one hue.
pub open spec fn resolved_queue(
    slots: Seq<Option<Color>>,
    queue: Seq<PendingRange>,
    low: usize,
    high: usize,
) -> Seq<PendingRange> {
    if !ends_agree(slots, low, high) && high - low > 1 {
        queue.push(PendingRange { low, high })
    } else {
        queue
    }
}

/// Writes `color` to every hue of the run `[low, high)`. The bounds are
/// positions that may lie beyond the last hue: the run then goes on from
/// hue 0.
pub fn fill(profile: &mut Profile, low: usize, high: usize, color: Color)
    requires
        old(profile).wf(),
        low <= high,
    ensures
        final(profile).wf(),
        final(profile)@ == filled(old(profile)@, low, high, color),
{
    let mut k: usize = low;
    assert(profile@ =~= filled(old(profile)@, low, low, color));
    while k < high
        invariant
            low <= k <= high,
            profile.wf(),
            old(profile).wf(),
            profile@ == filled(old(profile)@, low, k, color),
        decreases high - k,
    {
        profile.set(k % HUES, color);
        assert(profile@ =~= filled(old(profile)@, low, (k + 1) as usize, color)) by {
            assert forall|h: int| 0 <= h < HUES implies (in_run(low, (k + 1) as usize, h) <==> (
            in_run(low, k, h) || h == k % HUES)) by {
                lemma_run_grows(low, k, h);
            }
        }
        k += 1;
    }
}

proof fn lemma_run_grows(low: usize, k: usize, h: int)
    requires
        low <= k < usize::MAX,
        0 <= h < HUES,
    ensures
        in_run(low, (k + 1) as usize, h) <==> (in_run(low, k, h) || h == k % HUES),
{
    let d = (h - low) % (HUES as int);
    let a = (h - low) / (HUES as int);
    let b = (k as int) / (HUES as int);
    let e = (k as int) % (HUES as int);
    assert(h - low == a * 360 + d);
    assert(k == b * 360 + e);
    if h == e {
        assert(k - low == (b + a) * 360 + d);
    }
    if d == k - low {
        assert(h == k + a * 360);
    }
}

/// On the wheel itself, a run is the hues from its lower bound up to its
/// upper bound.
pub proof fn lemma_run_within_wheel(low: usize, high: usize, h: int)
    requires
        low <= high <= HUES,
        0 <= h < HUES,
    ensures
        in_run(low, high, h) <==> low <= h < high,
{
}

/// Resolves the range `[low, high)`. Where its two ends are different hues
/// with the same label, every hue of the range gets that label; else, where
/// the range is wider than one hue, it joins the queue; else nothing
/// changes.
pub fn maybe_fill_or_queue(profile: &mut Profile, queue: &mut WorkQueue, low: usize, high: usize)
    requires
        old(profile).wf(),
        low <= high,
    ensures
        final(profile).wf(),
        final(profile)@ == resolved_profile(old(profile)@, low, high),
        final(queue)@ == resolved_queue(old(profile)@, old(queue)@, low, high),
{
    let lm: usize = low % HUES;
    let hm: usize = high % HUES;
    let agreed: Option<Color> = match (profile.get(lm), profile.get(hm)) {
        (Some(a), Some(b)) => if lm != hm && a == b {
            Some(a)
        } else {
            None
        },
        _ => None,
    };
    match agreed {
        Some(color) => {
            fill(profile, low, high, color);
        },
        None => {
            if high - low > 1 {
                queue.push_back(PendingRange { low, high });
            }
        },
    }
}

/// The hue that awaits a judgment, with the range that it was taken from.
#[derive(Clone, Copy, Debug, PartialEq, Eq, Hash, Structural)]
pub struct Target {
    pub hue: usize,
    pub context: PendingRange,
}

/// The target that the front of `queue` gives: its midpoint, as a hue.
pub open spec fn next_target(queue: Seq<PendingRange>) -> Option<Target> {
    if queue.len() == 0 {
        None
    } else {
        Some(Target { hue: (queue[0].mid() % (HUES as int)) as usize, context: queue[0] })
    }
}

/// What is left of `queue` once its front was taken.
pub open spec fn next_queue(queue: Seq<PendingRange>) -> Seq<PendingRange> {
    if queue.len() == 0 {
        queue
    } else {
        queue.drop_first()
    }
}

/// Takes the next range from the queue and makes its midpoint the target.
/// With an empty queue there is no target.
pub fn advance(queue: &mut WorkQueue) -> (target: Option<Target>)
    ensures
        target == next_target(old(queue)@),
        final(queue)@ == next_queue(old(queue)@),
{
    match queue.pop_front() {
        Some(range) => Some(Target { hue: range.midpoint() % HUES, context: range }),
        None => None,
    }
}


/// What resolving a range does to a profile and a queue whose ranges are
/// unresolved, where the range lies on the wheel apart from those of the
/// queue and holds only unlabeled hues strictly inside: labels are kept,
/// only hues of the range are written, the ranges of the queue stay
/// unresolved and apart, and a hue strictly inside the range is labeled or
/// inside a range of the queue afterwards.
pub proof fn lemma_resolve(
    slots: Seq<Option<Color>>,
    queue: Seq<PendingRange>,
    low: usize,
    high: usize,
)
    requires
        slots.len() == HUES,
        queue_unresolved(slots, queue),
        low <= high <= HUES,
        forall|h: int| low < h < high ==> (#[trigger] slots[h]).is_none(),
        forall|i: int|
            0 <= i < queue.len() ==> (#[trigger] queue[i]).apart_from(PendingRange { low, high }),
    ensures
        resolved_profile(slots, low, high).len() == HUES,
        queue_unresolved(
            resolved_profile(slots, low, high),
            resolved_queue(slots, queue, low, high),
        ),
        keeps_labels(slots, resolved_profile(slots, low, high)),
        forall|h: int|
            0 <= h < HUES && !(low <= h < high) ==> (#[trigger] resolved_profile(
                slots,
                low,
                high,
            )[h]) == slots[h],
        forall|h: int|
            0 <= h < HUES && (#[trigger] resolved_profile(slots, low, high)[h]).is_none()
                ==> slots[h].is_none(),
        forall|h: int|
            low < h < high && (#[trigger] resolved_profile(slots, low, high)[h]).is_none()
                ==> queued(resolved_queue(slots, queue, low, high), h),
        forall|h: int|
            queued(queue, h) ==> #[trigger] queued(resolved_queue(slots, queue, low, high), h),
        forall|i: int|
            0 <= i < resolved_queue(slots, queue, low, high).len() ==> {
                ||| (i < queue.len() && (#[trigger] resolved_queue(slots, queue, low, high)[i])
                    == queue[i])
                ||| resolved_queue(slots, queue, low, high)[i] == (PendingRange { low, high })
            },
{
    let after = resolved_profile(slots, low, high);
    let later = resolved_queue(slots, queue, low, high);
    let range = PendingRange { low, high };
    assert forall|h: int| 0 <= h < HUES implies (in_run(low, high, h) <==> low <= h < high) by {
        lemma_run_within_wheel(low, high, h);
    }
    assert forall|h: int| queued(queue, h) implies #[trigger] queued(later, h) by {
        if later != queue {
            lemma_queued_push(queue, range, h);
        }
    }
    assert forall|h: int| low < h < high && (#[trigger] after[h]).is_none() implies queued(
        later,
        h,
    ) by {
        lemma_queued_push(queue, range, h);
    }
    assert forall|i: int| 0 <= i < later.len() implies unresolved(after, #[trigger] later[i]) by {
        if i < queue.len() {
            assert(later[i] == queue[i]);
            assert(unresolved(slots, queue[i]));
            assert(queue[i].apart_from(range));
            assert forall|h: int| later[i].surrounds(h) implies (#[trigger] after[h]).is_none() by {
                assert(slots[h].is_none());
            }
        }
    }
    assert forall|i: int, j: int| 0 <= i < j < later.len() implies (#[trigger] later[i]).apart_from(
        #[trigger] later[j],
    ) by {
        if j < queue.len() {
            assert(queue[i].apart_from(queue[j]));
        } else {
            assert(queue[i].apart_from(range));
        }
    }
}


/// The state of a sampler that fills by inference: the profile, the queue
/// of pending ranges, and the target that awaits a judgment, if any.
pub struct InterpolationState {
    pub profile: Seq<Option<Color>>,
    pub queue: Seq<PendingRange>,
    pub target: Option<Target>,
}

impl InterpolationState {
    /// The state at the start: nothing is labeled, nothing is queued, and
    /// the first question is hue 0, taken from the whole wheel.
    pub open spec fn initial() -> InterpolationState {
        InterpolationState {
            profile: Seq::new(HUES as nat, |h: int| None::<Color>),
            queue: Seq::empty(),
            target: Some(Target { hue: 0, context: PendingRange { low: 0, high: HUES } }),
        }
    }

    /// The profile once `color` was stored for the target and the ranges on
    /// both sides of it were resolved.
    pub open spec fn judged_profile(self, target: Target, color: Color) -> Seq<Option<Color>> {
        let stored = self.profile.update(target.hue as int, Some(color));
        let left = resolved_profile(stored, target.context.low, target.hue);
        resolved_profile(left, target.hue, target.context.high)
    }

    /// The queue once `color` was stored for the target and the ranges on
    /// both sides of it were resolved, the lower one first.
    pub open spec fn judged_queue(self, target: Target, color: Color) -> Seq<PendingRange> {
        let stored = self.profile.update(target.hue as int, Some(color));
        let left = resolved_profile(stored, target.context.low, target.hue);
        let left_queue = resolved_queue(stored, self.queue, target.context.low, target.hue);
        resolved_queue(left, left_queue, target.hue, target.context.high)
    }

    /// The state after the judgment `color` for the current target. Without
    /// a target the judgment is ignored.
    pub open spec fn step(self, color: Color) -> InterpolationState {
        match self.target {
            None => self,
            Some(target) => InterpolationState {
                profile: self.judged_profile(target, color),
                queue: next_queue(self.judged_queue(target, color)),
                target: next_target(self.judged_queue(target, color)),
            },
        }
    }

    /// The invariant of a run. The ranges of the queue are unresolved and
    /// apart. A target is an unlabeled hue of its context, which holds only
    /// unlabeled hues strictly inside and is apart from the ranges of the
    /// queue; every unlabeled hue is the target, or lies inside the context
    /// or a range of the queue. Without a target the queue is empty and
    /// every hue is labeled.
    #[verifier::opaque]
    pub open spec fn wf(self) -> bool {
        &&& self.profile.len() == HUES
        &&& queue_unresolved(self.profile, self.queue)
        &&& match self.target {
            Some(t) => {
                &&& t.context.low <= t.hue < t.context.high <= HUES
                &&& self.profile[t.hue as int].is_none()
                &&& forall|h: int| t.context.surrounds(h) ==> (#[trigger] self.profile[h]).is_none()
                &&& forall|i: int|
                    0 <= i < self.queue.len() ==> (#[trigger] self.queue[i]).apart_from(t.context)
                &&& forall|h: int|
                    0 <= h < HUES && (#[trigger] self.profile[h]).is_none() ==> {
                        ||| h == t.hue
                        ||| t.context.surrounds(h)
                        ||| queued(self.queue, h)
                    }
            },
            None => self.queue.len() == 0 && all_labeled(self.profile),
        }
    }
}

/// The initial state meets the invariant.
pub proof fn lemma_initial_wf()
    ensures
        InterpolationState::initial().wf(),
{
    reveal(InterpolationState::wf);
}

/// A judgment keeps the invariant, keeps every label that the profile
/// held, and labels the hue that was asked with the colour that was given.
pub proof fn lemma_step(state: InterpolationState, color: Color)
    requires
        state.wf(),
    ensures
        state.step(color).wf(),
        keeps_labels(state.profile, state.step(color).profile),
        state.target.is_some() ==> state.step(color).profile[state.target.unwrap().hue as int]
            == Some(color),
{
    reveal(InterpolationState::wf);
    if let Some(t) = state.target {
        let low = t.context.low;
        let high = t.context.high;
        let stored = state.profile.update(t.hue as int, Some(color));
        let left = resolved_profile(stored, low, t.hue);
        let left_queue = resolved_queue(stored, state.queue, low, t.hue);
        let done = resolved_profile(left, t.hue, high);
        let done_queue = resolved_queue(left, left_queue, t.hue, high);
        assert(queue_unresolved(stored, state.queue)) by {
            assert forall|i: int| 0 <= i < state.queue.len() implies unresolved(
                stored,
                #[trigger] state.queue[i],
            ) by {
                assert(unresolved(state.profile, state.queue[i]));
                assert(state.queue[i].apart_from(t.context));
            }
        }
        assert forall|i: int| 0 <= i < state.queue.len() implies (#[trigger] state.queue[i]).apart_from(
            PendingRange { low, high: t.hue },
        ) by {
            assert(state.queue[i].apart_from(t.context));
        }
        assert forall|h: int| low < h < t.hue implies (#[trigger] stored[h]).is_none() by {
            assert(t.context.surrounds(h));
            assert(state.profile[h].is_none());
        }
        lemma_resolve(stored, state.queue, low, t.hue);
        assert forall|i: int| 0 <= i < left_queue.len() implies (#[trigger] left_queue[i]).apart_from(
            PendingRange { low: t.hue, high },
        ) by {
            if i < state.queue.len() && left_queue[i] == state.queue[i] {
                assert(state.queue[i].apart_from(t.context));
            }
        }
        assert forall|h: int| t.hue < h < high implies (#[trigger] left[h]).is_none() by {
            assert(t.context.surrounds(h));
            assert(state.profile[h].is_none());
            assert(stored[h].is_none());
        }
        lemma_resolve(left, left_queue, t.hue, high);
        assert(done[t.hue as int] == Some(color)) by {
            assert(stored[t.hue as int] == Some(color));
            assert(left[t.hue as int] == Some(color));
        }
        assert(keeps_labels(state.profile, done)) by {
            assert forall|h: int|
                0 <= h < HUES && (#[trigger] state.profile[h]).is_some() implies done[h]
                == state.profile[h] by {
                assert(stored[h] == state.profile[h]);
                assert(left[h] == stored[h]);
            }
        }
        assert forall|h: int| 0 <= h < HUES && (#[trigger] done[h]).is_none() implies queued(
            done_queue,
            h,
        ) by {
            assert(left[h].is_none());
            assert(stored[h].is_none());
            assert(state.profile[h].is_none());
            assert(h != t.hue);
            if low < h < t.hue {
                assert(queued(left_queue, h));
            } else if t.hue < h < high {
            } else {
                assert(queued(state.queue, h));
                assert(queued(left_queue, h));
            }
        }
        let next = state.step(color);
        if done_queue.len() == 0 {
            assert forall|h: int| 0 <= h < done.len() implies (#[trigger] done[h]).is_some() by {
                if done[h].is_none() {
                    assert(queued(done_queue, h));
                }
            }
        } else {
            let front = done_queue[0];
            let rest = done_queue.drop_first();
            assert(unresolved(done, front));
            assert(front.surrounds(front.mid()));
            assert(queue_unresolved(done, rest)) by {
                assert forall|i: int| 0 <= i < rest.len() implies unresolved(
                    done,
                    #[trigger] rest[i],
                ) by {
                    assert(rest[i] == done_queue[i + 1]);
                }
                assert forall|i: int, j: int| 0 <= i < j < rest.len() implies (
                #[trigger] rest[i]).apart_from(#[trigger] rest[j]) by {
                    assert(done_queue[i + 1].apart_from(done_queue[j + 1]));
                }
            }
            assert forall|i: int| 0 <= i < rest.len() implies (#[trigger] rest[i]).apart_from(
                front,
            ) by {
                assert(done_queue[0].apart_from(done_queue[i + 1]));
            }
            assert forall|h: int| 0 <= h < HUES && (#[trigger] done[h]).is_none() implies (
            front.surrounds(h) || queued(rest, h)) by {
                assert(queued(done_queue, h));
                lemma_queued_front(done_queue, h);
            }
        }
    }
}


/// Fill correctness. Where the two ends of a range are different hues that
/// both carry the label `color`, resolving the range gives every position
/// of it that label.
pub proof fn lemma_fill_correct(
    slots: Seq<Option<Color>>,
    low: usize,
    high: usize,
    color: Color,
    position: int,
)
    requires
        slots.len() == HUES,
        low < high,
        low % HUES != high % HUES,
        slots[(low % HUES) as int] == Some(color),
        slots[(high % HUES) as int] == Some(color),
        low <= position < high,
    ensures
        resolved_profile(slots, low, high)[position % (HUES as int)] == Some(color),
{
    let h = position % (HUES as int);
    let a = position / (HUES as int);
    let d = (h - low) % (HUES as int);
    let b = (h - low) / (HUES as int);
    assert(position == a * 360 + h);
    assert(h - low == b * 360 + d);
    assert(position - low == (a + b) * 360 + d);
    assert(in_run(low, high, h));
}

/// No fill crosses a boundary. Where the two ends of a range carry
/// different labels, or one of them carries none, resolving the range
/// leaves the profile as it is, and a range wider than one hue joins the
/// queue to be bisected.
pub proof fn lemma_boundary_kept(
    slots: Seq<Option<Color>>,
    queue: Seq<PendingRange>,
    low: usize,
    high: usize,
)
    requires
        slots.len() == HUES,
        low <= high,
        slots[(low % HUES) as int] != slots[(high % HUES) as int] || slots[(low
            % HUES) as int].is_none(),
    ensures
        resolved_profile(slots, low, high) == slots,
        high - low > 1 ==> resolved_queue(slots, queue, low, high) == queue.push(
            PendingRange { low, high },
        ),
        high - low <= 1 ==> resolved_queue(slots, queue, low, high) == queue,
{
}

/// A label that a judgment gives to a hue that was not asked is the colour
/// of the judgment, and both neighbours of that hue on the wheel carry the
/// same label: an inferred label never stands next to another colour.
pub proof fn lemma_inferred_between_equals(state: InterpolationState, color: Color, hue: int)
    requires
        state.wf(),
        state.target.is_some(),
        0 <= hue < HUES,
        hue != state.target.unwrap().hue,
        state.profile[hue].is_none(),
        state.step(color).profile[hue].is_some(),
    ensures
        state.step(color).profile[hue] == Some(color),
        state.step(color).profile[(hue + 1) % (HUES as int)] == Some(color),
        state.step(color).profile[(hue + HUES - 1) % (HUES as int)] == Some(color),
{
    let t = state.target.unwrap();
    let low = t.context.low;
    let high = t.context.high;
    let stored = state.profile.update(t.hue as int, Some(color));
    let left = resolved_profile(stored, low, t.hue);
    let done = resolved_profile(left, t.hue, high);
    assert(state.step(color).profile == done);
    assert(state.profile.len() == HUES && low <= t.hue < high <= HUES) by {
        reveal(InterpolationState::wf);
    }
    lemma_resolve_on_wheel(stored, low, t.hue);
    lemma_resolve_on_wheel(left, t.hue, high);
    assert(stored[hue].is_none());
    assert(stored[t.hue as int] == Some(color));
    assert(left[t.hue as int] == Some(color));
    if left[hue].is_some() {
        assert(low < hue < t.hue);
        assert(left[hue - 1] == Some(color));
        assert(left[hue + 1] == Some(color));
        assert(done[hue] == Some(color));
        assert(done[hue - 1] == Some(color));
        assert(done[hue + 1] == Some(color));
    } else {
        assert(t.hue < hue < high);
        assert(done[hue - 1] == Some(color));
        if hue + 1 < high {
            assert(done[hue + 1] == Some(color));
        } else {
            assert(left[(high % HUES) as int] == Some(color));
            assert(done[(high % HUES) as int] == Some(color));
        }
    }
}

/// On the wheel itself, resolving a range whose ends agree writes their
/// label to the hues from the lower bound up to the upper bound, which
/// changes no label of a hue outside the range; resolving any other range
/// writes nothing.
pub proof fn lemma_resolve_on_wheel(slots: Seq<Option<Color>>, low: usize, high: usize)
    requires
        slots.len() == HUES,
        low <= high <= HUES,
    ensures
        resolved_profile(slots, low, high).len() == HUES,
        !ends_agree(slots, low, high) ==> resolved_profile(slots, low, high) == slots,
        ends_agree(slots, low, high) ==> low < high && slots[low as int].is_some(),
        forall|h: int|
            0 <= h < HUES ==> #[trigger] resolved_profile(slots, low, high)[h] == if ends_agree(
                slots,
                low,
                high,
            ) && low <= h < high {
                slots[low as int]
            } else {
                slots[h]
            },
{
    assert forall|h: int| 0 <= h < HUES implies (in_run(low, high, h) <==> low <= h < high) by {
        lemma_run_within_wheel(low, high, h);
    }
}

/// The state after the judgments `answers`, given in turn.
pub open spec fn run(state: InterpolationState, answers: Seq<Color>) -> InterpolationState
    decreases answers.len(),
{
    if answers.len() == 0 {
        state
    } else {
        run(state.step(answers[0]), answers.drop_first())
    }
}

/// How many of the judgments `answers`, given in turn, answer a question:
/// those given while a target is pending.
pub open spec fn judgments(state: InterpolationState, answers: Seq<Color>) -> nat
    decreases answers.len(),
{
    if answers.len() == 0 {
        0
    } else {
        judgments(state.step(answers[0]), answers.drop_first()) + if state.target.is_some() {
            1nat
        } else {
            0nat
        }
    }
}

/// While a target is pending, a hue is still unlabeled.
pub proof fn lemma_pending_means_unlabeled(state: InterpolationState)
    requires
        state.wf(),
        state.target.is_some(),
    ensures
        labeled_count(state.profile) < HUES,
{
    reveal(InterpolationState::wf);
    let hue = state.target.unwrap().hue as int;
    let stored = state.profile.update(hue, Some(Color::Red));
    lemma_labeled_count_grows_strictly(state.profile, stored, hue);
    lemma_labeled_count_bound(stored);
}

/// Every run keeps the invariant and every label once given, and each
/// judgment that answers a question labels at least one more hue, so no
/// run asks more than 360 questions. A run of at least as many judgments
/// as hues were unlabeled ends with no target, an empty queue and every
/// hue labeled.
pub proof fn lemma_run(state: InterpolationState, answers: Seq<Color>)
    requires
        state.wf(),
    ensures
        run(state, answers).wf(),
        keeps_labels(state.profile, run(state, answers).profile),
        labeled_count(state.profile) + judgments(state, answers) <= labeled_count(
            run(state, answers).profile,
        ) <= HUES,
        judgments(state, answers) <= HUES,
        run(state, answers).target.is_some() ==> judgments(state, answers) == answers.len(),
        labeled_count(state.profile) + answers.len() >= HUES ==> {
            &&& run(state, answers).target.is_none()
            &&& run(state, answers).queue.len() == 0
            &&& all_labeled(run(state, answers).profile)
        },
    decreases answers.len(),
{
    lemma_labeled_count_bound(state.profile);
    lemma_closed_state(state);
    if answers.len() > 0 {
        let next = state.step(answers[0]);
        lemma_step_labels(state, answers[0]);
        lemma_run(next, answers.drop_first());
        if next.target.is_none() {
            lemma_run_without_target(next, answers.drop_first());
        }
    }
    lemma_labeled_count_bound(run(state, answers).profile);
    lemma_closed_state(run(state, answers));
}

/// A state that meets the invariant holds a profile of 360 slots. With a
/// target a hue is still unlabeled; without one the queue is empty and
/// every hue is labeled.
pub proof fn lemma_closed_state(state: InterpolationState)
    requires
        state.wf(),
    ensures
        state.profile.len() == HUES,
        state.target.is_some() ==> labeled_count(state.profile) < HUES,
        state.target.is_none() ==> state.queue.len() == 0 && all_labeled(state.profile),
{
    reveal(InterpolationState::wf);
    if state.target.is_some() {
        lemma_pending_means_unlabeled(state);
    }
}

/// A judgment keeps the invariant and every label, and one that answers a
/// question raises the number of labeled hues.
pub proof fn lemma_step_labels(state: InterpolationState, color: Color)
    requires
        state.wf(),
    ensures
        state.step(color).wf(),
        keeps_labels(state.profile, state.step(color).profile),
        state.target.is_some() ==> labeled_count(state.profile) < labeled_count(
            state.step(color).profile,
        ),
        state.target.is_none() ==> state.step(color) == state,
{
    reveal(InterpolationState::wf);
    lemma_step(state, color);
    if state.target.is_some() {
        lemma_labeled_count_grows_strictly(
            state.profile,
            state.step(color).profile,
            state.target.unwrap().hue as int,
        );
    }
}

/// Once no target is pending, further judgments change nothing.
pub proof fn lemma_run_without_target(state: InterpolationState, answers: Seq<Color>)
    requires
        state.target.is_none(),
    ensures
        run(state, answers) == state,
        judgments(state, answers) == 0,
    decreases answers.len(),
{
    if answers.len() > 0 {
        lemma_run_without_target(state, answers.drop_first());
    }
}

/// The hues that the judgments `answers`, given in turn, are asked for.
pub open spec fn asked(state: InterpolationState, answers: Seq<Color>) -> Set<int>
    decreases answers.len(),
{
    if answers.len() == 0 {
        Set::empty()
    } else {
        let later = asked(state.step(answers[0]), answers.drop_first());
        match state.target {
            Some(t) => later.insert(t.hue as int),
            None => later,
        }
    }
}

/// Whether every labeled hue outside `direct` carries the label of both
/// its neighbours on the wheel.
pub open spec fn inferred_between_equals(slots: Seq<Option<Color>>, direct: Set<int>) -> bool {
    forall|h: int|
        0 <= h < HUES && (#[trigger] slots[h]).is_some() && !direct.contains(h) ==> {
            &&& slots[(h + 1) % (HUES as int)] == slots[h]
            &&& slots[(h + HUES - 1) % (HUES as int)] == slots[h]
        }
}

/// Boundary exactness. Where every labeled hue that was not asked carries
/// the label of both its neighbours, the same holds after any run, with
/// the hues that the run asked counted as asked: two neighbours with
/// different labels were both asked.
pub proof fn lemma_run_boundaries(state: InterpolationState, answers: Seq<Color>, direct: Set<int>)
    requires
        state.wf(),
        inferred_between_equals(state.profile, direct),
    ensures
        inferred_between_equals(
            run(state, answers).profile,
            direct.union(asked(state, answers)),
        ),
    decreases answers.len(),
{
    if answers.len() == 0 {
        assert(direct.union(asked(state, answers)) =~= direct);
    } else {
        let next = state.step(answers[0]);
        lemma_step_labels(state, answers[0]);
        lemma_closed_state(state);
        match state.target {
            None => {
                lemma_run_boundaries(next, answers.drop_first(), direct);
            },
            Some(t) => {
                let wider = direct.insert(t.hue as int);
                assert forall|h: int|
                    0 <= h < HUES && (#[trigger] next.profile[h]).is_some() && !wider.contains(
                        h,
                    ) implies next.profile[(h + 1) % (HUES as int)] == next.profile[h]
                    && next.profile[(h + HUES - 1) % (HUES as int)] == next.profile[h] by {
                    if state.profile[h].is_some() {
                        assert(state.profile[(h + 1) % (HUES as int)] == state.profile[h]);
                        assert(state.profile[(h + HUES - 1) % (HUES as int)] == state.profile[h]);
                    } else {
                        lemma_inferred_between_equals(state, answers[0], h);
                    }
                }
                lemma_run_boundaries(next, answers.drop_first(), wider);
                assert(wider.union(asked(next, answers.drop_first())) =~= direct.union(
                    asked(state, answers),
                ));
            },
        }
    }
}

/// Of every run from the start: it asks at most 360 questions; once it has
/// been given 360 judgments no target is pending; when no target is pending
/// every hue is labeled and the queue is empty; and two neighbours on the
/// wheel that carry different labels were both asked.
pub proof fn lemma_every_run(answers: Seq<Color>)
    ensures
        run(InterpolationState::initial(), answers).wf(),
        judgments(InterpolationState::initial(), answers) <= HUES,
        answers.len() >= HUES ==> run(InterpolationState::initial(), answers).target.is_none(),
        run(InterpolationState::initial(), answers).target.is_none() ==> {
            &&& all_labeled(run(InterpolationState::initial(), answers).profile)
            &&& run(InterpolationState::initial(), answers).queue.len() == 0
        },
        inferred_between_equals(
            run(InterpolationState::initial(), answers).profile,
            asked(InterpolationState::initial(), answers),
        ),
{
    let start = InterpolationState::initial();
    lemma_initial_wf();
    lemma_run(start, answers);
    lemma_closed_state(run(start, answers));
    lemma_run_boundaries(start, answers, Set::empty());
    assert(Set::<int>::empty().union(asked(start, answers)) =~= asked(start, answers));
}

/// A sampler that bisects the wheel and fills a range by inference where
/// its two ends were given the same colour.
pub struct InterpolationSampler {
    profile: Profile,
    queue: WorkQueue,
    target: Option<Target>,
}

impl View for InterpolationSampler {
    type V = InterpolationState;

    closed spec fn view(&self) -> InterpolationState {
        InterpolationState { profile: self.profile@, queue: self.queue@, target: self.target }
    }
}

impl InterpolationSampler {
    /// The invariant of a run holds of the sampler's state.
    pub open spec fn wf(&self) -> bool {
        self@.wf()
    }

    /// A sampler at the start of a run: the first question is hue 0.
    pub fn new() -> (sampler: InterpolationSampler)
        ensures
            sampler@ == InterpolationState::initial(),
            sampler.wf(),
    {
        let sampler = InterpolationSampler {
            profile: Profile::new(),
            queue: WorkQueue::new(),
            target: Some(Target { hue: 0, context: PendingRange { low: 0, high: HUES } }),
        };
        proof {
            assert(sampler@.profile =~= InterpolationState::initial().profile);
            assert(sampler@ == InterpolationState::initial());
            lemma_initial_wf();
        }
        sampler
    }

    /// The hue to ask about, with the range that it was taken from; `None`
    /// when sampling is complete.
    pub fn get_current_target(&self) -> (target: Option<Target>)
        ensures
            target == self@.target,
    {
        self.target
    }

    /// Whether sampling is complete: no question is left, and every hue is
    /// labeled.
    pub fn is_complete(&self) -> (complete: bool)
        ensures
            complete == self@.target.is_none(),
            self.wf() && complete ==> all_labeled(self@.profile) && self@.queue.len() == 0,
    {
        proof {
            reveal(InterpolationState::wf);
        }
        self.target.is_none()
    }

    /// Takes the judgment `color` for the current target, resolves the
    /// ranges on both sides of the target, and returns the next target.
    /// A judgment given when no target is pending is ignored.
    pub fn submit_judgment(&mut self, color: Color) -> (next: Option<Target>)
        requires
            old(self).wf(),
        ensures
            final(self)@ == old(self)@.step(color),
            final(self).wf(),
            next == final(self)@.target,
            keeps_labels(old(self)@.profile, final(self)@.profile),
            old(self)@.target.is_some() ==> labeled_count(old(self)@.profile) < labeled_count(
                final(self)@.profile,
            ),
    {
        proof {
            reveal(InterpolationState::wf);
            lemma_step_labels(self@, color);
        }
        match self.target {
            None => None,
            Some(target) => {
                self.profile.set(target.hue, color);
                maybe_fill_or_queue(
                    &mut self.profile,
                    &mut self.queue,
                    target.context.low,
                    target.hue,
                );
                maybe_fill_or_queue(
                    &mut self.profile,
                    &mut self.queue,
                    target.hue,
                    target.context.high,
                );
                let next = advance(&mut self.queue);
                self.target = next;
                next
            },
        }
    }

    /// The profile as it stands: the 360 slots in ascending order of hue,
    /// each with its hue.
    pub fn get_profile(&self) -> (slots: Vec<(usize, Option<Color>)>)
        requires
            self.wf(),
        ensures
            slots@.len() == HUES,
            forall|h: int|
                0 <= h < HUES ==> (#[trigger] slots@[h]) == (h as usize, self@.profile[h]),
    {
        proof {
            reveal(InterpolationState::wf);
        }
        self.profile.all()
    }

    /// The pending ranges, in the order in which they will be bisected.
    pub fn pending_ranges(&self) -> (ranges: Vec<PendingRange>)
        ensures
            ranges@ == self@.queue,
    {
        self.queue.to_vec()
    }
}

} // verus!
