use vstd::prelude::*;
use crate::bisection::{BisectionSampler, BisectionState};
use crate::color::Color;
use crate::interpolation::{InterpolationSampler, InterpolationState};
use crate::profile::{keeps_labels, HUES};

verus! {

/// The way in which a sampler picks its questions and uses the answers.
#[derive(Clone, Copy, Debug, PartialEq, Eq, Hash, Structural)]
pub enum Strategy {
    /// Bisect every range; ask about every hue.
    Bisection,
    /// Bisect, and fill a range whose two ends were given the same colour.
    Interpolation,
}

/// A sampler of either strategy.
pub enum Sampler {
    Bisection(BisectionSampler),
    Interpolation(InterpolationSampler),
}

impl Sampler {
    /// The invariant of the strategy's run holds.
    pub open spec fn wf(&self) -> bool {
        match self {
            Sampler::Bisection(s) => s.wf(),
            Sampler::Interpolation(s) => s.wf(),
        }
    }

    /// The strategy of the sampler.
    pub open spec fn strategy_of(&self) -> Strategy {
        match self {
            Sampler::Bisection(_) => Strategy::Bisection,
            Sampler::Interpolation(_) => Strategy::Interpolation,
        }
    }

    /// The profile as the sampler holds it.
    pub open spec fn profile_of(&self) -> Seq<Option<Color>> {
        match self {
            Sampler::Bisection(s) => s@.profile,
            Sampler::Interpolation(s) => s@.profile,
        }
    }

    /// The hue that awaits a judgment, if any.
    pub open spec fn hue_of(&self) -> Option<usize> {
        match self {
            Sampler::Bisection(s) => s@.target,
            Sampler::Interpolation(s) => match s@.target {
                Some(t) => Some(t.hue),
                None => None,
            },
        }
    }

    /// A sampler of the given strategy at the start of a run.
    pub fn new(strategy: Strategy) -> (sampler: Sampler)
        ensures
            sampler.wf(),
            sampler.strategy_of() == strategy,
            sampler.hue_of() == Some(0usize),
            forall|h: int| 0 <= h < HUES ==> (#[trigger] sampler.profile_of()[h]).is_none(),
            match sampler {
                Sampler::Bisection(s) => s@ == BisectionState::initial(),
                Sampler::Interpolation(s) => s@ == InterpolationState::initial(),
            },
    {
        match strategy {
            Strategy::Bisection => Sampler::Bisection(BisectionSampler::new()),
            Strategy::Interpolation => Sampler::Interpolation(InterpolationSampler::new()),
        }
    }

    /// The strategy of the sampler.
    pub fn strategy(&self) -> (strategy: Strategy)
        ensures
            strategy == self.strategy_of(),
    {
        match self {
            Sampler::Bisection(_) => Strategy::Bisection,
            Sampler::Interpolation(_) => Strategy::Interpolation,
        }
    }

    /// The hue to ask about; `None` when sampling is complete.
    pub fn get_current_target(&self) -> (hue: Option<usize>)
        ensures
            hue == self.hue_of(),
    {
        match self {
            Sampler::Bisection(s) => s.get_current_target(),
            Sampler::Interpolation(s) => match s.get_current_target() {
                Some(t) => Some(t.hue),
                None => None,
            },
        }
    }

    /// Takes the judgment `color` for the current target, as the strategy
    /// says, and returns the next hue to ask about.
    pub fn submit_judgment(&mut self, color: Color) -> (next: Option<usize>)
        requires
            old(self).wf(),
        ensures
            final(self).wf(),
            final(self).strategy_of() == old(self).strategy_of(),
            next == final(self).hue_of(),
            match (*old(self), *final(self)) {
                (Sampler::Bisection(before), Sampler::Bisection(after)) => after@ == before@.step(
                    color,
                ),
                (Sampler::Interpolation(before), Sampler::Interpolation(after)) => after@
                    == before@.step(color),
                _ => false,
            },
            keeps_labels(old(self).profile_of(), final(self).profile_of()),
    {
        match self {
            Sampler::Bisection(s) => s.submit_judgment(color),
            Sampler::Interpolation(s) => match s.submit_judgment(color) {
                Some(t) => Some(t.hue),
                None => None,
            },
        }
    }

    /// The profile as it stands: the 360 slots in ascending order of hue,
    /// each with its hue.
    pub fn get_profile(&self) -> (slots: Vec<(usize, Option<Color>)>)
        requires
            self.wf(),
        ensures
            slots@.len() == HUES,
            forall|h: int|
                0 <= h < HUES ==> (#[trigger] slots@[h]) == (h as usize, self.profile_of()[h]),
    {
        match self {
            Sampler::Bisection(s) => s.get_profile(),
            Sampler::Interpolation(s) => s.get_profile(),
        }
    }
}

} // verus!
