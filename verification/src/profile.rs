use vstd::prelude::*;
use crate::color::Color;

verus! {

/// The number of hues on the wheel.
pub const HUES: usize = 360;

/// The number of labeled slots among `slots`.
pub open spec fn labeled_count(slots: Seq<Option<Color>>) -> nat
    decreases slots.len(),
{
    if slots.len() == 0 {
        0
    } else {
        labeled_count(slots.drop_last()) + if slots.last().is_some() {
            1nat
        } else {
            0nat
        }
    }
}

/// Whether every slot of `slots` is labeled.
pub open spec fn all_labeled(slots: Seq<Option<Color>>) -> bool {
    forall|h: int| 0 <= h < slots.len() ==> (#[trigger] slots[h]).is_some()
}

/// Whether `after` keeps every label of `before`: the two have the same
/// length, and a slot that is labeled in `before` holds the same label in
/// `after`.
pub open spec fn keeps_labels(before: Seq<Option<Color>>, after: Seq<Option<Color>>) -> bool {
    &&& before.len() == after.len()
    &&& forall|h: int|
        0 <= h < before.len() && (#[trigger] before[h]).is_some() ==> after[h] == before[h]
}

/// No more slots are labeled than there are slots.
pub proof fn lemma_labeled_count_bound(slots: Seq<Option<Color>>)
    ensures
        labeled_count(slots) <= slots.len(),
    decreases slots.len(),
{
    if slots.len() > 0 {
        lemma_labeled_count_bound(slots.drop_last());
    }
}

/// Keeping every label does not lower the number of labeled slots.
pub proof fn lemma_labeled_count_grows(before: Seq<Option<Color>>, after: Seq<Option<Color>>)
    requires
        keeps_labels(before, after),
    ensures
        labeled_count(before) <= labeled_count(after),
    decreases before.len(),
{
    if before.len() > 0 {
        assert(before.last() == before[before.len() - 1]);
        assert(after.last() == after[after.len() - 1]);
        lemma_labeled_count_grows(before.drop_last(), after.drop_last());
    }
}

/// Keeping every label and labeling one more slot raises the number of
/// labeled slots.
pub proof fn lemma_labeled_count_grows_strictly(
    before: Seq<Option<Color>>,
    after: Seq<Option<Color>>,
    hue: int,
)
    requires
        keeps_labels(before, after),
        0 <= hue < before.len(),
        before[hue].is_none(),
        after[hue].is_some(),
    ensures
        labeled_count(before) < labeled_count(after),
    decreases before.len(),
{
    assert(before.last() == before[before.len() - 1]);
    assert(after.last() == after[after.len() - 1]);
    if hue == before.len() - 1 {
        lemma_labeled_count_grows(before.drop_last(), after.drop_last());
    } else {
        lemma_labeled_count_grows_strictly(before.drop_last(), after.drop_last(), hue);
    }
}

/// The colour profile: one slot for each hue of the wheel, unlabeled or
/// labeled with a colour.
pub struct Profile {
    slots: Vec<Option<Color>>,
}

impl View for Profile {
    type V = Seq<Option<Color>>;

    closed spec fn view(&self) -> Seq<Option<Color>> {
        self.slots@
    }
}

impl Profile {
    /// A profile has exactly one slot for each hue.
    pub open spec fn wf(&self) -> bool {
        self@.len() == HUES
    }

    /// A profile with every slot unlabeled.
    pub fn new() -> (profile: Profile)
        ensures
            profile.wf(),
            forall|h: int| 0 <= h < HUES ==> (#[trigger] profile@[h]).is_none(),
    {
        let mut slots: Vec<Option<Color>> = Vec::new();
        let mut h: usize = 0;
        while h < HUES
            invariant
                h <= HUES,
                slots@.len() == h,
                forall|k: int| 0 <= k < h ==> (#[trigger] slots@[k]).is_none(),
            decreases HUES - h,
        {
            slots.push(None);
            h += 1;
        }
        Profile { slots }
    }

    /// The label of a hue, if it has one.
    pub fn get(&self, hue: usize) -> (label: Option<Color>)
        requires
            self.wf(),
            hue < HUES,
        ensures
            label == self@[hue as int],
    {
        self.slots[hue]
    }

    /// Labels a hue. A label that the hue already had is replaced.
    pub fn set(&mut self, hue: usize, color: Color)
        requires
            old(self).wf(),
            hue < HUES,
        ensures
            final(self).wf(),
            final(self)@ == old(self)@.update(hue as int, Some(color)),
    {
        self.slots.set(hue, Some(color));
    }

    /// The slots in ascending order of hue, each with its hue.
    pub fn all(&self) -> (slots: Vec<(usize, Option<Color>)>)
        requires
            self.wf(),
        ensures
            slots@.len() == HUES,
            forall|h: int| 0 <= h < HUES ==> (#[trigger] slots@[h]) == (h as usize, self@[h]),
    {
        let mut slots: Vec<(usize, Option<Color>)> = Vec::new();
        let mut h: usize = 0;
        while h < HUES
            invariant
                self.wf(),
                h <= HUES,
                slots@.len() == h,
                forall|k: int| 0 <= k < h ==> (#[trigger] slots@[k]) == (k as usize, self@[k]),
            decreases HUES - h,
        {
            slots.push((h, self.slots[h]));
            h += 1;
        }
        slots
    }

    /// Whether no slot is left unlabeled.
    pub fn is_complete(&self) -> (complete: bool)
        requires
            self.wf(),
        ensures
            complete == all_labeled(self@),
    {
        let mut h: usize = 0;
        while h < HUES
            invariant
                self.wf(),
                h <= HUES,
                forall|k: int| 0 <= k < h ==> (#[trigger] self@[k]).is_some(),
            decreases HUES - h,
        {
            if self.slots[h].is_none() {
                return false;
            }
            h += 1;
        }
        true
    }
}

} // verus!
