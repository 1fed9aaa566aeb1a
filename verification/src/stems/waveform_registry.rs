//! Registries of per-stem waveform data, filled in as the stems of a song finish loading.
use vstd::prelude::*;
use crate::stems::constants::{StemType, spec_stem_index};

verus! {

/// Number of stems whose slot holds data.
pub open spec fn ready_in<T>(slots: Seq<Option<T>>) -> nat
    decreases slots.len(),
{
    if slots.len() == 0 {
        0
    } else {
        ready_in(slots.drop_last()) + if slots.last() is Some { 1nat } else { 0nat }
    }
}

/// Four empty slots.
pub open spec fn empty_slots<T>() -> Seq<Option<T>> {
    Seq::new(4, |i: int| None::<T>)
}

/// The waveform data of each stem, one slot per stem in display order.
pub struct WaveformRegistry<T> {
    stems: Vec<Option<T>>,
}

impl<T> View for WaveformRegistry<T> {
    type V = Seq<Option<T>>;

    /// The slot of each stem, by the stem's display index.
    closed spec fn view(&self) -> Seq<Option<T>> {
        self.stems@
    }
}

impl<T> WaveformRegistry<T> {
    /// There is one slot per stem.
    pub closed spec fn wf(&self) -> bool {
        self.stems@.len() == 4
    }

    /// An empty registry.
    pub fn new() -> (r: WaveformRegistry<T>)
        ensures
            r.wf(),
            r@ == empty_slots::<T>(),
    {
        let mut stems: Vec<Option<T>> = Vec::new();
        stems.push(None);
        stems.push(None);
        stems.push(None);
        stems.push(None);
        let r = WaveformRegistry { stems };
        assert(r@ =~= empty_slots::<T>());
        r
    }

    /// Stores the data of a stem, replacing what it held.
    pub fn set_waveform_data(&mut self, stem: StemType, data: T)
        requires
            old(self).wf(),
        ensures
            final(self).wf(),
            final(self)@ == old(self)@.update(spec_stem_index(stem) as int, Some(data)),
    {
        let i = stem.into_index();
        self.stems.set(i, Some(data));
    }

    /// The data of a stem, if it has any.
    pub fn get_waveform_data(&self, stem: StemType) -> (d: Option<&T>)
        requires
            self.wf(),
        ensures
            d is None <==> self@[spec_stem_index(stem) as int] is None,
            d matches Some(x) ==> self@[spec_stem_index(stem) as int] == Some(*x),
    {
        let i = stem.into_index();
        match &self.stems[i] {
            Some(x) => Some(x),
            None => None,
        }
    }

    /// Forgets the data of every stem.
    pub fn clear(&mut self)
        requires
            old(self).wf(),
        ensures
            final(self).wf(),
            final(self)@ == empty_slots::<T>(),
    {
        let mut stems: Vec<Option<T>> = Vec::new();
        stems.push(None);
        stems.push(None);
        stems.push(None);
        stems.push(None);
        self.stems = stems;
        assert(self@ =~= empty_slots::<T>());
    }

    /// Whether a stem has data.
    pub fn is_ready(&self, stem: StemType) -> (b: bool)
        requires
            self.wf(),
        ensures
            b == self@[spec_stem_index(stem) as int] is Some,
    {
        let i = stem.into_index();
        self.stems[i].is_some()
    }

    /// How many stems have data.
    pub fn ready_count(&self) -> (n: usize)
        requires
            self.wf(),
        ensures
            n == ready_in(self@),
    {
        let mut n: usize = 0;
        let mut i: usize = 0;
        while i < self.stems.len()
            invariant
                i <= self.stems@.len() == 4,
                n == ready_in(self.stems@.take(i as int)),
                n <= i,
            decreases self.stems.len() - i,
        {
            proof {
                assert(self.stems@.take(i + 1).drop_last() =~= self.stems@.take(i as int));
                assert(self.stems@.take(i + 1).last() == self.stems@[i as int]);
            }
            if self.stems[i].is_some() {
                n = n + 1;
            }
            i = i + 1;
        }
        assert(self.stems@.take(4) =~= self.stems@);
        n
    }
}

/// No slot holds data in an empty registry.
pub proof fn lemma_empty_has_none_ready<T>()
    ensures
        ready_in(empty_slots::<T>()) == 0,
{
    lemma_none_ready(empty_slots::<T>());
}

proof fn lemma_none_ready<T>(slots: Seq<Option<T>>)
    requires
        forall|i: int| 0 <= i < slots.len() ==> #[trigger] slots[i] is None,
    ensures
        ready_in(slots) == 0,
    decreases slots.len(),
{
    if slots.len() > 0 {
        let front = slots.drop_last();
        assert forall|i: int| 0 <= i < front.len() implies #[trigger] front[i] is None by {
            assert(front[i] == slots[i]);
        }
        lemma_none_ready(front);
        assert(slots.last() == slots[slots.len() - 1]);
    }
}

/// Storing data for a stem adds one ready stem when it had none, and leaves the count
/// unchanged otherwise; at most every slot is ready.
pub proof fn lemma_ready_after_set<T>(slots: Seq<Option<T>>, i: int, data: T)
    requires
        0 <= i < slots.len(),
    ensures
        ready_in(slots.update(i, Some(data))) == ready_in(slots) + if slots[i] is None {
            1nat
        } else {
            0nat
        },
        ready_in(slots) <= slots.len(),
    decreases slots.len(),
{
    let u = slots.update(i, Some(data));
    if i == slots.len() - 1 {
        assert(u.drop_last() =~= slots.drop_last());
        lemma_ready_bounded(slots);
    } else {
        lemma_ready_after_set(slots.drop_last(), i, data);
        assert(u.drop_last() =~= slots.drop_last().update(i, Some(data)));
    }
}

proof fn lemma_ready_bounded<T>(slots: Seq<Option<T>>)
    ensures
        ready_in(slots) <= slots.len(),
    decreases slots.len(),
{
    if slots.len() > 0 {
        lemma_ready_bounded(slots.drop_last());
    }
}

/// The peaks and beats of each stem as the interface draws them, with a counter of the
/// changes made, so that a view can tell when to draw again.
pub struct DisplayRegistry<T> {
    stems: WaveformRegistry<T>,
    epoch: u64,
}

impl<T> DisplayRegistry<T> {
    /// The slots of the stems.
    pub closed spec fn slots(&self) -> Seq<Option<T>> {
        self.stems@
    }

    /// The number of changes made, wrapping around at `u64::MAX`.
    pub closed spec fn changes(&self) -> u64 {
        self.epoch
    }

    /// There is one slot per stem.
    pub closed spec fn wf(&self) -> bool {
        self.stems.wf()
    }

    /// An empty registry with no change made.
    pub fn new() -> (r: DisplayRegistry<T>)
        ensures
            r.wf(),
            r.slots() == empty_slots::<T>(),
            r.changes() == 0,
    {
        DisplayRegistry { stems: WaveformRegistry::new(), epoch: 0 }
    }

    /// Stores the data of a stem and counts one change (wrapping at `u64::MAX`).
    pub fn set_stem_data(&mut self, stem: StemType, data: T)
        requires
            old(self).wf(),
        ensures
            final(self).wf(),
            final(self).slots() == old(self).slots().update(spec_stem_index(stem) as int, Some(data)),
            final(self).changes() == if old(self).changes() == u64::MAX {
                0
            } else {
                (old(self).changes() + 1) as u64
            },
    {
        self.stems.set_waveform_data(stem, data);
        self.epoch = if self.epoch == u64::MAX {
            0
        } else {
            self.epoch + 1
        };
    }

    /// The data of a stem, if it has any.
    pub fn get_stem(&self, stem: StemType) -> (d: Option<&T>)
        requires
            self.wf(),
        ensures
            d is None <==> self.slots()[spec_stem_index(stem) as int] is None,
            d matches Some(x) ==> self.slots()[spec_stem_index(stem) as int] == Some(*x),
    {
        self.stems.get_waveform_data(stem)
    }

    /// The number of changes made.
    pub fn epoch(&self) -> (e: u64)
        ensures
            e == self.changes(),
    {
        self.epoch
    }
}

} // verus!
