//! Probe table of `PLANE * PLANES` slots whose slot numbers fit 32 bits.

use vstd::prelude::*;

use crate::probe::{
    first_free, home_slot, relocates, without_slot, Entry, ProbeError, ProbeTable, Removal,
};

verus! {

/// Two planes per index keep the load factor at or below one half.
pub const INDEX_PLANES: usize = 2;

#[derive(Debug)]
pub struct ProbeIndex<const PLANE: usize, const PLANES: usize> {
    table: ProbeTable,
}

/// Every slot of an index of this shape has a 32-bit number.
pub open spec fn planes_fit(plane: usize, planes: usize) -> bool {
    plane * planes <= u32::MAX
}

impl<const PLANE: usize, const PLANES: usize> View for ProbeIndex<PLANE, PLANES> {
    type V = Map<u64, usize>;

    closed spec fn view(&self) -> Map<u64, usize> {
        self.table@
    }
}

impl<const PLANE: usize, const PLANES: usize> ProbeIndex<PLANE, PLANES> {
    pub closed spec fn wf(&self) -> bool {
        &&& planes_fit(PLANE, PLANES)
        &&& self.table.wf()
        &&& self.table.capacity() == PLANE * PLANES
    }

    pub closed spec fn slot_of(&self, key: u64) -> int {
        self.table.slot_of(key)
    }

    pub closed spec fn full(&self) -> bool {
        self.table.full()
    }

    pub closed spec fn table(&self) -> ProbeTable {
        self.table
    }

    /// What every slot holds.
    pub open spec fn layout(&self) -> Seq<Option<Entry>> {
        self.table().layout()
    }

    pub proof fn lemma_wf(&self)
        requires
            self.wf(),
        ensures
            planes_fit(PLANE, PLANES),
            self.table().wf(),
            self.table().capacity() == PLANE * PLANES,
            self.table()@ == self@,
            self.full() == self.table().full(),
            forall|key: u64| #[trigger] self.slot_of(key) == self.table().slot_of(key),
    {
    }

    /// An index whose handles are distinct and drawn from a range smaller than
    /// the index has an empty slot.
    pub proof fn lemma_spare(&self, bound: int)
        requires
            self.wf(),
            0 <= bound < PLANE * PLANES,
            forall|key: u64|
                #![trigger self@[key]]
                self@.contains_key(key) ==> self@[key] < bound,
            forall|a: u64, b: u64|
                #![trigger self@[a], self@[b]]
                self@.contains_key(a) && self@.contains_key(b) && self@[a] == self@[b] ==> a == b,
        ensures
            !self.full(),
    {
        let table = self.table;
        assert forall|key: u64| #![trigger table@[key]] table@.contains_key(key) implies 0
            <= table@[key] < bound by {
            assert(self@[key] == table@[key]);
        }
        assert forall|a: u64, b: u64|
            #![trigger table@[a], table@[b]]
            table@.contains_key(a) && table@.contains_key(b) && table@[a] == table@[b] implies a
            == b by {
            assert(self@[a] == table@[a] && self@[b] == table@[b]);
        }
        table.lemma_spare(0, bound);
    }

    pub fn new() -> (index: Self)
        requires
            planes_fit(PLANE, PLANES),
        ensures
            index.wf(),
            index@ == Map::<u64, usize>::empty(),
            index.layout() == Seq::new((PLANE * PLANES) as nat, |p: int| None::<Entry>),
    {
        ProbeIndex { table: ProbeTable::new(PLANE * PLANES) }
    }

    pub fn lookup(&self, key: u64) -> (value: Option<usize>)
        requires
            self.wf(),
        ensures
            value is Some <==> self@.contains_key(key),
            value is Some ==> value->0 == self@[key],
    {
        self.table.lookup(key)
    }

    /// Indexes `key`. The handle `usize::MAX` is reserved and never fits.
    pub fn insert(&mut self, key: u64, value: usize) -> (outcome: Result<u32, ProbeError>)
        requires
            old(self).wf(),
        ensures
            final(self).wf(),
            outcome is Err ==> *final(self) == *old(self),
            outcome is Ok <==> value < usize::MAX && !old(self)@.contains_key(key)
                && !old(self).full(),
            outcome == Err::<u32, _>(ProbeError::Duplicate) <==> old(self)@.contains_key(key)
                && value < usize::MAX,
            outcome == Err::<u32, _>(ProbeError::Full) <==> value == usize::MAX || (!old(
                self)@.contains_key(key) && old(self).full()),
            outcome is Ok ==> {
                &&& first_free(old(self).layout(), key, outcome->Ok_0 as int)
                &&& final(self).layout() == old(self).layout().update(
                    outcome->Ok_0 as int,
                    Some(Entry { key, value }),
                )
                &&& final(self)@ == old(self)@.insert(key, value)
                &&& final(self).slot_of(key) == outcome->Ok_0
                &&& forall|other: u64|
                    old(self)@.contains_key(other) ==> final(self).slot_of(other) == #[trigger] old(
                        self).slot_of(other)
            },
    {
        if value == usize::MAX {
            return Err(ProbeError::Full);
        }
        match self.table.insert(key, value) {
            Ok(slot) => {
                assert forall|other: u64| old(self)@.contains_key(other) implies self.slot_of(other)
                    == #[trigger] old(self).slot_of(other) by {
                    assert(self.table.slot_of(other) == old(self).table.slot_of(other));
                }
                Ok(slot as u32)
            },
            Err(error) => Err(error),
        }
    }

    /// Removes `key` at `slot` and closes the probe hole. A stale handle
    /// removes nothing.
    pub fn remove_at(&mut self, slot: u32, key: u64) -> (removed: Option<Removal>)
        requires
            old(self).wf(),
            !old(self).full(),
        ensures
            final(self).wf(),
            !final(self).full(),
            removed is Some <==> old(self)@.contains_key(key) && old(self).slot_of(key) == slot,
            removed is None ==> *final(self) == *old(self),
            removed is Some ==> {
                &&& removed->0.value == old(self)@[key]
                &&& final(self).layout() == without_slot(old(self).layout(), slot as int).slots
                &&& removed->0.moves@ == without_slot(old(self).layout(), slot as int).moves
                &&& final(self)@ == old(self)@.remove(key)
                &&& relocates(
                    old(self).table(),
                    final(self).table(),
                    key,
                    removed->0.moves@,
                )
            },
    {
        self.table.remove_at(slot as usize, key)
    }

    /// The slot at which the probe for `key` begins.
    pub fn probe_start(&self, key: u64) -> (start: usize)
        requires
            self.wf(),
            PLANE * PLANES > 0,
        ensures
            start == home_slot(PLANE * PLANES, key),
    {
        self.table.probe_start(key)
    }
}

} // verus!
