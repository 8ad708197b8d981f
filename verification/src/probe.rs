//! Open-addressed index from 64-bit keys to handles, with linear probing and
//! back-shift deletion: removing an entry moves displaced successors into the
//! hole, so the table never holds tombstones.

use vstd::prelude::*;

verus! {

/// Multiplier that spreads keys over the table.
pub const KEY_MIX: u64 = 0x9e37_79b9_7f4a_7c15;

#[derive(Clone, Copy, Debug, PartialEq, Eq, Structural)]
pub struct Entry {
    pub key: u64,
    pub value: usize,
}

/// An entry that back-shift deletion carried to another slot.
#[derive(Clone, Copy, Debug, PartialEq, Eq, Structural)]
pub struct Relocation {
    pub key: u64,
    pub value: usize,
    pub slot: usize,
}

/// What a removal hands back: the removed handle, and every entry that moved.
#[derive(Debug)]
pub struct Removal {
    pub value: usize,
    pub moves: Vec<Relocation>,
}

#[derive(Clone, Copy, Debug, PartialEq, Eq, Structural)]
pub enum ProbeError {
    Duplicate,
    Full,
}

#[derive(Debug)]
pub struct ProbeTable {
    slots: Vec<Option<Entry>>,
}

/// Forward distance from `home` to `current` on a ring of `capacity` slots.
pub open spec fn distance(capacity: int, home: int, current: int) -> int {
    if current >= home {
        current - home
    } else {
        capacity - (home - current)
    }
}

/// The slot at which the probe for `key` begins.
pub open spec fn home_slot(capacity: int, key: u64) -> int {
    (key.wrapping_mul(KEY_MIX) as int) % capacity
}

pub open spec fn holds(slots: Seq<Option<Entry>>, slot: int, key: u64) -> bool {
    &&& 0 <= slot < slots.len()
    &&& slots[slot] is Some
    &&& slots[slot]->0.key == key
}

pub open spec fn has_key(slots: Seq<Option<Entry>>, key: u64) -> bool {
    exists|slot: int| holds(slots, slot, key)
}

pub open spec fn key_slot(slots: Seq<Option<Entry>>, key: u64) -> int {
    choose|slot: int| holds(slots, slot, key)
}

/// Keys are unique.
pub open spec fn distinct_keys(slots: Seq<Option<Entry>>) -> bool {
    forall|p: int, q: int|
        0 <= p < slots.len() && 0 <= q < slots.len() && (#[trigger] slots[p]) is Some
            && (#[trigger] slots[q]) is Some && slots[p]->0.key == slots[q]->0.key ==> p == q
}

/// No probe meets an empty slot before it meets the entry it looks for.
pub open spec fn reachable(slots: Seq<Option<Entry>>) -> bool {
    forall|p: int, x: int|
        0 <= p < slots.len() && 0 <= x < slots.len() && (#[trigger] slots[p]) is Some
            && between(slots, p, x) ==> (#[trigger] slots[x]) is Some
}

/// `x` lies on the probe path of the entry at `p`, before `p`.
pub open spec fn between(slots: Seq<Option<Entry>>, p: int, x: int) -> bool {
    let home = home_slot(slots.len() as int, slots[p]->0.key);
    distance(slots.len() as int, home, x) < distance(slots.len() as int, home, p)
}

/// The first empty slot on the probe path of `key`.
pub open spec fn first_free(slots: Seq<Option<Entry>>, key: u64, slot: int) -> bool {
    let capacity = slots.len() as int;
    let home = home_slot(capacity, key);
    &&& 0 <= slot < capacity
    &&& slots[slot] is None
    &&& forall|x: int|
        0 <= x < capacity && distance(capacity, home, x) < distance(capacity, home, slot) ==> (
        #[trigger] slots[x]) is Some
}

/// The slot behind another on a ring of `capacity` slots.
pub open spec fn next_slot(capacity: int, slot: int) -> int {
    if slot + 1 == capacity {
        0
    } else {
        slot + 1
    }
}

/// The slots once a hole is closed, and the entries that moved for it, in order.
pub struct Closed {
    pub slots: Seq<Option<Entry>>,
    pub moves: Seq<Relocation>,
}

/// Closes a hole: of the entries from `candidate` on, up to the first empty slot,
/// each whose probe path leads through the hole moves into it, and leaves a hole
/// of its own. The last hole stays empty. `steps` slots are looked at.
pub open spec fn closed_hole(
    slots: Seq<Option<Entry>>,
    hole: int,
    candidate: int,
    steps: nat,
) -> Closed
    decreases steps,
{
    let capacity = slots.len() as int;
    if steps == 0 || slots[candidate] is None {
        Closed { slots: slots.update(hole, None), moves: Seq::empty() }
    } else {
        let entry = slots[candidate]->0;
        let home = home_slot(capacity, entry.key);
        let next = next_slot(capacity, candidate);
        if distance(capacity, home, hole) < distance(capacity, home, candidate) {
            let rest = closed_hole(
                slots.update(hole, Some(entry)),
                candidate,
                next,
                (steps - 1) as nat,
            );
            Closed {
                slots: rest.slots,
                moves: seq![
                    Relocation { key: entry.key, value: entry.value, slot: hole as usize },
                ] + rest.moves,
            }
        } else {
            closed_hole(slots, hole, next, (steps - 1) as nat)
        }
    }
}

/// The slots once the entry at `slot` is removed and its hole closed.
pub open spec fn without_slot(slots: Seq<Option<Entry>>, slot: int) -> Closed {
    closed_hole(slots, slot, next_slot(slots.len() as int, slot), slots.len())
}

proof fn lemma_home_in_range(capacity: int, key: u64)
    requires
        capacity > 0,
    ensures
        0 <= home_slot(capacity, key) < capacity,
{
    vstd::arithmetic::div_mod::lemma_mod_bound(key.wrapping_mul(KEY_MIX) as int, capacity);
}

impl View for ProbeTable {
    type V = Map<u64, usize>;

    /// The handle of every indexed key.
    closed spec fn view(&self) -> Map<u64, usize> {
        Map::new(
            |key: u64| has_key(self.slots@, key),
            |key: u64| self.slots@[key_slot(self.slots@, key)]->0.value,
        )
    }
}

impl ProbeTable {
    pub closed spec fn wf(&self) -> bool {
        &&& distinct_keys(self.slots@)
        &&& reachable(self.slots@)
    }

    pub closed spec fn capacity(&self) -> nat {
        self.slots@.len()
    }

    /// What every slot holds.
    pub closed spec fn layout(&self) -> Seq<Option<Entry>> {
        self.slots@
    }

    /// The table is what its slots hold.
    pub proof fn law_layout(&self)
        ensures
            self.capacity() == self.layout().len(),
            forall|key: u64| #[trigger] self@.contains_key(key) <==> has_key(self.layout(), key),
            forall|key: u64| #[trigger]
                self@.contains_key(key) ==> self@[key] == self.layout()[self.slot_of(
                    key,
                )]->0.value,
            forall|key: u64| #[trigger] self.slot_of(key) == key_slot(self.layout(), key),
            self.full() <==> forall|p: int|
                0 <= p < self.layout().len() ==> (#[trigger] self.layout()[p]) is Some,
            self.wf() ==> distinct_keys(self.layout()) && reachable(self.layout()),
    {
    }

    /// The slot that holds `key`.
    pub closed spec fn slot_of(&self, key: u64) -> int {
        key_slot(self.slots@, key)
    }

    pub closed spec fn full(&self) -> bool {
        forall|p: int| 0 <= p < self.slots@.len() ==> (#[trigger] self.slots@[p]) is Some
    }

    pub closed spec fn occupied(&self, slot: int) -> bool {
        0 <= slot < self.slots@.len() && self.slots@[slot] is Some
    }

    pub closed spec fn key_at(&self, slot: int) -> u64 {
        self.slots@[slot]->0.key
    }

    /// The slot of an indexed key holds that key, and nothing else does.
    pub proof fn lemma_slot_of(&self, key: u64)
        requires
            self.wf(),
            self@.contains_key(key),
        ensures
            0 <= self.slot_of(key) < self.capacity(),
            self.occupied(self.slot_of(key)),
            self.key_at(self.slot_of(key)) == key,
    {
        let slot = choose|slot: int| holds(self.slots@, slot, key);
        assert(holds(self.slots@, slot, key));
    }

    pub proof fn lemma_occupied(&self, slot: int)
        requires
            self.wf(),
            self.occupied(slot),
        ensures
            self@.contains_key(self.key_at(slot)),
            self.slot_of(self.key_at(slot)) == slot,
    {
        let key = self.key_at(slot);
        assert(holds(self.slots@, slot, key));
        let found = choose|slot: int| holds(self.slots@, slot, key);
        assert(holds(self.slots@, found, key));
    }

    pub proof fn lemma_full(&self)
        ensures
            self.full() <==> forall|p: int| 0 <= p < self.capacity() ==> #[trigger] self.occupied(p),
    {
        if forall|p: int| 0 <= p < self.capacity() ==> #[trigger] self.occupied(p) {
            assert forall|p: int| 0 <= p < self.slots@.len() implies (#[trigger] self.slots@[p]) is Some by {
                assert(self.occupied(p));
            }
        }
    }

    /// A table whose handles are distinct and drawn from a range smaller than
    /// the table has an empty slot.
    pub proof fn lemma_spare(&self, low: int, high: int)
        requires
            self.wf(),
            low <= high,
            high - low < self.capacity(),
            forall|key: u64|
                #![trigger self@[key]]
                self@.contains_key(key) ==> low <= self@[key] < high,
            forall|a: u64, b: u64|
                #![trigger self@[a], self@[b]]
                self@.contains_key(a) && self@.contains_key(b) && self@[a] == self@[b] ==> a == b,
        ensures
            !self.full(),
    {
        if self.full() {
            self.lemma_full();
            let values = Seq::new(self.capacity(), |p: int| self@[self.key_at(p)] as int);
            assert(values.no_duplicates()) by {
                assert forall|p: int, q: int|
                    0 <= p < values.len() && 0 <= q < values.len() && p != q implies values[p]
                    != values[q] by {
                    assert(self.occupied(p) && self.occupied(q));
                    self.lemma_occupied(p);
                    self.lemma_occupied(q);
                    assert(self.key_at(p) != self.key_at(q));
                }
            }
            let range = vstd::set_lib::set_int_range(low, high);
            vstd::set_lib::lemma_int_range(low, high);
            values.unique_seq_to_set();
            assert(values.to_set().subset_of(range)) by {
                assert forall|value: int| values.to_set().contains(value) implies range.contains(
                    value,
                ) by {
                    let p = choose|p: int| 0 <= p < values.len() && values[p] == value;
                    assert(self.occupied(p));
                    self.lemma_occupied(p);
                }
            }
            vstd::set_lib::lemma_len_subset(values.to_set(), range);
        }
    }

    pub fn new(capacity: usize) -> (table: Self)
        ensures
            table.wf(),
            table.capacity() == capacity,
            table@ == Map::<u64, usize>::empty(),
            table.layout() == Seq::new(capacity as nat, |p: int| None::<Entry>),
    {
        let mut slots: Vec<Option<Entry>> = Vec::new();
        while slots.len() < capacity
            invariant
                slots.len() <= capacity,
                forall|p: int| 0 <= p < slots@.len() ==> (#[trigger] slots@[p]) is None,
            decreases capacity - slots.len(),
        {
            slots.push(None);
        }
        let table = ProbeTable { slots };
        assert(table@ =~= Map::<u64, usize>::empty());
        assert(table.layout() =~= Seq::new(capacity as nat, |p: int| None::<Entry>));
        table
    }

    pub fn probe_start(&self, key: u64) -> (start: usize)
        requires
            self.capacity() > 0,
        ensures
            start == home_slot(self.capacity() as int, key),
            start < self.capacity(),
    {
        proof {
            lemma_home_in_range(self.capacity() as int, key);
        }
        (key.wrapping_mul(KEY_MIX) % (self.slots.len() as u64)) as usize
    }

    fn probe_distance(&self, home: usize, current: usize) -> (steps: usize)
        requires
            home < self.capacity(),
            current < self.capacity(),
        ensures
            steps == distance(self.capacity() as int, home as int, current as int),
    {
        if current >= home {
            current - home
        } else {
            self.slots.len() - (home - current)
        }
    }

    fn successor(&self, slot: usize) -> (next: usize)
        requires
            slot < self.capacity(),
        ensures
            next == next_slot(self.capacity() as int, slot as int),
            next < self.capacity(),
    {
        if slot == self.slots.len() - 1 {
            0
        } else {
            slot + 1
        }
    }

    /// The slot that holds `key`, if it is indexed.
    pub fn find_slot(&self, key: u64) -> (found: Option<usize>)
        requires
            self.wf(),
        ensures
            found is Some <==> self@.contains_key(key),
            found is Some ==> found->0 == self.slot_of(key) && found->0 < self.capacity(),
    {
        let capacity: usize = self.slots.len();
        if capacity == 0 {
            return None;
        }
        let start: usize = self.probe_start(key);
        let mut offset: usize = 0;
        let mut slot: usize = start;
        while offset < capacity
            invariant
                self.wf(),
                capacity == self.slots@.len(),
                capacity > 0,
                start == home_slot(capacity as int, key),
                start < capacity,
                offset <= capacity,
                slot < capacity,
                offset < capacity ==> distance(capacity as int, start as int, slot as int) == offset,
                forall|x: int|
                    0 <= x < capacity && distance(capacity as int, start as int, x) < offset ==> (
                    #[trigger] self.slots@[x]) is Some && self.slots@[x]->0.key != key,
            decreases capacity - offset,
        {
            match self.slots[slot] {
                None => {
                    assert forall|p: int| !holds(self.slots@, p, key) by {
                        if holds(self.slots@, p, key) {
                            assert(self.slots@[p] is Some);
                            if distance(capacity as int, start as int, p) > offset {
                                assert(between(self.slots@, p, slot as int));
                                assert(self.slots@[slot as int] is Some);
                            }
                        }
                    }
                    return None;
                },
                Some(entry) => {
                    if entry.key == key {
                        assert(holds(self.slots@, slot as int, key));
                        proof {
                            self.lemma_occupied(slot as int);
                        }
                        return Some(slot);
                    }
                },
            }
            slot = self.successor(slot);
            offset = offset + 1;
        }
        assert forall|p: int| !holds(self.slots@, p, key) by {
            if holds(self.slots@, p, key) {
                assert(self.slots@[p] is Some);
                assert(distance(capacity as int, start as int, p) < offset);
            }
        }
        None
    }

    /// The handle of `key`, if it is indexed.
    pub fn lookup(&self, key: u64) -> (value: Option<usize>)
        requires
            self.wf(),
        ensures
            value is Some <==> self@.contains_key(key),
            value is Some ==> value->0 == self@[key],
    {
        match self.find_slot(key) {
            None => None,
            Some(slot) => {
                proof {
                    self.lemma_slot_of(key);
                }
                match self.slots[slot] {
                    None => None,
                    Some(entry) => Some(entry.value),
                }
            },
        }
    }

    pub fn entry(&self, slot: usize) -> (entry: Option<Entry>)
        requires
            self.wf(),
            slot < self.capacity(),
        ensures
            entry is Some <==> self.occupied(slot as int),
            entry is Some ==> entry->0.key == self.key_at(slot as int) && self@.contains_key(
                entry->0.key,
            ) && self@[entry->0.key] == entry->0.value,
    {
        proof {
            if self.occupied(slot as int) {
                self.lemma_occupied(slot as int);
            }
        }
        self.slots[slot]
    }

    /// Indexes `key`, taking the first empty slot of its probe path.
    pub fn insert(&mut self, key: u64, value: usize) -> (outcome: Result<usize, ProbeError>)
        requires
            old(self).wf(),
        ensures
            final(self).wf(),
            final(self).capacity() == old(self).capacity(),
            outcome is Ok <==> !old(self)@.contains_key(key) && !old(self).full(),
            outcome == Err::<usize, _>(ProbeError::Duplicate) <==> old(self)@.contains_key(key),
            outcome == Err::<usize, _>(ProbeError::Full) <==> !old(self)@.contains_key(key)
                && old(self).full(),
            outcome is Err ==> *final(self) == *old(self),
            outcome is Ok ==> {
                &&& outcome->Ok_0 < final(self).capacity()
                &&& first_free(old(self).layout(), key, outcome->Ok_0 as int)
                &&& final(self).layout() == old(self).layout().update(
                    outcome->Ok_0 as int,
                    Some(Entry { key, value }),
                )
                &&& final(self)@ == old(self)@.insert(key, value)
                &&& final(self).slot_of(key) == outcome->Ok_0
                &&& forall|other: u64|
                    old(self)@.contains_key(other) ==> final(self).slot_of(other) == #[trigger] old(
                        self,
                    ).slot_of(other)
            },
    {
        let capacity: usize = self.slots.len();
        if capacity == 0 {
            assert forall|p: int| !holds(self.slots@, p, key) by {}
            return Err(ProbeError::Full);
        }
        let start: usize = self.probe_start(key);
        let mut offset: usize = 0;
        let mut slot: usize = start;
        while offset < capacity
            invariant
                self.wf(),
                *self == *old(self),
                capacity == self.slots@.len(),
                capacity > 0,
                start == home_slot(capacity as int, key),
                start < capacity,
                offset <= capacity,
                slot < capacity,
                offset < capacity ==> distance(capacity as int, start as int, slot as int) == offset,
                forall|x: int|
                    0 <= x < capacity && distance(capacity as int, start as int, x) < offset ==> (
                    #[trigger] self.slots@[x]) is Some && self.slots@[x]->0.key != key,
            decreases capacity - offset,
        {
            match self.slots[slot] {
                None => {
                    proof {
                        lemma_insert(self.slots@, slot as int, Entry { key, value });
                    }
                    let ghost before = self.slots@;
                    self.slots.set(slot, Some(Entry { key, value }));
                    assert(!old(self).full()) by {
                        assert(before[slot as int] is None);
                    }
                    assert(self@ =~= old(self)@.insert(key, value)) by {
                        assert forall|k: u64| has_key(self.slots@, k) == (k == key || has_key(
                            before,
                            k,
                        )) by {
                            if has_key(before, k) {
                                assert(holds(before, key_slot(before, k), k));
                            }
                        }
                    }
                    return Ok(slot);
                },
                Some(entry) => {
                    if entry.key == key {
                        assert(holds(self.slots@, slot as int, key));
                        return Err(ProbeError::Duplicate);
                    }
                },
            }
            slot = self.successor(slot);
            offset = offset + 1;
        }
        assert forall|p: int| !holds(self.slots@, p, key) by {
            if holds(self.slots@, p, key) {
                assert(self.slots@[p] is Some);
                assert(distance(capacity as int, start as int, p) < offset);
            }
        }
        assert(self.full()) by {
            assert forall|p: int| 0 <= p < self.slots@.len() implies (#[trigger] self.slots@[p]) is Some by {
                assert(distance(capacity as int, start as int, p) < offset);
            }
        }
        Err(ProbeError::Full)
    }

    /// Removes `key` at `slot` and closes the probe hole by shifting displaced
    /// entries back. A stale handle removes nothing.
    pub fn remove_at(&mut self, slot: usize, key: u64) -> (removed: Option<Removal>)
        requires
            old(self).wf(),
            !old(self).full(),
        ensures
            final(self).wf(),
            final(self).capacity() == old(self).capacity(),
            !final(self).full(),
            removed is Some <==> old(self)@.contains_key(key) && old(self).slot_of(key) == slot,
            removed is None ==> *final(self) == *old(self),
            removed is Some ==> {
                let moves = removed->0.moves@;
                &&& removed->0.value == old(self)@[key]
                &&& final(self).layout() == without_slot(old(self).layout(), slot as int).slots
                &&& moves == without_slot(old(self).layout(), slot as int).moves
                &&& final(self)@ == old(self)@.remove(key)
                &&& relocates(*old(self), *final(self), key, moves)
            },
    {
        let capacity: usize = self.slots.len();
        if slot >= capacity {
            proof {
                if self@.contains_key(key) {
                    self.lemma_slot_of(key);
                }
            }
            return None;
        }
        let value: usize = match self.slots[slot] {
            None => {
                proof {
                    if self@.contains_key(key) {
                        self.lemma_slot_of(key);
                    }
                }
                return None;
            },
            Some(entry) => {
                if entry.key != key {
                    proof {
                        if self@.contains_key(key) {
                            self.lemma_slot_of(key);
                        }
                    }
                    return None;
                }
                entry.value
            },
        };
        proof {
            self.lemma_occupied(slot as int);
        }
        let ghost before = self.slots@;
        let ghost empty = choose|p: int| 0 <= p < before.len() && before[p] is None;
        assert(0 <= empty < before.len() && before[empty] is None);
        let mut moves: Vec<Relocation> = Vec::new();
        let mut hole: usize = slot;
        let mut candidate: usize = self.successor(slot);
        let ghost mut reach = distance(capacity as int, empty, slot as int) + 1;
        let ghost mut steps = capacity as nat;
        let ghost goal = without_slot(before, slot as int);
        proof {
            assert(moves@ + goal.moves =~= goal.moves);
            lemma_open_hole(before, slot as int, key, empty);
        }
        loop
            invariant_except_break
                capacity == self.slots@.len(),
                before.len() == capacity,
                distinct_keys(before),
                reachable(before),
                holds(before, slot as int, key),
                before[empty] is None,
                0 <= empty < capacity,
                hole < capacity,
                candidate < capacity,
                candidate != empty ==> reach == distance(capacity as int, empty, candidate as int),
                candidate == empty ==> reach == capacity,
                0 < reach <= capacity,
                steps + reach > capacity,
                goal.slots == closed_hole(
                    self.slots@,
                    hole as int,
                    candidate as int,
                    steps,
                ).slots,
                goal.moves == moves@ + closed_hole(
                    self.slots@,
                    hole as int,
                    candidate as int,
                    steps,
                ).moves,
                shifting(self.slots@.update(hole as int, None), hole as int, empty, reach),
                carried(
                    before,
                    self.slots@.update(hole as int, None),
                    key,
                    moves@,
                    hole as int,
                    empty,
                ),
            ensures
                capacity == self.slots@.len(),
                hole < capacity,
                goal.slots == self.slots@.update(hole as int, None),
                goal.moves == moves@,
                distinct_keys(self.slots@.update(hole as int, None)),
                reachable(self.slots@.update(hole as int, None)),
                carried(
                    before,
                    self.slots@.update(hole as int, None),
                    key,
                    moves@,
                    hole as int,
                    empty,
                ),
            decreases capacity - reach,
        {
            let ghost table = self.slots@.update(hole as int, None);
            assert(table[candidate as int] == self.slots@[candidate as int]);
            match self.slots[candidate] {
                None => {
                    proof {
                        lemma_close_hole(table, hole as int, candidate as int, empty, reach);
                        assert(moves@ + Seq::<Relocation>::empty() =~= moves@);
                    }
                    break ;
                },
                Some(entry) => {
                    let home: usize = self.probe_start(entry.key);
                    if self.probe_distance(home, hole) < self.probe_distance(home, candidate) {
                        proof {
                            lemma_shift(
                                before,
                                table,
                                key,
                                moves@,
                                hole as int,
                                candidate as int,
                                empty,
                                reach,
                            );
                        }
                        let ghost rest = closed_hole(
                            self.slots@.update(hole as int, Some(entry)),
                            candidate as int,
                            next_slot(capacity as int, candidate as int),
                            (steps - 1) as nat,
                        );
                        assert(moves@ + (seq![
                            Relocation { key: entry.key, value: entry.value, slot: hole },
                        ] + rest.moves) =~= moves@.push(
                            Relocation { key: entry.key, value: entry.value, slot: hole },
                        ) + rest.moves);
                        self.slots.set(hole, Some(entry));
                        moves.push(Relocation { key: entry.key, value: entry.value, slot: hole });
                        assert(self.slots@.update(candidate as int, None) =~= table.update(
                            hole as int,
                            Some(entry),
                        ).update(candidate as int, None));
                        hole = candidate;
                    } else {
                        proof {
                            lemma_keep(table, hole as int, candidate as int, empty, reach);
                        }
                    }
                },
            }
            candidate = self.successor(candidate);
            proof {
                reach = reach + 1;
                steps = (steps - 1) as nat;
            }
        }
        self.slots.set(hole, None);
        proof {
            lemma_removed(before, self.slots@, key, moves@, hole as int, empty);
        }
        assert(self.slots@[hole as int] is None);
        assert(self@ =~= old(self)@.remove(key)) by {
            assert forall|k: u64| k != key && #[trigger] has_key(before, k) implies has_key(
                self.slots@,
                k,
            ) && self.slots@[key_slot(self.slots@, k)]->0.value == before[key_slot(
                before,
                k,
            )]->0.value by {}
        }
        Some(Removal { value, moves })
    }
}

/// Ring position of `x` as seen from the empty slot, so that a walk which
/// stops at that slot never wraps.
spec fn from_empty(capacity: int, empty: int, x: int) -> int {
    distance(capacity, empty, x)
}

/// The state of a deletion whose hole is `hole` and which has examined every
/// slot up to ring position `reach`: examined entries no longer depend on the
/// hole, the others may still pass through it.
spec fn shifting(table: Seq<Option<Entry>>, hole: int, empty: int, reach: int) -> bool {
    let capacity = table.len() as int;
    &&& 0 <= hole < capacity
    &&& 0 <= empty < capacity
    &&& hole != empty
    &&& table[hole] is None
    &&& table[empty] is None
    &&& from_empty(capacity, empty, hole) < reach <= capacity
    &&& distinct_keys(table)
    &&& forall|p: int, x: int|
        0 <= p < capacity && 0 <= x < capacity && (#[trigger] table[p]) is Some && between(table, p, x)
            ==> (#[trigger] table[x]) is Some || x == hole
    &&& forall|p: int|
        0 <= p < capacity && from_empty(capacity, empty, hole) < from_empty(capacity, empty, p) < reach
            ==> (#[trigger] table[p]) is Some && !between(table, p, hole)
}

/// The table holds what it held at first, but for the removed key, with the
/// entries named in `moves` carried elsewhere.
spec fn carried(
    before: Seq<Option<Entry>>,
    table: Seq<Option<Entry>>,
    key: u64,
    moves: Seq<Relocation>,
    hole: int,
    empty: int,
) -> bool {
    &&& before.len() == table.len()
    &&& !has_key(table, key)
    &&& forall|i: int|
        0 <= i < moves.len() ==> {
            let m = #[trigger] moves[i];
            &&& m.key != key
            &&& holds(table, m.slot as int, m.key)
            &&& table[m.slot as int]->0.value == m.value
            &&& from_empty(table.len() as int, empty, m.slot as int) < from_empty(
                table.len() as int,
                empty,
                hole,
            )
            &&& has_key(before, m.key)
            &&& before[key_slot(before, m.key)]->0.value == m.value
        }
    &&& forall|i: int, j: int|
        0 <= i < j < moves.len() ==> (#[trigger] moves[i]).key != (#[trigger] moves[j]).key
    &&& forall|p: int, k: u64|
        k != key && !moved(moves, k) ==> (#[trigger] holds(table, p, k) <==> holds(before, p, k))
    &&& forall|p: int, k: u64|
        k != key && !moved(moves, k) && #[trigger] holds(table, p, k) ==> table[p] == before[p]
}

pub open spec fn moved(moves: Seq<Relocation>, key: u64) -> bool {
    exists|i: int| 0 <= i < moves.len() && (#[trigger] moves[i]).key == key
}

/// Every entry that survives the removal of `key` keeps its slot, unless
/// `moves` names it once, with its handle and its new slot.
pub open spec fn relocates(
    before: ProbeTable,
    after: ProbeTable,
    key: u64,
    moves: Seq<Relocation>,
) -> bool {
    &&& forall|i: int|
        0 <= i < moves.len() ==> {
            let m = #[trigger] moves[i];
            &&& m.key != key
            &&& before@.contains_key(m.key)
            &&& before@[m.key] == m.value
            &&& after.slot_of(m.key) == m.slot
        }
    &&& forall|i: int, j: int|
        0 <= i < j < moves.len() ==> (#[trigger] moves[i]).key != (#[trigger] moves[j]).key
    &&& forall|k: u64|
        k != key && before@.contains_key(k) && !moved(moves, k) ==> #[trigger] after.slot_of(k)
            == before.slot_of(k)
}

proof fn lemma_key_slot(slots: Seq<Option<Entry>>, slot: int, key: u64)
    requires
        distinct_keys(slots),
        holds(slots, slot, key),
    ensures
        has_key(slots, key),
        key_slot(slots, key) == slot,
{
    let found = key_slot(slots, key);
    assert(holds(slots, found, key));
    assert(slots[found] is Some && slots[slot] is Some);
}

proof fn lemma_insert(slots: Seq<Option<Entry>>, slot: int, entry: Entry)
    requires
        distinct_keys(slots),
        reachable(slots),
        0 <= slot < slots.len(),
        slots[slot] is None,
        forall|x: int|
            0 <= x < slots.len() && distance(
                slots.len() as int,
                home_slot(slots.len() as int, entry.key),
                x,
            ) < distance(slots.len() as int, home_slot(slots.len() as int, entry.key), slot) ==> (
            #[trigger] slots[x]) is Some && slots[x]->0.key != entry.key,
    ensures
        !has_key(slots, entry.key),
        distinct_keys(slots.update(slot, Some(entry))),
        reachable(slots.update(slot, Some(entry))),
        has_key(slots.update(slot, Some(entry)), entry.key),
        key_slot(slots.update(slot, Some(entry)), entry.key) == slot,
        forall|k: u64| k != entry.key ==> (#[trigger] has_key(slots.update(slot, Some(entry)), k)
            <==> has_key(slots, k)),
        forall|k: u64|
            k != entry.key && has_key(slots, k) ==> #[trigger] key_slot(
                slots.update(slot, Some(entry)),
                k,
            ) == key_slot(slots, k),
        forall|k: u64| has_key(slots, k) ==> holds(slots, #[trigger] key_slot(slots, k), k),
{
    let after = slots.update(slot, Some(entry));
    let capacity = slots.len() as int;
    let home = home_slot(capacity, entry.key);
    lemma_home_in_range(capacity, entry.key);
    assert forall|p: int| !holds(slots, p, entry.key) by {
        if holds(slots, p, entry.key) {
            assert(slots[p] is Some);
            if distance(capacity, home, p) > distance(capacity, home, slot) {
                assert(between(slots, p, slot));
                assert(slots[slot] is Some);
            } else {
                assert(p != slot);
                assert(distance(capacity, home, p) < distance(capacity, home, slot));
            }
        }
    }
    assert(distinct_keys(after)) by {
        assert forall|p: int, q: int|
            0 <= p < after.len() && 0 <= q < after.len() && (#[trigger] after[p]) is Some && (
            #[trigger] after[q]) is Some && after[p]->0.key == after[q]->0.key implies p == q by {
            if p != slot && q != slot {
                assert(slots[p] is Some && slots[q] is Some);
            } else if p != slot {
                assert(!holds(slots, p, entry.key));
            } else if q != slot {
                assert(!holds(slots, q, entry.key));
            }
        }
    }
    assert(reachable(after)) by {
        assert forall|p: int, x: int|
            0 <= p < after.len() && 0 <= x < after.len() && (#[trigger] after[p]) is Some
                && between(after, p, x) implies (#[trigger] after[x]) is Some by {
            if x != slot {
                if p == slot {
                    assert(slots[x] is Some);
                } else {
                    assert(slots[p] is Some && between(slots, p, x));
                    assert(slots[x] is Some);
                }
            }
        }
    }
    assert(holds(after, slot, entry.key));
    lemma_key_slot(after, slot, entry.key);
    assert forall|k: u64| k != entry.key implies (#[trigger] has_key(after, k) <==> has_key(
        slots,
        k,
    )) by {
        if has_key(after, k) {
            assert(holds(slots, key_slot(after, k), k));
        }
        if has_key(slots, k) {
            assert(holds(after, key_slot(slots, k), k));
        }
    }
    assert forall|k: u64| k != entry.key && has_key(slots, k) implies #[trigger] key_slot(after, k)
        == key_slot(slots, k) by {
        assert(holds(slots, key_slot(slots, k), k));
        assert(holds(after, key_slot(slots, k), k));
        lemma_key_slot(after, key_slot(slots, k), k);
    }
    assert forall|k: u64| has_key(slots, k) implies holds(slots, #[trigger] key_slot(slots, k), k) by {}
}

proof fn lemma_open_hole(before: Seq<Option<Entry>>, slot: int, key: u64, empty: int)
    requires
        distinct_keys(before),
        reachable(before),
        holds(before, slot, key),
        0 <= empty < before.len(),
        before[empty] is None,
    ensures
        shifting(
            before.update(slot, None),
            slot,
            empty,
            distance(before.len() as int, empty, slot) + 1,
        ),
        carried(before, before.update(slot, None), key, Seq::empty(), slot, empty),
{
    let table = before.update(slot, None);
    assert forall|p: int, x: int|
        0 <= p < table.len() && 0 <= x < table.len() && (#[trigger] table[p]) is Some && between(
            table,
            p,
            x,
        ) implies (#[trigger] table[x]) is Some || x == slot by {
        assert(before[p] is Some && between(before, p, x));
        assert(before[x] is Some);
    }
    assert forall|p: int| !holds(table, p, key) by {
        if holds(table, p, key) {
            assert(before[p] is Some && before[slot] is Some);
        }
    }
    assert forall|p: int, k: u64|
        k != key && !moved(Seq::<Relocation>::empty(), k) implies (#[trigger] holds(table, p, k)
        <==> holds(before, p, k)) by {}
}

proof fn lemma_close_hole(
    table: Seq<Option<Entry>>,
    hole: int,
    candidate: int,
    empty: int,
    reach: int,
)
    requires
        shifting(table, hole, empty, reach),
        0 <= candidate < table.len(),
        table[candidate] is None,
        candidate != empty ==> reach == distance(table.len() as int, empty, candidate),
        candidate == empty ==> reach == table.len(),
    ensures
        reachable(table),
        distinct_keys(table),
{
    let capacity = table.len() as int;
    assert forall|p: int, x: int|
        0 <= p < table.len() && 0 <= x < table.len() && (#[trigger] table[p]) is Some && between(
            table,
            p,
            x,
        ) implies (#[trigger] table[x]) is Some by {
        if x == hole {
            let home = home_slot(capacity, table[p]->0.key);
            lemma_home_in_range(capacity, table[p]->0.key);
            assert(candidate != hole);
            let rp = from_empty(capacity, empty, p);
            let rh = from_empty(capacity, empty, hole);
            if rh < rp && rp < reach {
                assert(table[p] is Some && !between(table, p, hole));
            } else {
                assert(p != candidate && p != hole && p != empty);
                assert(distance(capacity, home, candidate) < distance(capacity, home, p));
                assert(between(table, p, candidate));
                assert(table[candidate] is Some);
            }
        }
    }
}

proof fn lemma_keep(
    table: Seq<Option<Entry>>,
    hole: int,
    candidate: int,
    empty: int,
    reach: int,
)
    requires
        shifting(table, hole, empty, reach),
        0 <= candidate < table.len(),
        table[candidate] is Some,
        reach == distance(table.len() as int, empty, candidate),
        !between(table, candidate, hole),
    ensures
        shifting(table, hole, empty, reach + 1),
{
    let capacity = table.len() as int;
    assert forall|p: int|
        0 <= p < capacity && from_empty(capacity, empty, hole) < from_empty(capacity, empty, p)
            < reach + 1 implies (#[trigger] table[p]) is Some && !between(table, p, hole) by {
        if from_empty(capacity, empty, p) == reach {
            assert(p == candidate);
        }
    }
}

proof fn lemma_shift(
    before: Seq<Option<Entry>>,
    table: Seq<Option<Entry>>,
    key: u64,
    moves: Seq<Relocation>,
    hole: int,
    candidate: int,
    empty: int,
    reach: int,
)
    requires
        distinct_keys(before),
        shifting(table, hole, empty, reach),
        carried(before, table, key, moves, hole, empty),
        0 <= candidate < table.len(),
        table[candidate] is Some,
        reach == distance(table.len() as int, empty, candidate),
        between(table, candidate, hole),
        table.len() <= usize::MAX,
    ensures
        ({
            let entry = table[candidate]->0;
            let after = table.update(hole, Some(entry)).update(candidate, None);
            &&& shifting(after, candidate, empty, reach + 1)
            &&& carried(
                before,
                after,
                key,
                moves.push(
                    Relocation { key: entry.key, value: entry.value, slot: hole as usize },
                ),
                candidate,
                empty,
            )
        }),
{
    let capacity = table.len() as int;
    let entry = table[candidate]->0;
    let after = table.update(hole, Some(entry)).update(candidate, None);
    let home = home_slot(capacity, entry.key);
    lemma_home_in_range(capacity, entry.key);
    assert(candidate != empty && candidate != hole);
    assert(holds(table, candidate, entry.key));
    assert(entry.key != key);
    assert(after[hole] == Some(entry));
    assert(forall|p: int| 0 <= p < capacity && p != hole && p != candidate ==> after[p] == table[p]);
    assert(distinct_keys(after)) by {
        assert forall|p: int, q: int|
            0 <= p < after.len() && 0 <= q < after.len() && (#[trigger] after[p]) is Some && (
            #[trigger] after[q]) is Some && after[p]->0.key == after[q]->0.key implies p == q by {
            let p0 = if p == hole { candidate } else { p };
            let q0 = if q == hole { candidate } else { q };
            assert(table[p0] is Some && table[q0] is Some);
        }
    }
    assert forall|p: int, x: int|
        0 <= p < capacity && 0 <= x < capacity && (#[trigger] after[p]) is Some && between(
            after,
            p,
            x,
        ) implies (#[trigger] after[x]) is Some || x == candidate by {
        if x != candidate && x != hole {
            if p == hole {
                assert(between(table, candidate, x));
                assert(table[candidate] is Some);
                assert(table[x] is Some);
            } else {
                assert(table[p] is Some && between(table, p, x));
                assert(table[x] is Some);
            }
        }
    }
    assert(shifting(after, candidate, empty, reach + 1));
    // Nothing carried before sits at the candidate.
    assert(!moved(moves, entry.key)) by {
        if moved(moves, entry.key) {
            let i = choose|i: int| 0 <= i < moves.len() && (#[trigger] moves[i]).key == entry.key;
            assert(holds(table, moves[i].slot as int, entry.key));
            assert(table[moves[i].slot as int] is Some && table[candidate] is Some);
        }
    }
    assert(holds(before, candidate, entry.key));
    assert(table[candidate] == before[candidate]);
    lemma_key_slot(before, candidate, entry.key);
    let next = moves.push(Relocation { key: entry.key, value: entry.value, slot: hole as usize });
    assert forall|k: u64| moved(next, k) <==> (moved(moves, k) || k == entry.key) by {
        if moved(moves, k) {
            let i = choose|i: int| 0 <= i < moves.len() && (#[trigger] moves[i]).key == k;
            assert(next[i].key == k);
        }
        if k == entry.key {
            assert(next[moves.len() as int].key == k);
        }
        if moved(next, k) && k != entry.key {
            let i = choose|i: int| 0 <= i < next.len() && (#[trigger] next[i]).key == k;
            assert(moves[i].key == k);
        }
    }
    assert(!has_key(after, key)) by {
        assert forall|p: int| !holds(after, p, key) by {
            if holds(after, p, key) {
                assert(holds(table, p, key));
                assert(has_key(table, key));
            }
        }
    }
    assert forall|i: int| 0 <= i < next.len() implies {
        let m = #[trigger] next[i];
        &&& m.key != key
        &&& holds(after, m.slot as int, m.key)
        &&& after[m.slot as int]->0.value == m.value
        &&& from_empty(after.len() as int, empty, m.slot as int) < from_empty(
            after.len() as int,
            empty,
            candidate,
        )
        &&& has_key(before, m.key)
        &&& before[key_slot(before, m.key)]->0.value == m.value
    } by {
        if i < moves.len() {
            let m = moves[i];
            assert(next[i] == m);
            assert(m.slot as int != hole) by {
                assert(holds(table, m.slot as int, m.key));
            }
        }
    }
    assert forall|i: int, j: int| 0 <= i < j < next.len() implies (#[trigger] next[i]).key != (
    #[trigger] next[j]).key by {
        if j == moves.len() {
            assert(moves[i].key == next[i].key);
        } else {
            assert(moves[i].key != moves[j].key);
        }
    }
    assert forall|p: int, k: u64| k != key && !moved(next, k) implies (#[trigger] holds(after, p, k)
        <==> holds(before, p, k)) by {
        assert(!moved(moves, k) && k != entry.key);
        assert(holds(table, p, k) <==> holds(before, p, k));
    }
    assert forall|p: int, k: u64|
        k != key && !moved(next, k) && #[trigger] holds(after, p, k) implies after[p] == before[p] by {
        assert(!moved(moves, k) && k != entry.key);
        assert(holds(table, p, k));
    }
}

proof fn lemma_removed(
    before: Seq<Option<Entry>>,
    after: Seq<Option<Entry>>,
    key: u64,
    moves: Seq<Relocation>,
    hole: int,
    empty: int,
)
    requires
        distinct_keys(before),
        distinct_keys(after),
        carried(before, after, key, moves, hole, empty),
    ensures
        forall|k: u64| k != key ==> (#[trigger] has_key(before, k) <==> has_key(after, k)),
        forall|k: u64|
            k != key && #[trigger] has_key(before, k) ==> after[key_slot(after, k)]->0.value
                == before[key_slot(before, k)]->0.value,
        forall|k: u64|
            k != key && has_key(before, k) && !moved(moves, k) ==> #[trigger] key_slot(after, k)
                == key_slot(before, k),
        forall|i: int|
            0 <= i < moves.len() ==> key_slot(after, (#[trigger] moves[i]).key) == moves[i].slot,
{
    assert forall|i: int| 0 <= i < moves.len() implies key_slot(after, (#[trigger] moves[i]).key)
        == moves[i].slot by {
        lemma_key_slot(after, moves[i].slot as int, moves[i].key);
    }
    assert forall|k: u64| k != key implies (#[trigger] has_key(before, k) <==> has_key(after, k))
        && (has_key(before, k) ==> after[key_slot(after, k)]->0.value == before[key_slot(
        before,
        k,
    )]->0.value) && (has_key(before, k) && !moved(moves, k) ==> key_slot(after, k) == key_slot(
        before,
        k,
    )) by {
        if moved(moves, k) {
            let i = choose|i: int| 0 <= i < moves.len() && (#[trigger] moves[i]).key == k;
            lemma_key_slot(after, moves[i].slot as int, k);
        } else {
            if has_key(before, k) {
                let p = key_slot(before, k);
                assert(holds(before, p, k));
                assert(holds(after, p, k));
                lemma_key_slot(after, p, k);
            }
            if has_key(after, k) {
                assert(holds(after, key_slot(after, k), k));
                assert(holds(before, key_slot(after, k), k));
            }
        }
    }
}

} // verus!
