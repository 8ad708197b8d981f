//! Reservations in stable slots drawn from a bounded free list, and the index
//! that finds them by order.

use vstd::prelude::*;

use crate::probe::{moved, relocates, Relocation};
use crate::risk::probe_index::{planes_fit, ProbeIndex, INDEX_PLANES};
use crate::risk::ReservationRiskState;
use crate::types::{OrderId, Quantity};

verus! {

/// The end of the free list.
pub const NIL: usize = usize::MAX;

#[derive(Clone, Copy, Debug, PartialEq, Eq, Structural)]
pub struct Reservation {
    pub state: ReservationRiskState,
    /// Where the index files the reservation.
    pub index_slot: u32,
}

/// A live reservation or a free-list link.
#[derive(Clone, Copy, Debug, PartialEq, Eq, Structural)]
pub enum ReservationSlot {
    Free { next_free: usize },
    Live { reservation: Reservation },
}

pub struct ReservationPool<const ORDERS: usize> {
    slots: Vec<ReservationSlot>,
    free_head: usize,
    index: ProbeIndex<ORDERS, INDEX_PLANES>,
    free: Ghost<Seq<usize>>,
}

spec fn free_next(free: Seq<usize>, i: int) -> usize {
    if i + 1 < free.len() {
        free[i + 1]
    } else {
        NIL
    }
}

spec fn free_joined(slots: Seq<ReservationSlot>, free: Seq<usize>, i: int) -> bool {
    slots[free[i] as int]->next_free == free_next(free, i)
}

/// `free` lists the free slots in link order.
spec fn free_chained(slots: Seq<ReservationSlot>, free: Seq<usize>) -> bool {
    &&& free.no_duplicates()
    &&& forall|i: int|
        0 <= i < free.len() ==> {
            &&& (#[trigger] free[i]) < slots.len()
            &&& slots[free[i] as int] is Free
        }
    &&& forall|i: int| 0 <= i < free.len() ==> #[trigger] free_joined(slots, free, i)
    &&& forall|slot: usize|
        slot < slots.len() && (#[trigger] slots[slot as int]) is Free ==> free.contains(slot)
}

proof fn lemma_free_taken(slots: Seq<ReservationSlot>, free: Seq<usize>, reservation: Reservation)
    requires
        free_chained(slots, free),
        free.len() > 0,
        slots.len() <= usize::MAX,
    ensures
        free_chained(
            slots.update(free[0] as int, ReservationSlot::Live { reservation }),
            free.skip(1),
        ),
{
    let next = slots.update(free[0] as int, ReservationSlot::Live { reservation });
    let rest = free.skip(1);
    assert forall|i: int| 0 <= i < rest.len() implies {
        &&& (#[trigger] rest[i]) < next.len()
        &&& next[rest[i] as int] is Free
        &&& free_joined(next, rest, i)
    } by {
        assert(rest[i] == free[i + 1]);
        assert(free[i + 1] != free[0]);
        assert(free_joined(slots, free, i + 1));
    }
    assert forall|s: usize| s < next.len() && (#[trigger] next[s as int]) is Free implies rest.contains(
        s,
    ) by {
        assert(slots[s as int] is Free);
        let i = choose|i: int| 0 <= i < free.len() && free[i] == s;
        assert(rest[i - 1] == s);
    }
}

proof fn lemma_free_returned(slots: Seq<ReservationSlot>, free: Seq<usize>, slot: usize)
    requires
        free_chained(slots, free),
        slot < slots.len(),
        slots[slot as int] is Live,
        slots.len() <= usize::MAX,
    ensures
        free_chained(
            slots.update(
                slot as int,
                ReservationSlot::Free {
                    next_free: if free.len() > 0 {
                        free[0]
                    } else {
                        NIL
                    },
                },
            ),
            seq![slot] + free,
        ),
{
    let head = if free.len() > 0 {
        free[0]
    } else {
        NIL
    };
    let next = slots.update(slot as int, ReservationSlot::Free { next_free: head });
    let freed = seq![slot] + free;
    assert forall|i: int| 0 <= i < freed.len() implies {
        &&& (#[trigger] freed[i]) < next.len()
        &&& next[freed[i] as int] is Free
        &&& free_joined(next, freed, i)
    } by {
        if i > 0 {
            assert(freed[i] == free[i - 1]);
            assert(free_joined(slots, free, i - 1));
        }
        if i + 1 < freed.len() {
            assert(freed[i + 1] == free[i]);
        }
    }
    assert forall|i: int, j: int| 0 <= i < freed.len() && 0 <= j < freed.len() && i != j implies freed[i]
        != freed[j] by {
        if i > 0 {
            assert(freed[i] == free[i - 1]);
        }
        if j > 0 {
            assert(freed[j] == free[j - 1]);
        }
    }
    assert forall|s: usize| s < next.len() && (#[trigger] next[s as int]) is Free implies freed.contains(
        s,
    ) by {
        if s == slot {
            assert(freed[0] == s);
        } else {
            assert(slots[s as int] is Free);
            let i = choose|i: int| 0 <= i < free.len() && free[i] == s;
            assert(freed[i + 1] == s);
        }
    }
}

/// Live slots changed at most in their index slots: the free list is as valid
/// as before.
proof fn lemma_free_same(slots: Seq<ReservationSlot>, next: Seq<ReservationSlot>, free: Seq<usize>)
    requires
        free_chained(slots, free),
        slots.len() == next.len(),
        forall|s: int|
            0 <= s < slots.len() ==> ((#[trigger] next[s]) is Free) == (slots[s] is Free),
        forall|s: int|
            0 <= s < slots.len() && (#[trigger] next[s]) is Free ==> next[s] == slots[s],
    ensures
        free_chained(next, free),
{
    assert forall|i: int| 0 <= i < free.len() implies #[trigger] free_joined(next, free, i) by {
        assert(free_joined(slots, free, i));
    }
}

impl<const ORDERS: usize> ReservationPool<ORDERS> {
    /// The reservation in each slot.
    pub closed spec fn slots(&self) -> Seq<Option<ReservationRiskState>> {
        Seq::new(
            self.slots@.len(),
            |s: int|
                match self.slots@[s] {
                    ReservationSlot::Live { reservation } => Some(reservation.state),
                    ReservationSlot::Free { next_free } => None,
                },
        )
    }

    /// The free slots, next to be taken first.
    pub closed spec fn free(&self) -> Seq<usize> {
        self.free@
    }

    spec fn live(&self, slot: int) -> bool {
        0 <= slot < self.slots@.len() && self.slots@[slot] is Live
    }

    spec fn at(&self, slot: int) -> Reservation {
        self.slots@[slot]->reservation
    }

    spec fn filed(&self, key: u64) -> bool {
        let slot = self.index@[key] as int;
        &&& self.live(slot)
        &&& self.at(slot).state.order_id.0 == key
        &&& self.at(slot).index_slot == self.index.slot_of(key)
    }

    spec fn found(&self, slot: int) -> bool {
        let key = self.at(slot).state.order_id.0;
        &&& self.index@.contains_key(key)
        &&& self.index@[key] == slot
    }

    pub closed spec fn wf(&self) -> bool {
        &&& self.slots@.len() == ORDERS
        &&& self.free_head == (if self.free@.len() > 0 {
            self.free@[0]
        } else {
            NIL
        })
        &&& free_chained(self.slots@, self.free@)
        &&& self.index.wf()
        &&& forall|key: u64| #[trigger] self.index@.contains_key(key) ==> self.filed(key)
        &&& forall|slot: int| #[trigger] self.live(slot) ==> self.found(slot)
    }

    /// Slots and free list partition the pool, and no order has two
    /// reservations.
    pub proof fn lemma_pool(&self)
        requires
            self.wf(),
        ensures
            planes_fit(ORDERS, INDEX_PLANES),
            self.slots().len() == ORDERS,
            self.free().no_duplicates(),
            forall|i: int|
                0 <= i < self.free().len() ==> (#[trigger] self.free()[i]) < ORDERS
                    && self.slots()[self.free()[i] as int] is None,
            forall|s: usize|
                s < ORDERS && (#[trigger] self.slots()[s as int]) is None ==> self.free().contains(
                    s,
                ),
            forall|a: int, b: int|
                0 <= a < ORDERS && 0 <= b < ORDERS && (#[trigger] self.slots()[a]) is Some && (
                #[trigger] self.slots()[b]) is Some && self.slots()[a]->0.order_id
                    == self.slots()[b]->0.order_id ==> a == b,
    {
        self.index.lemma_wf();
        assert forall|a: int, b: int|
            0 <= a < ORDERS && 0 <= b < ORDERS && (#[trigger] self.slots()[a]) is Some && (
            #[trigger] self.slots()[b]) is Some && self.slots()[a]->0.order_id
                == self.slots()[b]->0.order_id implies a == b by {
            assert(self.live(a) && self.live(b));
            assert(self.found(a) && self.found(b));
        }
    }

    proof fn lemma_spare(&self)
        requires
            self.wf(),
            ORDERS > 0,
        ensures
            !self.index.full(),
    {
        assert forall|a: u64, b: u64|
            #![trigger self.index@[a], self.index@[b]]
            self.index@.contains_key(a) && self.index@.contains_key(b) && self.index@[a]
                == self.index@[b] implies a == b by {
            assert(self.filed(a) && self.filed(b));
        }
        assert forall|key: u64| #![trigger self.index@[key]] self.index@.contains_key(key) implies self.index@[key]
            < ORDERS by {
            assert(self.filed(key));
        }
        self.index.lemma_spare(ORDERS as int);
    }

    pub fn new() -> (pool: Self)
        requires
            planes_fit(ORDERS, INDEX_PLANES),
        ensures
            pool.wf(),
            pool.slots() == Seq::new(ORDERS as nat, |s: int| None::<ReservationRiskState>),
            pool.free() == Seq::new(ORDERS as nat, |s: int| s as usize),
    {
        let mut slots: Vec<ReservationSlot> = Vec::new();
        let mut index: usize = 0;
        while index < ORDERS
            invariant
                index <= ORDERS,
                slots@.len() == index,
                forall|i: int|
                    0 <= i < index ==> #[trigger] slots@[i] == (ReservationSlot::Free {
                        next_free: if i + 1 < ORDERS {
                            (i + 1) as usize
                        } else {
                            NIL
                        },
                    }),
            decreases ORDERS - index,
        {
            slots.push(
                ReservationSlot::Free {
                    next_free: if index < ORDERS - 1 {
                        index + 1
                    } else {
                        NIL
                    },
                },
            );
            index = index + 1;
        }
        let ghost free: Seq<usize> = Seq::new(ORDERS as nat, |i: int| i as usize);
        assert forall|slot: usize| slot < ORDERS implies free.contains(slot) by {
            assert(free[slot as int] == slot);
        }
        let pool = ReservationPool {
            slots,
            free_head: if ORDERS == 0 {
                NIL
            } else {
                0
            },
            index: ProbeIndex::new(),
            free: Ghost(free),
        };
        assert(pool.slots() =~= Seq::new(ORDERS as nat, |s: int| None::<ReservationRiskState>));
        pool
    }

    /// Some slot holds a reservation of `order_id`.
    pub open spec fn has_order(&self, order_id: OrderId) -> bool {
        exists|slot: int|
            0 <= slot < self.slots().len() && (#[trigger] self.slots()[slot]) is Some
                && self.slots()[slot]->0.order_id == order_id
    }

    pub fn is_full(&self) -> (full: bool)
        requires
            self.wf(),
        ensures
            full == (self.free().len() == 0),
    {
        proof {
            if self.free@.len() > 0 {
                assert(self.free@[0] < ORDERS);
            }
        }
        self.free_head == NIL
    }

    /// The slot and the reservation of an order.
    pub fn find(&self, order_id: OrderId) -> (found: Option<(usize, ReservationRiskState)>)
        requires
            self.wf(),
        ensures
            found is Some <==> self.has_order(order_id),
            found is Some ==> {
                let (slot, reservation) = found->0;
                &&& slot < ORDERS
                &&& self.slots()[slot as int] == Some(reservation)
                &&& reservation.order_id == order_id
            },
    {
        proof {
            if self.has_order(order_id) {
                let slot = choose|slot: int|
                    0 <= slot < self.slots().len() && (#[trigger] self.slots()[slot]) is Some
                        && self.slots()[slot]->0.order_id == order_id;
                assert(self.live(slot));
                assert(self.found(slot));
            }
            if self.index@.contains_key(order_id.0) {
                assert(self.filed(order_id.0));
                let slot = self.index@[order_id.0] as int;
                assert(self.slots()[slot] is Some);
            }
        }
        match self.index.lookup(order_id.0) {
            None => None,
            Some(slot) => {
                match self.slots[slot] {
                    ReservationSlot::Live { reservation } => Some((slot, reservation.state)),
                    ReservationSlot::Free { next_free } => None,
                }
            },
        }
    }

    pub fn get(&self, slot: usize) -> (reservation: Option<ReservationRiskState>)
        requires
            self.wf(),
            slot < ORDERS,
        ensures
            reservation == self.slots()[slot as int],
    {
        match self.slots[slot] {
            ReservationSlot::Live { reservation } => Some(reservation.state),
            ReservationSlot::Free { next_free } => None,
        }
    }

    /// Puts a reservation into the next free slot.
    pub fn allocate(&mut self, state: ReservationRiskState) -> (slot: usize)
        requires
            old(self).wf(),
            old(self).free().len() > 0,
            !old(self).has_order(state.order_id),
        ensures
            final(self).wf(),
            slot == old(self).free()[0],
            slot < ORDERS,
            final(self).slots() == old(self).slots().update(slot as int, Some(state)),
            final(self).free() == old(self).free().skip(1),
    {
        let ghost before = *self;
        let slot: usize = self.free_head;
        let ghost free = self.free@;
        let key: u64 = state.order_id.0;
        proof {
            assert(free[0] == slot && slot < ORDERS);
            assert(free_joined(self.slots@, free, 0));
            self.lemma_spare();
            if self.index@.contains_key(key) {
                assert(self.filed(key));
                let held = self.index@[key] as int;
                assert(self.slots()[held] is Some);
            }
        }
        let next_free: usize = match self.slots[slot] {
            ReservationSlot::Free { next_free } => next_free,
            ReservationSlot::Live { reservation } => NIL,
        };
        let index_slot = match self.index.insert(key, slot) {
            Ok(index_slot) => index_slot,
            Err(error) => {
                assert(false);
                vstd::pervasive::unreached()
            },
        };
        let reservation = Reservation { state, index_slot };
        self.slots.set(slot, ReservationSlot::Live { reservation });
        self.free_head = next_free;
        self.free = Ghost(free.skip(1));
        proof {
            lemma_free_taken(before.slots@, free, reservation);
            assert(self.slots() =~= before.slots().update(slot as int, Some(state)));
            assert forall|k: u64| #[trigger] self.index@.contains_key(k) implies self.filed(k) by {
                if k != key {
                    assert(before.index@.contains_key(k));
                    assert(before.filed(k));
                    assert(before.live(before.index@[k] as int));
                    assert(self.index.slot_of(k) == before.index.slot_of(k));
                }
            }
            assert forall|s: int| #[trigger] self.live(s) implies self.found(s) by {
                if s != slot {
                    assert(before.live(s));
                    assert(before.found(s));
                }
            }
        }
        slot
    }

    /// Changes the quantity of a live reservation.
    pub fn set_quantity(&mut self, slot: usize, quantity: Quantity)
        requires
            old(self).wf(),
            slot < ORDERS,
            old(self).slots()[slot as int] is Some,
        ensures
            final(self).wf(),
            final(self).free() == old(self).free(),
            final(self).slots() == old(self).slots().update(
                slot as int,
                Some(ReservationRiskState { quantity, ..old(self).slots()[slot as int]->0 }),
            ),
    {
        let ghost before = *self;
        assert(before.live(slot as int));
        match self.slots[slot] {
            ReservationSlot::Live { reservation } => {
                let state = ReservationRiskState { quantity, ..reservation.state };
                self.slots.set(
                    slot,
                    ReservationSlot::Live {
                        reservation: Reservation { state, index_slot: reservation.index_slot },
                    },
                );
            },
            ReservationSlot::Free { next_free } => {},
        }
        proof {
            lemma_free_same(before.slots@, self.slots@, self.free@);
            assert(self.slots() =~= before.slots().update(
                slot as int,
                Some(ReservationRiskState { quantity, ..before.slots()[slot as int]->0 }),
            ));
            assert forall|k: u64| #[trigger] self.index@.contains_key(k) implies self.filed(k) by {
                assert(before.filed(k));
            }
            assert forall|s: int| #[trigger] self.live(s) implies self.found(s) by {
                assert(before.live(s));
                assert(before.found(s));
            }
        }
    }

    /// Removes a live reservation from the index and returns its slot to the
    /// free list.
    pub fn release(&mut self, slot: usize)
        requires
            old(self).wf(),
            slot < ORDERS,
            old(self).slots()[slot as int] is Some,
        ensures
            final(self).wf(),
            final(self).free() == seq![slot] + old(self).free(),
            final(self).slots() == old(self).slots().update(slot as int, None),
    {
        let ghost before = *self;
        assert(before.live(slot as int));
        assert(before.found(slot as int));
        let removed = match self.slots[slot] {
            ReservationSlot::Live { reservation } => reservation,
            ReservationSlot::Free { next_free } => {
                assert(false);
                return ;
            },
        };
        let key: u64 = removed.state.order_id.0;
        proof {
            assert(before.filed(key));
            self.lemma_spare();
            before.index.lemma_wf();
        }
        let removal = match self.index.remove_at(removed.index_slot, key) {
            Some(removal) => removal,
            None => {
                assert(false);
                return ;
            },
        };
        let moves = removal.moves;
        let ghost index = self.index;
        proof {
            index.lemma_wf();
            assert forall|s: int| #[trigger] self.live(s) && s != slot implies self.at(s).index_slot
                == index.slot_of(self.at(s).state.order_id.0) || pending(
                moves@,
                0,
                self.at(s).state.order_id.0,
            ) by {
                assert(before.live(s));
                assert(before.found(s));
                let k = before.at(s).state.order_id.0;
                assert(k != key);
                assert(before.filed(k));
                if moved(moves@, k) {
                    let j = choose|j: int| 0 <= j < moves@.len() && (#[trigger] moves@[j]).key == k;
                    assert(pending(moves@, 0, k));
                } else {
                    assert(index.table().slot_of(k) == before.index.table().slot_of(k));
                    assert(index.slot_of(k) == before.index.slot_of(k));
                }
            }
        }
        let mut i: usize = 0;
        while i < moves.len()
            invariant
                i <= moves@.len(),
                slot < ORDERS,
                before.wf(),
                before.live(slot as int),
                before.index.wf(),
                key == before.at(slot as int).state.order_id.0,
                index == self.index,
                index.wf(),
                relocates(before.index.table(), index.table(), key, moves@),
                index@ == before.index@.remove(key),
                self.free == before.free,
                self.free_head == before.free_head,
                self.settling(before, slot as int, moves@, i as int),
            decreases moves.len() - i,
        {
            let entry = moves[i];
            let ghost current = *self;
            proof {
                assert(entry == moves@[i as int]);
                before.index.lemma_wf();
                index.lemma_wf();
                assert(before.index@.contains_key(entry.key));
                assert(before.filed(entry.key));
                assert(before.live(entry.value as int));
                assert(current.live(entry.value as int));
                assert(entry.value != slot);
                index.table().lemma_slot_of(entry.key);
                assert(index.slot_of(entry.key) == entry.slot);
            }
            match self.slots[entry.value] {
                ReservationSlot::Live { reservation } => {
                    self.slots.set(
                        entry.value,
                        ReservationSlot::Live {
                            reservation: Reservation {
                                state: reservation.state,
                                index_slot: entry.slot as u32,
                            },
                        },
                    );
                },
                ReservationSlot::Free { next_free } => {},
            }
            proof {
                assert forall|s: int| #[trigger] self.live(s) && s != slot implies self.at(
                    s,
                ).index_slot == index.slot_of(self.at(s).state.order_id.0) || pending(
                    moves@,
                    i + 1,
                    self.at(s).state.order_id.0,
                ) by {
                    assert(current.live(s));
                    if s != entry.value {
                        let k = current.at(s).state.order_id.0;
                        if pending(moves@, i as int, k) {
                            let j = choose|j: int|
                                i <= j < moves@.len() && (#[trigger] moves@[j]).key == k;
                            if j == i {
                                assert(before.live(s));
                                assert(before.found(s));
                            }
                            assert(pending(moves@, i + 1, k));
                        }
                    }
                }
                assert forall|s: int| #[trigger] self.live(s) == before.live(s) by {
                    assert(current.live(s) == before.live(s));
                }
                assert forall|s: int| before.live(s) implies (#[trigger] self.at(s)).state
                    == before.at(s).state by {
                    assert(current.live(s));
                    assert(current.at(s).state == before.at(s).state);
                }
            }
            i = i + 1;
        }
        let ghost settled = *self;
        self.slots.set(slot, ReservationSlot::Free { next_free: self.free_head });
        self.free_head = slot;
        self.free = Ghost(seq![slot] + before.free@);
        proof {
            assert forall|s: int| 0 <= s < ORDERS implies ((#[trigger] settled.slots@[s]) is Free)
                == (before.slots@[s] is Free) by {
                assert(settled.live(s) == before.live(s));
            }
            lemma_free_same(before.slots@, settled.slots@, before.free@);
            lemma_free_returned(settled.slots@, before.free@, slot);
            assert(self.slots() =~= before.slots().update(slot as int, None)) by {
                assert forall|s: int| 0 <= s < ORDERS && s != slot implies #[trigger] self.slots()[s]
                    == before.slots()[s] by {
                    assert(settled.live(s) == before.live(s));
                    if before.live(s) {
                        assert(settled.at(s).state == before.at(s).state);
                    }
                }
            }
            assert forall|k: u64| #[trigger] self.index@.contains_key(k) implies self.filed(k) by {
                assert(before.index@.contains_key(k));
                assert(before.filed(k));
                let s = before.index@[k] as int;
                assert(before.live(s));
                assert(s != slot);
                assert(settled.live(s));
                assert(settled.at(s).state == before.at(s).state);
            }
            assert forall|s: int| #[trigger] self.live(s) implies self.found(s) by {
                assert(settled.live(s));
                assert(before.live(s));
                assert(before.found(s));
                assert(settled.at(s).state == before.at(s).state);
            }
        }
    }

    /// The state of a release in which the entries of `moves` from `from` on
    /// still await their new index slots.
    spec fn settling(&self, before: Self, slot: int, moves: Seq<Relocation>, from: int) -> bool {
        &&& self.slots@.len() == ORDERS
        &&& forall|s: int| #[trigger] self.live(s) == before.live(s)
        &&& forall|s: int|
            0 <= s < ORDERS && (#[trigger] self.slots@[s]) is Free ==> self.slots@[s]
                == before.slots@[s]
        &&& forall|s: int|
            before.live(s) ==> (#[trigger] self.at(s)).state == before.at(s).state
        &&& forall|s: int| #[trigger]
            self.live(s) && s != slot ==> self.at(s).index_slot == self.index.slot_of(
                self.at(s).state.order_id.0,
            ) || pending(moves, from, self.at(s).state.order_id.0)
    }
}

/// An entry of `moves` from `from` on names `key`.
spec fn pending(moves: Seq<Relocation>, from: int, key: u64) -> bool {
    exists|j: int| from <= j < moves.len() && (#[trigger] moves[j]).key == key
}

} // verus!
