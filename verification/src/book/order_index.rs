//! Index from order identifiers to the places where the orders rest.

use vstd::arithmetic::div_mod::lemma_fundamental_div_mod_converse;
use vstd::arithmetic::mul::lemma_mul_is_commutative;
use vstd::prelude::*;

use crate::probe::{moved, ProbeError, ProbeTable, Relocation};
use crate::types::{OrderId, RejectReason, Side};

verus! {

/// Index slots per side, level and order. Two sides of at most
/// `LEVELS * ORDERS` orders each keep the table at most half full.
pub const ORDER_INDEX_PLANES: usize = 4;

/// `slot` is a stable per-level slot handle, never a FIFO position.
#[derive(Clone, Copy, Debug, PartialEq, Eq, Structural)]
pub struct OrderLocation {
    pub side: Side,
    pub level_index: usize,
    pub slot: usize,
}

/// An order whose index slot changed while another one was removed.
#[derive(Clone, Copy, Debug, PartialEq, Eq, Structural)]
pub struct Refiled {
    pub order_id: OrderId,
    pub location: OrderLocation,
    pub index_slot: u32,
}

#[derive(Debug)]
pub struct Unfiled {
    pub location: OrderLocation,
    pub refiled: Vec<Refiled>,
}

/// Every index slot of a book of this shape has a 32-bit number.
pub open spec fn index_fits(levels: usize, orders: usize) -> bool {
    levels * orders * ORDER_INDEX_PLANES <= u32::MAX
}

pub open spec fn in_range(location: OrderLocation, levels: usize, orders: usize) -> bool {
    location.level_index < levels && location.slot < orders
}

/// The compact form of a location: the low bit selects the side, and adding
/// one reserves zero.
pub open spec fn location_code(location: OrderLocation, orders: usize) -> int {
    (location.level_index * orders + location.slot) * 2 + (if location.side == Side::Sell {
        1int
    } else {
        0
    }) + 1
}

/// The location with the compact form `code`.
pub open spec fn decoded(code: int, orders: usize) -> OrderLocation {
    OrderLocation {
        side: if (code - 1) % 2 == 0 {
            Side::Buy
        } else {
            Side::Sell
        },
        level_index: ((code - 1) / 2 / (orders as int)) as usize,
        slot: ((code - 1) / 2 % (orders as int)) as usize,
    }
}

/// Coding and decoding are inverse, and codes of locations in range are
/// bounded.
pub proof fn lemma_code(location: OrderLocation, levels: usize, orders: usize)
    requires
        in_range(location, levels, orders),
    ensures
        decoded(location_code(location, orders), orders) == location,
        1 <= location_code(location, orders) <= 2 * (levels * orders),
{
    let l = location.level_index as int;
    let o = orders as int;
    let s = location.slot as int;
    let flat = l * o + s;
    let code = location_code(location, orders);
    assert(l * o >= 0) by (nonlinear_arith)
        requires
            l >= 0,
            o >= 0,
    ;
    assert((code - 1) / 2 == flat);
    lemma_mul_is_commutative(l, o);
    lemma_fundamental_div_mod_converse(flat, o, l, s);
    assert(l * o + o <= levels * o) by (nonlinear_arith)
        requires
            l + 1 <= levels,
            o >= 0,
    ;
}

/// A code in range decodes to a location in range that codes back to it.
pub proof fn lemma_decoded(code: int, levels: usize, orders: usize)
    requires
        1 <= code <= 2 * (levels * orders),
    ensures
        in_range(decoded(code, orders), levels, orders),
        location_code(decoded(code, orders), orders) == code,
{
    let flat = (code - 1) / 2;
    let o = orders as int;
    let n = levels as int;
    assert(o > 0 && n > 0) by (nonlinear_arith)
        requires
            1 <= 2 * (n * o),
            o >= 0,
            n >= 0,
    ;
    assert(flat < n * o);
    let l = flat / o;
    let s = flat % o;
    vstd::arithmetic::div_mod::lemma_fundamental_div_mod(flat, o);
    vstd::arithmetic::div_mod::lemma_mod_bound(flat, o);
    lemma_mul_is_commutative(l, o);
    assert(0 <= l < n) by (nonlinear_arith)
        requires
            flat == o * l + s,
            0 <= s < o,
            0 <= flat < n * o,
    ;
}

#[derive(Debug)]
pub struct OrderIndex<const LEVELS: usize, const ORDERS: usize> {
    table: ProbeTable,
}

impl<const LEVELS: usize, const ORDERS: usize> View for OrderIndex<LEVELS, ORDERS> {
    type V = Map<u64, usize>;

    /// The compact location of every filed order.
    closed spec fn view(&self) -> Map<u64, usize> {
        self.table@
    }
}

impl<const LEVELS: usize, const ORDERS: usize> OrderIndex<LEVELS, ORDERS> {
    pub closed spec fn wf(&self) -> bool {
        &&& index_fits(LEVELS, ORDERS)
        &&& self.table.wf()
        &&& self.table.capacity() == LEVELS * ORDERS * ORDER_INDEX_PLANES
        &&& coded(self@, LEVELS, ORDERS)
    }

    /// The index slot that files `order_id`.
    pub closed spec fn slot_of(&self, order_id: OrderId) -> int {
        self.table.slot_of(order_id.0)
    }

    /// Filed codes are in range, and no two orders share one.
    pub proof fn lemma_coded(&self)
        requires
            self.wf(),
        ensures
            coded(self@, LEVELS, ORDERS),
            index_fits(LEVELS, ORDERS),
    {
    }

    /// The index is at most half full, so it has an empty slot as soon as it
    /// has any.
    proof fn lemma_spare(&self)
        requires
            self.wf(),
            LEVELS * ORDERS > 0,
        ensures
            !self.table.full(),
    {
        self.table.lemma_spare(1, 2 * (LEVELS * ORDERS) + 1);
    }

    pub fn new() -> (index: Self)
        requires
            index_fits(LEVELS, ORDERS),
        ensures
            index.wf(),
            index@ == Map::<u64, usize>::empty(),
    {
        assert(LEVELS * ORDERS <= LEVELS * ORDERS * 4) by (nonlinear_arith)
            requires
                LEVELS >= 0,
                ORDERS >= 0,
        ;
        OrderIndex { table: ProbeTable::new(LEVELS * ORDERS * ORDER_INDEX_PLANES) }
    }

    /// The compact form of a location, or `None` where the location lies
    /// outside the book or its form does not fit a machine word.
    pub fn encode_location(location: OrderLocation) -> (code: Option<usize>)
        ensures
            code is Some <==> in_range(location, LEVELS, ORDERS) && location_code(location, ORDERS)
                <= usize::MAX,
            code is Some ==> code->0 == location_code(location, ORDERS),
    {
        if location.level_index >= LEVELS || location.slot >= ORDERS {
            return None;
        }
        let ghost l = location.level_index as int;
        let ghost o = ORDERS as int;
        assert(l * o >= 0) by (nonlinear_arith)
            requires
                l >= 0,
                o >= 0,
        ;
        let product = match location.level_index.checked_mul(ORDERS) {
            Some(product) => product,
            None => {
                return None;
            },
        };
        let flat = match product.checked_add(location.slot) {
            Some(flat) => flat,
            None => {
                return None;
            },
        };
        let doubled = match flat.checked_mul(2) {
            Some(doubled) => doubled,
            None => {
                return None;
            },
        };
        let sided = match doubled.checked_add(
            if location.side == Side::Sell {
                1
            } else {
                0
            },
        ) {
            Some(sided) => sided,
            None => {
                return None;
            },
        };
        sided.checked_add(1)
    }

    /// The location with the compact form `code`, or `None` where it lies
    /// outside the book.
    pub fn decode_location(code: usize) -> (location: Option<OrderLocation>)
        requires
            code > 0,
        ensures
            location is Some <==> code <= 2 * (LEVELS * ORDERS),
            location is Some ==> location->0 == decoded(code as int, ORDERS),
    {
        let flat: usize = (code - 1) / 2;
        if ORDERS == 0 {
            assert(LEVELS * ORDERS == 0) by (nonlinear_arith)
                requires
                    ORDERS == 0,
            ;
            return None;
        }
        let level_index: usize = flat / ORDERS;
        proof {
            let o = ORDERS as int;
            let n = LEVELS as int;
            let f = flat as int;
            let l = level_index as int;
            vstd::arithmetic::div_mod::lemma_fundamental_div_mod(f, o);
            vstd::arithmetic::div_mod::lemma_mod_bound(f, o);
            let s = f % o;
            assert(l < n <==> f < n * o) by (nonlinear_arith)
                requires
                    f == o * l + s,
                    0 <= s < o,
            ;
        }
        if level_index >= LEVELS {
            return None;
        }
        Some(
            OrderLocation {
                side: if (code - 1) % 2 == 0 {
                    Side::Buy
                } else {
                    Side::Sell
                },
                level_index,
                slot: flat % ORDERS,
            },
        )
    }

    /// Where `order_id` rests, if it is filed.
    pub fn location(&self, order_id: OrderId) -> (location: Option<OrderLocation>)
        requires
            self.wf(),
        ensures
            location is Some <==> self@.contains_key(order_id.0),
            location is Some ==> location->0 == decoded(self@[order_id.0] as int, ORDERS)
                && in_range(location->0, LEVELS, ORDERS),
    {
        match self.table.lookup(order_id.0) {
            None => None,
            Some(code) => {
                proof {
                    lemma_decoded(code as int, LEVELS, ORDERS);
                }
                Self::decode_location(code)
            },
        }
    }

    /// Files `order_id` at `location`.
    pub fn insert(&mut self, order_id: OrderId, location: OrderLocation) -> (outcome: Result<
        u32,
        RejectReason,
    >)
        requires
            old(self).wf(),
            in_range(location, LEVELS, ORDERS),
            forall|id: u64|
                #![trigger old(self)@[id]]
                old(self)@.contains_key(id) ==> old(self)@[id] != location_code(location, ORDERS),
        ensures
            final(self).wf(),
            outcome is Err ==> outcome == Err::<u32, _>(RejectReason::DuplicateOrderId),
            outcome is Err <==> old(self)@.contains_key(order_id.0),
            outcome is Err ==> *final(self) == *old(self),
            outcome is Ok ==> {
                &&& final(self)@ == old(self)@.insert(
                    order_id.0,
                    location_code(location, ORDERS) as usize,
                )
                &&& final(self).slot_of(order_id) == outcome->Ok_0
                &&& forall|other: OrderId|
                    old(self)@.contains_key(other.0) ==> final(self).slot_of(other)
                        == #[trigger] old(self).slot_of(other)
            },
    {
        proof {
            lemma_code(location, LEVELS, ORDERS);
            assert(LEVELS * ORDERS > 0) by (nonlinear_arith)
                requires
                    LEVELS > 0,
                    ORDERS > 0,
            ;
            self.lemma_spare();
        }
        let code = match Self::encode_location(location) {
            Some(code) => code,
            None => {
                return Err(RejectReason::OrderCapacity);
            },
        };
        match self.table.insert(order_id.0, code) {
            Ok(slot) => {
                assert(coded(self@, LEVELS, ORDERS));
                assert forall|other: OrderId| old(self)@.contains_key(other.0) implies self.slot_of(
                    other,
                ) == #[trigger] old(self).slot_of(other) by {
                    assert(self.table.slot_of(other.0) == old(self).table.slot_of(other.0));
                }
                Ok(slot as u32)
            },
            Err(ProbeError::Duplicate) => Err(RejectReason::DuplicateOrderId),
            Err(ProbeError::Full) => Err(RejectReason::OrderCapacity),
        }
    }

    /// Unfiles `order_id` at `index_slot`. A stale handle unfiles nothing.
    pub fn remove_at(&mut self, index_slot: u32, order_id: OrderId) -> (removed: Option<Unfiled>)
        requires
            old(self).wf(),
        ensures
            final(self).wf(),
            removed is Some <==> old(self)@.contains_key(order_id.0) && old(self).slot_of(order_id)
                == index_slot,
            removed is None ==> *final(self) == *old(self),
            removed is Some ==> {
                &&& removed->0.location == decoded(old(self)@[order_id.0] as int, ORDERS)
                &&& final(self)@ == old(self)@.remove(order_id.0)
                &&& refiles(*old(self), *final(self), order_id, removed->0.refiled@)
            },
    {
        if LEVELS == 0 || ORDERS == 0 {
            proof {
                assert(LEVELS * ORDERS == 0) by (nonlinear_arith)
                    requires
                        LEVELS == 0 || ORDERS == 0,
                ;
                if self@.contains_key(order_id.0) {
                    assert(false);
                }
            }
            return None;
        }
        proof {
            assert(LEVELS * ORDERS > 0) by (nonlinear_arith)
                requires
                    LEVELS > 0,
                    ORDERS > 0,
            ;
            self.lemma_spare();
        }
        let ghost before = *self;
        match self.table.remove_at(index_slot as usize, order_id.0) {
            None => None,
            Some(removal) => {
                let location = match Self::decode_location(removal.value) {
                    Some(location) => location,
                    None => {
                        assert(false);
                        return None;
                    },
                };
                let mut refiled: Vec<Refiled> = Vec::new();
                let mut i: usize = 0;
                while i < removal.moves.len()
                    invariant
                        i <= removal.moves@.len(),
                        refiled@.len() == i,
                        before.wf(),
                        self.table.wf(),
                        self.table.capacity() == before.table.capacity(),
                        self@ == before@.remove(order_id.0),
                        crate::probe::relocates(
                            before.table,
                            self.table,
                            order_id.0,
                            removal.moves@,
                        ),
                        forall|j: int|
                            0 <= j < i ==> #[trigger] refiled@[j] == refiling(
                                removal.moves@[j],
                                ORDERS,
                            ),
                    decreases removal.moves.len() - i,
                {
                    let m = removal.moves[i];
                    assert(m == removal.moves@[i as int]);
                    proof {
                        self.table.lemma_slot_of(m.key);
                    }
                    match Self::decode_location(m.value) {
                        Some(location) => {
                            refiled.push(
                                Refiled {
                                    order_id: OrderId(m.key),
                                    location,
                                    index_slot: m.slot as u32,
                                },
                            );
                        },
                        None => {
                            assert(false);
                        },
                    }
                    i = i + 1;
                }
                proof {
                    lemma_refiles(before, *self, order_id, removal.moves@, refiled@);
                }
                Some(Unfiled { location, refiled })
            },
        }
    }
}

spec fn refiling(m: Relocation, orders: usize) -> Refiled {
    Refiled {
        order_id: OrderId(m.key),
        location: decoded(m.value as int, orders),
        index_slot: m.slot as u32,
    }
}

/// Filed codes are in range, and no two orders share one.
pub open spec fn coded(codes: Map<u64, usize>, levels: usize, orders: usize) -> bool {
    &&& forall|id: u64|
        #![trigger codes[id]]
        codes.contains_key(id) ==> 1 <= codes[id] <= 2 * (levels * orders)
    &&& forall|a: u64, b: u64|
        #![trigger codes[a], codes[b]]
        codes.contains_key(a) && codes.contains_key(b) && codes[a] == codes[b] ==> a == b
}

pub open spec fn is_refiled(refiled: Seq<Refiled>, order_id: OrderId) -> bool {
    exists|i: int| 0 <= i < refiled.len() && (#[trigger] refiled[i]).order_id == order_id
}

/// Every order that stays filed keeps its index slot, unless `refiled` names
/// it once, with its location and its new index slot.
pub open spec fn refiles<const LEVELS: usize, const ORDERS: usize>(
    before: OrderIndex<LEVELS, ORDERS>,
    after: OrderIndex<LEVELS, ORDERS>,
    order_id: OrderId,
    refiled: Seq<Refiled>,
) -> bool {
    &&& forall|i: int|
        0 <= i < refiled.len() ==> {
            let r = #[trigger] refiled[i];
            &&& r.order_id != order_id
            &&& before@.contains_key(r.order_id.0)
            &&& r.location == decoded(before@[r.order_id.0] as int, ORDERS)
            &&& after.slot_of(r.order_id) == r.index_slot
        }
    &&& forall|i: int, j: int|
        0 <= i < j < refiled.len() ==> (#[trigger] refiled[i]).order_id != (
        #[trigger] refiled[j]).order_id
    &&& forall|other: OrderId|
        other != order_id && before@.contains_key(other.0) && !is_refiled(refiled, other)
            ==> #[trigger] after.slot_of(other) == before.slot_of(other)
}

proof fn lemma_refiles<const LEVELS: usize, const ORDERS: usize>(
    before: OrderIndex<LEVELS, ORDERS>,
    after: OrderIndex<LEVELS, ORDERS>,
    order_id: OrderId,
    moves: Seq<Relocation>,
    refiled: Seq<Refiled>,
)
    requires
        before.wf(),
        after.table.wf(),
        after.table.capacity() == before.table.capacity(),
        after@ == before@.remove(order_id.0),
        crate::probe::relocates(before.table, after.table, order_id.0, moves),
        refiled.len() == moves.len(),
        forall|j: int|
            0 <= j < moves.len() ==> #[trigger] refiled[j] == refiling(moves[j], ORDERS),
    ensures
        refiles(before, after, order_id, refiled),
        after.wf(),
{
    assert forall|i: int| 0 <= i < refiled.len() implies {
        let r = #[trigger] refiled[i];
        &&& r.order_id != order_id
        &&& before@.contains_key(r.order_id.0)
        &&& r.location == decoded(before@[r.order_id.0] as int, ORDERS)
        &&& after.slot_of(r.order_id) == r.index_slot
    } by {
        let m = moves[i];
        assert(m.key != order_id.0 && before.table@.contains_key(m.key));
        after.table.lemma_slot_of(m.key);
    }
    assert forall|i: int, j: int| 0 <= i < j < refiled.len() implies (#[trigger] refiled[i]).order_id
        != (#[trigger] refiled[j]).order_id by {
        assert(moves[i].key != moves[j].key);
    }
    assert forall|other: OrderId|
        other != order_id && before@.contains_key(other.0) && !is_refiled(refiled, other) implies #[trigger] after.slot_of(
        other,
    ) == before.slot_of(other) by {
        assert(!moved(moves, other.0)) by {
            if moved(moves, other.0) {
                let i = choose|i: int| 0 <= i < moves.len() && (#[trigger] moves[i]).key == other.0;
                assert(refiled[i].order_id == other);
            }
        }
        assert(after.table.slot_of(other.0) == before.table.slot_of(other.0));
    }
    assert(coded(after@, LEVELS, ORDERS)) by {
        assert forall|id: u64|
            #![trigger after@[id]]
            after@.contains_key(id) implies 1 <= after@[id] <= 2 * (LEVELS * ORDERS) by {
            assert(before@[id] == after@[id]);
        }
        assert forall|a: u64, b: u64|
            #![trigger after@[a], after@[b]]
            after@.contains_key(a) && after@.contains_key(b) && after@[a] == after@[b] implies a
            == b by {
            assert(before@[a] == after@[a] && before@[b] == after@[b]);
        }
    }
}

} // verus!
