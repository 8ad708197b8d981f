//! One price level: a FIFO of resting orders linked through stable slots.

use vstd::prelude::*;

use crate::book::model::{
    lemma_total_bound, lemma_total_member, lemma_total_push, lemma_total_remove,
    lemma_total_update, total, OrderView,
};
use crate::types::{AccountId, OrderId, PriceTicks, Quantity, SequenceNumber};

verus! {

/// The absent slot.
pub const NIL: usize = usize::MAX;

/// A resting order. Its price belongs to the level that holds it, and
/// `index_slot` is where the order index files it.
#[derive(Clone, Copy, Debug, PartialEq, Eq, Structural)]
pub struct RestingOrder {
    pub id: OrderId,
    pub account_id: AccountId,
    pub index_slot: u32,
    pub quantity: Quantity,
    pub sequence: SequenceNumber,
}

impl RestingOrder {
    pub open spec fn logical(self) -> OrderView {
        OrderView {
            id: self.id,
            account_id: self.account_id,
            quantity: self.quantity,
            sequence: self.sequence,
        }
    }
}

/// A live FIFO node or a free-list link.
#[derive(Clone, Copy, Debug, PartialEq, Eq, Structural)]
pub enum OrderSlot {
    Free { next_free: usize },
    Live { order: RestingOrder, prev: usize, next: usize },
}

/// A slot handle stays stable while unrelated slots change.
pub struct PriceLevel<const ORDERS: usize> {
    price: PriceTicks,
    aggregate_quantity: u128,
    slots: Vec<OrderSlot>,
    head: usize,
    tail: usize,
    free_head: usize,
    len: usize,
    chain: Ghost<Seq<usize>>,
    free: Ghost<Seq<usize>>,
}

/// The element after position `i`, or the absent slot at the end.
spec fn after(list: Seq<usize>, i: int) -> usize {
    if i + 1 < list.len() {
        list[i + 1]
    } else {
        NIL
    }
}

/// The element before position `i`, or the absent slot at the start.
spec fn before(list: Seq<usize>, i: int) -> usize {
    if i > 0 {
        list[i - 1]
    } else {
        NIL
    }
}

spec fn first(list: Seq<usize>) -> usize {
    if list.len() > 0 {
        list[0]
    } else {
        NIL
    }
}

spec fn last(list: Seq<usize>) -> usize {
    if list.len() > 0 {
        list[list.len() - 1]
    } else {
        NIL
    }
}

/// The node at position `i` links to its neighbours.
spec fn joined(slots: Seq<OrderSlot>, chain: Seq<usize>, i: int) -> bool {
    &&& slots[chain[i] as int]->prev == before(chain, i)
    &&& slots[chain[i] as int]->next == after(chain, i)
}

/// The free slot at position `i` links to the next one.
spec fn free_joined(slots: Seq<OrderSlot>, free: Seq<usize>, i: int) -> bool {
    slots[free[i] as int]->next_free == after(free, i)
}

/// `chain` lists the live slots in link order.
spec fn chain_linked(slots: Seq<OrderSlot>, chain: Seq<usize>) -> bool {
    &&& chain.no_duplicates()
    &&& forall|i: int|
        0 <= i < chain.len() ==> {
            &&& (#[trigger] chain[i]) < slots.len()
            &&& slots[chain[i] as int] is Live
        }
    &&& forall|i: int| 0 <= i < chain.len() ==> #[trigger] joined(slots, chain, i)
    &&& forall|slot: usize|
        slot < slots.len() && (#[trigger] slots[slot as int]) is Live ==> chain.contains(slot)
}

/// `free` lists the free slots in link order.
spec fn free_chained(slots: Seq<OrderSlot>, free: Seq<usize>) -> bool {
    &&& free.no_duplicates()
    &&& forall|i: int|
        0 <= i < free.len() ==> {
            &&& (#[trigger] free[i]) < slots.len()
            &&& slots[free[i] as int] is Free
        }
    &&& forall|i: int| 0 <= i < free.len() ==> #[trigger] free_joined(slots, free, i)
    &&& forall|slot: usize|
        slot < slots.len() && (#[trigger] slots[slot as int]) is Free ==> free.contains(slot)
}

/// Slots other than `slot` keep their kind and their order.
spec fn unmoved(old_slots: Seq<OrderSlot>, slots: Seq<OrderSlot>, slot: int) -> bool {
    &&& old_slots.len() == slots.len()
    &&& forall|other: int|
        0 <= other < slots.len() && other != slot ==> {
            &&& (#[trigger] slots[other] is Live) == (old_slots[other] is Live)
            &&& slots[other] is Live ==> slots[other]->order == old_slots[other]->order
        }
}

spec fn relink_next(slots: Seq<OrderSlot>, slot: usize, next: usize) -> Seq<OrderSlot> {
    if slot == NIL {
        slots
    } else {
        let node = slots[slot as int];
        slots.update(
            slot as int,
            OrderSlot::Live { order: node->order, prev: node->prev, next },
        )
    }
}

spec fn relink_prev(slots: Seq<OrderSlot>, slot: usize, prev: usize) -> Seq<OrderSlot> {
    if slot == NIL {
        slots
    } else {
        let node = slots[slot as int];
        slots.update(
            slot as int,
            OrderSlot::Live { order: node->order, prev, next: node->next },
        )
    }
}

proof fn lemma_push_links(
    slots: Seq<OrderSlot>,
    chain: Seq<usize>,
    free: Seq<usize>,
    order: RestingOrder,
)
    requires
        chain_linked(slots, chain),
        free_chained(slots, free),
        free.len() > 0,
        slots.len() <= usize::MAX,
    ensures
        ({
            let slot = free[0];
            let next = relink_next(slots, last(chain), slot).update(
                slot as int,
                OrderSlot::Live { order, prev: last(chain), next: NIL },
            );
            &&& !chain.contains(slot)
            &&& chain_linked(next, chain.push(slot))
            &&& free_chained(next, free.remove(0))
            &&& unmoved(slots, next, slot as int)
        }),
{
    let slot = free[0];
    let linked = relink_next(slots, last(chain), slot);
    let next = linked.update(slot as int, OrderSlot::Live { order, prev: last(chain), next: NIL });
    let grown = chain.push(slot);
    let rest = free.remove(0);
    if chain.len() > 0 {
        assert(slots[chain[chain.len() - 1] as int] is Live);
    }
    assert(!chain.contains(slot)) by {
        if chain.contains(slot) {
            let i = choose|i: int| 0 <= i < chain.len() && chain[i] == slot;
            assert(slots[chain[i] as int] is Live);
        }
    }
    assert(unmoved(slots, next, slot as int));
    assert(chain_linked(next, grown)) by {
        assert forall|i: int| 0 <= i < grown.len() implies {
            &&& (#[trigger] grown[i]) < next.len()
            &&& next[grown[i] as int] is Live
            &&& joined(next, grown, i)
        } by {
            if i < chain.len() {
                assert(grown[i] == chain[i]);
                assert(joined(slots, chain, i));
                assert(chain[i] != slot);
                if i + 1 < chain.len() {
                    assert(grown[i + 1] == chain[i + 1]);
                    assert(chain[i] != chain[chain.len() - 1]);
                }
            }
        }
        assert forall|s: usize| s < next.len() && (#[trigger] next[s as int]) is Live implies grown.contains(
            s,
        ) by {
            if s == slot {
                assert(grown[chain.len() as int] == s);
            } else {
                assert(slots[s as int] is Live);
                let i = choose|i: int| 0 <= i < chain.len() && chain[i] == s;
                assert(grown[i] == s);
            }
        }
    }
    assert(free_chained(next, rest)) by {
        assert forall|i: int| 0 <= i < rest.len() implies {
            &&& (#[trigger] rest[i]) < next.len()
            &&& next[rest[i] as int] is Free
            &&& free_joined(next, rest, i)
        } by {
            assert(rest[i] == free[i + 1]);
            assert(free[i + 1] != free[0]);
            assert(free_joined(slots, free, i + 1));
            if chain.len() > 0 {
                assert(free[i + 1] != chain[chain.len() - 1]);
            }
        }
        assert forall|s: usize| s < next.len() && (#[trigger] next[s as int]) is Free implies rest.contains(
            s,
        ) by {
            assert(slots[s as int] is Free);
            let i = choose|i: int| 0 <= i < free.len() && free[i] == s;
            assert(rest[i - 1] == s);
        }
    }
}

/// The slots after the node at position `k` has been taken out.
#[verifier::opaque]
spec fn unlinked(slots: Seq<OrderSlot>, chain: Seq<usize>, free: Seq<usize>, k: int) -> Seq<
    OrderSlot,
> {
    relink_prev(
        relink_next(slots, before(chain, k), after(chain, k)),
        after(chain, k),
        before(chain, k),
    ).update(chain[k] as int, OrderSlot::Free { next_free: first(free) })
}

proof fn lemma_unlinked(slots: Seq<OrderSlot>, chain: Seq<usize>, free: Seq<usize>, k: int)
    requires
        chain_linked(slots, chain),
        0 <= k < chain.len(),
        slots.len() <= usize::MAX,
    ensures
        unmoved(slots, unlinked(slots, chain, free, k), chain[k] as int),
        unlinked(slots, chain, free, k)[chain[k] as int] == (OrderSlot::Free {
            next_free: first(free),
        }),
        forall|s: int|
            0 <= s < slots.len() && s != chain[k] && slots[s] is Free ==> #[trigger] unlinked(
                slots,
                chain,
                free,
                k,
            )[s] == slots[s],
        forall|s: int|
            0 <= s < slots.len() && s != chain[k] && slots[s] is Live ==> {
                let node = #[trigger] unlinked(slots, chain, free, k)[s];
                &&& node->next == if s == before(chain, k) {
                    after(chain, k)
                } else {
                    slots[s]->next
                }
                &&& node->prev == if s == after(chain, k) {
                    before(chain, k)
                } else {
                    slots[s]->prev
                }
            },
{
    reveal(unlinked);
    if k > 0 {
        assert(chain[k - 1] < slots.len() && chain[k - 1] != chain[k]);
    }
    if k + 1 < chain.len() {
        assert(chain[k + 1] < slots.len() && chain[k + 1] != chain[k]);
        if k > 0 {
            assert(chain[k + 1] != chain[k - 1]);
        }
    }
}

#[verifier::spinoff_prover]
#[verifier::rlimit(40)]
proof fn lemma_unlink_chain(slots: Seq<OrderSlot>, chain: Seq<usize>, free: Seq<usize>, k: int)
    requires
        chain_linked(slots, chain),
        0 <= k < chain.len(),
        slots.len() <= usize::MAX,
    ensures
        chain_linked(unlinked(slots, chain, free, k), chain.remove(k)),
        first(chain.remove(k)) == (if k == 0 {
            after(chain, k)
        } else {
            chain[0]
        }),
        last(chain.remove(k)) == (if k == chain.len() - 1 {
            before(chain, k)
        } else {
            last(chain)
        }),
{
    let left = unlinked(slots, chain, free, k);
    let rest = chain.remove(k);
    lemma_unlinked(slots, chain, free, k);
    assert forall|i: int| 0 <= i < rest.len() implies {
        &&& (#[trigger] rest[i]) < left.len()
        &&& left[rest[i] as int] is Live
        &&& joined(left, rest, i)
    } by {
        let o = if i < k {
            i
        } else {
            i + 1
        };
        assert(rest[i] == chain[o]);
        assert(joined(slots, chain, o));
        assert(chain[o] != chain[k]);
        if o != k - 1 && k > 0 {
            assert(chain[o] != chain[k - 1]);
        }
        if o != k + 1 && k + 1 < chain.len() {
            assert(chain[o] != chain[k + 1]);
        }
    }
    assert forall|s: usize| s < left.len() && (#[trigger] left[s as int]) is Live implies rest.contains(
        s,
    ) by {
        assert(slots[s as int] is Live);
        let i = choose|i: int| 0 <= i < chain.len() && chain[i] == s;
        if i < k {
            assert(rest[i] == s);
        } else {
            assert(rest[i - 1] == s);
        }
    }
}

proof fn lemma_unlink_free(slots: Seq<OrderSlot>, chain: Seq<usize>, free: Seq<usize>, k: int)
    requires
        chain_linked(slots, chain),
        free_chained(slots, free),
        0 <= k < chain.len(),
        slots.len() <= usize::MAX,
    ensures
        free_chained(unlinked(slots, chain, free, k), seq![chain[k]] + free),
{
    let slot = chain[k];
    let left = unlinked(slots, chain, free, k);
    let freed = seq![slot] + free;
    lemma_unlinked(slots, chain, free, k);
    assert forall|i: int| 0 <= i < freed.len() implies {
        &&& (#[trigger] freed[i]) < left.len()
        &&& left[freed[i] as int] is Free
        &&& free_joined(left, freed, i)
    } by {
        if i > 0 {
            assert(freed[i] == free[i - 1]);
            assert(free_joined(slots, free, i - 1));
        }
        if i + 1 < freed.len() {
            assert(freed[i + 1] == free[i]);
        }
    }
    assert forall|i: int, j: int| 0 <= i < freed.len() && 0 <= j < freed.len() && i != j implies freed[i]
        != freed[j] by {
        if i > 0 {
            assert(freed[i] == free[i - 1]);
            assert(slots[free[i - 1] as int] is Free);
        }
        if j > 0 {
            assert(freed[j] == free[j - 1]);
            assert(slots[free[j - 1] as int] is Free);
        }
    }
    assert forall|s: usize| s < left.len() && (#[trigger] left[s as int]) is Free implies freed.contains(
        s,
    ) by {
        if s == slot {
            assert(freed[0] == s);
        } else {
            assert(slots[s as int] is Free);
            let i = choose|i: int| 0 <= i < free.len() && free[i] == s;
            assert(freed[i + 1] == s);
        }
    }
}

impl<const ORDERS: usize> PriceLevel<ORDERS> {
    pub closed spec fn spec_price(&self) -> PriceTicks {
        self.price
    }

    /// The live slots, oldest order first.
    pub closed spec fn chain(&self) -> Seq<usize> {
        self.chain@
    }

    pub closed spec fn live(&self, slot: int) -> bool {
        0 <= slot < self.slots@.len() && self.slots@[slot] is Live
    }

    pub closed spec fn order_at(&self, slot: int) -> RestingOrder {
        self.slots@[slot]->order
    }

    /// The orders of the level, oldest first.
    pub open spec fn orders(&self) -> Seq<OrderView> {
        Seq::new(self.chain().len(), |i: int| self.order_at(self.chain()[i] as int).logical())
    }

    pub closed spec fn wf(&self) -> bool {
        &&& self.linked()
        &&& self.free_linked()
        &&& self.chain@.len() + self.free@.len() == ORDERS
        &&& self.aggregate_quantity == total(self.orders())
    }

    spec fn linked(&self) -> bool {
        &&& self.slots@.len() == ORDERS
        &&& self.len == self.chain@.len()
        &&& self.head == first(self.chain@)
        &&& self.tail == last(self.chain@)
        &&& chain_linked(self.slots@, self.chain@)
    }

    spec fn free_linked(&self) -> bool {
        &&& self.free_head == first(self.free@)
        &&& free_chained(self.slots@, self.free@)
    }

    /// Live slots and FIFO positions correspond one to one.
    pub proof fn lemma_chain(&self)
        requires
            self.wf(),
        ensures
            self.chain().no_duplicates(),
            self.chain().len() <= ORDERS,
            forall|i: int|
                0 <= i < self.chain().len() ==> {
                    &&& (#[trigger] self.chain()[i]) < ORDERS
                    &&& self.live(self.chain()[i] as int)
                },
            forall|slot: int| #[trigger]
                self.live(slot) ==> 0 <= slot < ORDERS && self.chain().contains(slot as usize),
    {
        assert forall|slot: int| #[trigger] self.live(slot) implies 0 <= slot < ORDERS
            && self.chain().contains(slot as usize) by {
            assert(self.slots@[slot as usize as int] is Live);
        }
    }

    pub fn new(price: PriceTicks) -> (level: Self)
        ensures
            level.wf(),
            level.spec_price() == price,
            level.chain() == Seq::<usize>::empty(),
    {
        let mut slots: Vec<OrderSlot> = Vec::new();
        let mut index: usize = 0;
        while index < ORDERS
            invariant
                index <= ORDERS,
                slots@.len() == index,
                forall|i: int|
                    0 <= i < index ==> #[trigger] slots@[i] == (OrderSlot::Free {
                        next_free: if i + 1 < ORDERS {
                            (i + 1) as usize
                        } else {
                            NIL
                        },
                    }),
            decreases ORDERS - index,
        {
            slots.push(
                OrderSlot::Free {
                    next_free: if index < ORDERS - 1 {
                        index + 1
                    } else {
                        NIL
                    },
                },
            );
            index = index + 1;
        }
        let ghost free: Seq<usize> = Seq::new(ORDERS as nat, |i: int| i as usize);
        let level = PriceLevel {
            price,
            aggregate_quantity: 0,
            slots,
            head: NIL,
            tail: NIL,
            free_head: if ORDERS == 0 {
                NIL
            } else {
                0
            },
            len: 0,
            chain: Ghost(Seq::empty()),
            free: Ghost(free),
        };
        assert forall|slot: usize| slot < ORDERS implies free.contains(slot) by {
            assert(free[slot as int] == slot);
        }
        assert(level.orders().len() == 0);
        level
    }

    pub fn price(&self) -> (price: PriceTicks)
        ensures
            price == self.spec_price(),
    {
        self.price
    }

    pub fn len(&self) -> (len: usize)
        requires
            self.wf(),
        ensures
            len == self.chain().len(),
            len == self.orders().len(),
    {
        self.len
    }

    /// The maintained total of the level's quantities.
    pub fn aggregate_quantity(&self) -> (quantity: u128)
        requires
            self.wf(),
        ensures
            quantity == total(self.orders()),
    {
        self.aggregate_quantity
    }

    /// The slot of the oldest order, or the absent slot.
    pub fn head(&self) -> (slot: usize)
        requires
            self.wf(),
        ensures
            slot == (if self.chain().len() > 0 {
                self.chain()[0]
            } else {
                NIL
            }),
    {
        self.head
    }

    /// The slot behind `slot` in the FIFO, or the absent slot.
    pub fn next(&self, slot: usize) -> (next: usize)
        requires
            self.wf(),
            self.live(slot as int),
        ensures
            forall|i: int|
                0 <= i < self.chain().len() && #[trigger] self.chain()[i] == slot ==> next == (if i
                    + 1 < self.chain().len() {
                    self.chain()[i + 1]
                } else {
                    NIL
                }),
    {
        assert forall|i: int|
            0 <= i < self.chain().len() && #[trigger] self.chain()[i] == slot implies joined(
            self.slots@,
            self.chain@,
            i,
        ) by {}
        match self.slots[slot] {
            OrderSlot::Live { order, prev, next } => next,
            OrderSlot::Free { next_free } => NIL,
        }
    }

    pub fn get_live(&self, slot: usize) -> (order: Option<RestingOrder>)
        ensures
            order is Some <==> self.live(slot as int),
            order is Some ==> order->0 == self.order_at(slot as int),
    {
        if slot < self.slots.len() {
            match self.slots[slot] {
                OrderSlot::Live { order, prev, next } => Some(order),
                OrderSlot::Free { next_free } => None,
            }
        } else {
            None
        }
    }

    /// Appends at the tail and returns the stable slot handle, or `None` when
    /// the level is full. Nothing changes on `None`.
    pub fn push_tail(&mut self, order: RestingOrder) -> (slot: Option<usize>)
        requires
            old(self).wf(),
        ensures
            final(self).wf(),
            final(self).spec_price() == old(self).spec_price(),
            slot is Some <==> old(self).chain().len() < ORDERS,
            slot is None ==> *final(self) == *old(self),
            slot is Some ==> {
                &&& slot->0 < ORDERS
                &&& !old(self).live(slot->0 as int)
                &&& final(self).chain() == old(self).chain().push(slot->0)
                &&& final(self).order_at(slot->0 as int) == order
                &&& final(self).orders() == old(self).orders().push(order.logical())
                &&& forall|other: int|
                    other != slot->0 ==> #[trigger] final(self).live(other) == old(self).live(other)
                &&& forall|other: int|
                    other != slot->0 && old(self).live(other) ==> #[trigger] final(self).order_at(
                        other,
                    ) == old(self).order_at(other)
                &&& final(self).live(slot->0 as int)
            },
    {
        if self.free_head == NIL || self.len >= ORDERS {
            return None;
        }
        let slot: usize = self.free_head;
        let ghost chain = self.chain@;
        let ghost free = self.free@;
        assert(free[0] == slot);
        assert(free_joined(self.slots@, free, 0));
        let next_free: usize = match self.slots[slot] {
            OrderSlot::Free { next_free } => next_free,
            OrderSlot::Live { order, prev, next } => NIL,
        };
        if self.tail != NIL {
            let tail: usize = self.tail;
            assert(chain[chain.len() - 1] == tail);
            match self.slots[tail] {
                OrderSlot::Live { order: tail_order, prev, next } => {
                    self.slots.set(tail, OrderSlot::Live { order: tail_order, prev, next: slot });
                },
                OrderSlot::Free { next_free } => {},
            }
        }
        self.slots.set(slot, OrderSlot::Live { order, prev: self.tail, next: NIL });
        self.free_head = next_free;
        if self.tail == NIL {
            self.head = slot;
        }
        self.tail = slot;
        self.len = self.len + 1;
        proof {
            let count = old(self).orders().len();
            lemma_total_bound(old(self).orders());
            assert(count * u64::MAX + u64::MAX <= u128::MAX) by (nonlinear_arith)
                requires
                    count <= u64::MAX,
            ;
        }
        self.aggregate_quantity = self.aggregate_quantity + order.quantity.0 as u128;
        self.chain = Ghost(chain.push(slot));
        self.free = Ghost(free.remove(0));
        proof {
            lemma_push_links(old(self).slots@, chain, free, order);
            let linked = relink_next(old(self).slots@, last(chain), slot).update(
                slot as int,
                OrderSlot::Live { order, prev: last(chain), next: NIL },
            );
            assert(self.slots@ =~= linked);
            assert(forall|i: int| 0 <= i < chain.len() ==> #[trigger] chain[i] != slot);
            assert(self.orders() =~= old(self).orders().push(order.logical()));
            lemma_total_push(old(self).orders(), order.logical());
        }
        Some(slot)
    }

    /// Detaches a live slot and returns it to the free list. Stale or free
    /// handles detach nothing.
    pub fn unlink(&mut self, slot: usize) -> (removed: Option<RestingOrder>)
        requires
            old(self).wf(),
        ensures
            final(self).wf(),
            final(self).spec_price() == old(self).spec_price(),
            removed is Some <==> old(self).live(slot as int),
            removed is None ==> *final(self) == *old(self),
            removed is Some ==> {
                let k = old(self).chain().index_of(slot);
                &&& 0 <= k < old(self).chain().len()
                &&& old(self).chain()[k] == slot
                &&& removed->0 == old(self).order_at(slot as int)
                &&& final(self).chain() == old(self).chain().remove(k)
                &&& final(self).orders() == old(self).orders().remove(k)
                &&& !final(self).live(slot as int)
                &&& forall|other: int|
                    other != slot ==> #[trigger] final(self).live(other) == old(self).live(other)
                &&& forall|other: int|
                    other != slot && old(self).live(other) ==> #[trigger] final(self).order_at(
                        other,
                    ) == old(self).order_at(other)
            },
    {
        if slot >= self.slots.len() {
            return None;
        }
        let (order, prev, next) = match self.slots[slot] {
            OrderSlot::Live { order, prev, next } => (order, prev, next),
            OrderSlot::Free { next_free } => {
                return None;
            },
        };
        let ghost chain = self.chain@;
        let ghost free = self.free@;
        let ghost k = chain.index_of(slot);
        assert(chain.contains(slot));
        assert(0 <= k < chain.len() && chain[k] == slot);
        assert(joined(self.slots@, chain, k));
        proof {
            lemma_total_member(old(self).orders(), k);
            lemma_total_remove(old(self).orders(), k);
        }
        if prev == NIL {
            self.head = next;
        } else {
            assert(chain[k - 1] == prev);
            match self.slots[prev] {
                OrderSlot::Live { order: prev_order, prev: prev_prev, next: prev_next } => {
                    self.slots.set(prev, OrderSlot::Live { order: prev_order, prev: prev_prev, next });
                },
                OrderSlot::Free { next_free } => {},
            }
        }
        if next == NIL {
            self.tail = prev;
        } else {
            assert(chain[k + 1] == next);
            match self.slots[next] {
                OrderSlot::Live { order: next_order, prev: next_prev, next: next_next } => {
                    self.slots.set(next, OrderSlot::Live { order: next_order, prev, next: next_next });
                },
                OrderSlot::Free { next_free } => {},
            }
        }
        self.slots.set(slot, OrderSlot::Free { next_free: self.free_head });
        self.free_head = slot;
        self.len = self.len - 1;
        self.aggregate_quantity = self.aggregate_quantity - order.quantity.0 as u128;
        self.chain = Ghost(chain.remove(k));
        self.free = Ghost(seq![slot] + free);
        proof {
            lemma_unlinked(old(self).slots@, chain, free, k);
            lemma_unlink_chain(old(self).slots@, chain, free, k);
            lemma_unlink_free(old(self).slots@, chain, free, k);
            assert(self.slots@ =~= unlinked(old(self).slots@, chain, free, k)) by {
                reveal(unlinked);
            }
            assert(self.orders() =~= old(self).orders().remove(k));
        }
        Some(order)
    }

    /// Takes `quantity` off the order at `slot`, which keeps its place.
    pub fn reduce_quantity(&mut self, slot: usize, quantity: Quantity) -> (reduced: bool)
        requires
            old(self).wf(),
        ensures
            final(self).wf(),
            final(self).spec_price() == old(self).spec_price(),
            final(self).chain() == old(self).chain(),
            reduced <==> old(self).live(slot as int) && quantity.0 <= old(self).order_at(
                slot as int,
            ).quantity.0,
            !reduced ==> *final(self) == *old(self),
            reduced ==> {
                let k = old(self).chain().index_of(slot);
                let order = old(self).order_at(slot as int);
                let left = RestingOrder {
                    quantity: Quantity((order.quantity.0 - quantity.0) as u64),
                    ..order
                };
                &&& 0 <= k < old(self).chain().len()
                &&& old(self).chain()[k] == slot
                &&& final(self).order_at(slot as int) == left
                &&& final(self).orders() == old(self).orders().update(k, left.logical())
                &&& forall|other: int| #[trigger] final(self).live(other) == old(self).live(other)
                &&& forall|other: int|
                    other != slot && old(self).live(other) ==> #[trigger] final(self).order_at(
                        other,
                    ) == old(self).order_at(other)
            },
    {
        if slot >= self.slots.len() {
            return false;
        }
        match self.slots[slot] {
            OrderSlot::Live { order, prev, next } => {
                if quantity.0 > order.quantity.0 {
                    return false;
                }
                let ghost k = self.chain@.index_of(slot);
                assert(self.chain@.contains(slot));
                let left = RestingOrder {
                    quantity: Quantity(order.quantity.0 - quantity.0),
                    ..order
                };
                proof {
                    lemma_total_member(self.orders(), k);
                    lemma_total_update(self.orders(), k, left.logical());
                }
                self.slots.set(slot, OrderSlot::Live { order: left, prev, next });
                self.aggregate_quantity = self.aggregate_quantity - quantity.0 as u128;
                assert forall|i: int| 0 <= i < self.chain@.len() implies #[trigger] joined(
                    self.slots@,
                    self.chain@,
                    i,
                ) by {
                    assert(joined(old(self).slots@, self.chain@, i));
                }
                assert forall|i: int| 0 <= i < self.free@.len() implies #[trigger] free_joined(
                    self.slots@,
                    self.free@,
                    i,
                ) by {
                    assert(free_joined(old(self).slots@, self.free@, i));
                }
                assert(self.orders() =~= old(self).orders().update(k, left.logical()));
                true
            },
            OrderSlot::Free { next_free } => false,
        }
    }

    /// Records where the order index files the order at `slot`.
    pub fn set_index_slot(&mut self, slot: usize, index_slot: u32)
        requires
            old(self).wf(),
            old(self).live(slot as int),
        ensures
            final(self).wf(),
            final(self).spec_price() == old(self).spec_price(),
            final(self).chain() == old(self).chain(),
            final(self).orders() == old(self).orders(),
            final(self).order_at(slot as int) == (RestingOrder {
                index_slot,
                ..old(self).order_at(slot as int)
            }),
            forall|other: int| #[trigger] final(self).live(other) == old(self).live(other),
            forall|other: int|
                other != slot && old(self).live(other) ==> #[trigger] final(self).order_at(other)
                    == old(self).order_at(other),
    {
        match self.slots[slot] {
            OrderSlot::Live { order, prev, next } => {
                self.slots.set(
                    slot,
                    OrderSlot::Live { order: RestingOrder { index_slot, ..order }, prev, next },
                );
                assert forall|i: int| 0 <= i < self.chain@.len() implies #[trigger] joined(
                    self.slots@,
                    self.chain@,
                    i,
                ) by {
                    assert(joined(old(self).slots@, self.chain@, i));
                }
                assert forall|i: int| 0 <= i < self.free@.len() implies #[trigger] free_joined(
                    self.slots@,
                    self.free@,
                    i,
                ) by {
                    assert(free_joined(old(self).slots@, self.free@, i));
                }
                assert(self.orders() =~= old(self).orders());
            },
            OrderSlot::Free { next_free } => {},
        }
    }
}

} // verus!
