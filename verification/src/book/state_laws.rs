//! What an exported state gives back, and which books can be exported.

use vstd::prelude::*;

use crate::book::laws::{
    at_place, lemma_removed_from, lemma_rested_places, level_before, level_shifted, order_before,
};
use crate::book::model::{
    better, front_left, front_trade, has_level, lemma_front_left, lemma_removed_ordered,
    lemma_swept, ordered, positive, rank, reduced_at, removed_at, rested, swept, tradable, BookView,
    OrderView,
};
use crate::book::order_book::snapshot::{level_represents, represents, side_represents};
use crate::book::state::{
    flat, id_repeats, identity_fault, lemma_orders_sound, level_fault, order_fault,
    sequence_repeats, side_fault, BookLevelState, BookOrderState, BookState,
};
use crate::types::{NewOrder, OrderId, PriceTicks, Quantity, ReplaceOrder, Side};

verus! {

impl BookView {
    /// The order at a place.
    pub open spec fn order_at(self, side: Side, i: int, k: int) -> OrderView {
        self.side(side)[i].orders[k]
    }

    /// An order rests at this place.
    pub open spec fn is_place(self, side: Side, i: int, k: int) -> bool {
        0 <= i < self.side(side).len() && 0 <= k < self.side(side)[i].orders.len()
    }

    /// Every resting order has a positive sequence number of its own, below
    /// `bound`, and sequence numbers rise within each level.
    pub open spec fn sequenced(self, bound: nat) -> bool {
        &&& forall|side: Side, i: int, k: int| #[trigger]
            self.is_place(side, i, k) ==> 0 < self.order_at(side, i, k).sequence.0 < bound
        &&& forall|side: Side, i: int, k1: int, k2: int|
            #![trigger self.is_place(side, i, k1), self.is_place(side, i, k2)]
            self.is_place(side, i, k1) && self.is_place(side, i, k2) && k1 < k2 ==> self.order_at(
                side,
                i,
                k1,
            ).sequence.0 < self.order_at(side, i, k2).sequence.0
        &&& forall|s1: Side, i1: int, k1: int, s2: Side, i2: int, k2: int|
            #![trigger self.is_place(s1, i1, k1), self.is_place(s2, i2, k2)]
            self.is_place(s1, i1, k1) && self.is_place(s2, i2, k2) && self.order_at(
                s1,
                i1,
                k1,
            ).sequence == self.order_at(s2, i2, k2).sequence ==> s1 == s2 && i1 == i2 && k1 == k2
    }

    /// The book fits the given capacities.
    pub open spec fn fits(self, max_levels: nat, max_orders: nat) -> bool {
        forall|side: Side|
            (#[trigger] self.side(side)).len() <= max_levels && forall|i: int|
                0 <= i < self.side(side).len() ==> (#[trigger] self.side(side)[i]).orders.len()
                    <= max_orders
    }
}

/// The level and the order of each position of the flat list.
proof fn lemma_flat_place<const ORDERS: usize>(
    levels: Seq<BookLevelState<ORDERS>>,
    count: int,
    m: int,
) -> (place: (int, int))
    requires
        0 <= count <= levels.len(),
        forall|i: int| 0 <= i < count ==> (#[trigger] levels[i]).order_count <= ORDERS,
        0 <= m < flat(levels, count).len(),
    ensures
        0 <= place.0 < count,
        0 <= place.1 < levels[place.0].order_count,
        m == flat(levels, place.0).len() + place.1,
        flat(levels, count)[m] == levels[place.0].orders@[place.1],
    decreases count,
{
    let earlier = flat(levels, count - 1);
    assert(levels[count - 1].active().len() == levels[count - 1].order_count);
    if m < earlier.len() {
        lemma_flat_place(levels, count - 1, m)
    } else {
        (count - 1, m - earlier.len())
    }
}

/// The entry of a sound level is without fault.
proof fn lemma_level_without_fault<const ORDERS: usize>(
    state: BookLevelState<ORDERS>,
    view: BookView,
    side: Side,
    i: int,
    bound: nat,
)
    requires
        ordered(view.side(side), side),
        view.sequenced(bound),
        0 <= i < view.side(side).len(),
        view.side(side)[i].orders.len() <= ORDERS,
        level_represents(state, view.side(side)[i], side),
    ensures
        level_fault(
            state,
            side,
            if i >= 1 {
                Some(view.side(side)[i - 1].price)
            } else {
                None
            },
        ) is None,
        state.logical() == view.side(side)[i],
{
    let level = view.side(side)[i];
    let active = state.active();
    assert(level.orders.len() > 0 && positive(level.orders));
    if i >= 1 {
        assert(better(side, view.side(side)[i - 1].price, level.price));
    }
    assert forall|k: int| 0 <= k < active.len() implies order_fault(
        #[trigger] active[k],
        side,
        state.price,
    ) is None by {
        assert(active[k] == state.orders@[k]);
        assert(view.is_place(side, i, k));
        assert(level.orders[k].quantity.0 > 0);
    }
    lemma_orders_sound(active, side, state.price);
    assert forall|a: int, b: int| 0 <= a < b < active.len() implies (#[trigger] active[a]).sequence.0
        < (#[trigger] active[b]).sequence.0 by {
        assert(view.is_place(side, i, a) && view.is_place(side, i, b));
        assert(active[a] == state.orders@[a] && active[b] == state.orders@[b]);
    }
    assert forall|k: int| 0 <= k < level.orders.len() implies #[trigger] state.logical().orders[k]
        == level.orders[k] by {
        assert(active[k] == state.orders@[k]);
    }
    assert(state.logical().orders =~= level.orders);
}

proof fn lemma_side_without_fault<const ORDERS: usize>(
    states: Seq<BookLevelState<ORDERS>>,
    view: BookView,
    side: Side,
    bound: nat,
    count: int,
)
    requires
        ordered(view.side(side), side),
        view.sequenced(bound),
        side_represents(states, view.side(side).len() as int, view.side(side), side),
        0 <= count <= view.side(side).len() <= states.len(),
        forall|i: int|
            0 <= i < view.side(side).len() ==> (#[trigger] view.side(side)[i]).orders.len()
                <= ORDERS,
    ensures
        side_fault(states, count, side) is None,
    decreases count,
{
    if count > 0 {
        lemma_side_without_fault(states, view, side, bound, count - 1);
        let i = count - 1;
        assert(level_represents(states[i], view.side(side)[i], side));
        lemma_level_without_fault(states[i], view, side, i, bound);
        if i >= 1 {
            assert(level_represents(states[i - 1], view.side(side)[i - 1], side));
        }
    }
}

/// The place in the book of each position of the state's order list.
proof fn lemma_all_place<const LEVELS: usize, const ORDERS: usize>(
    state: BookState<LEVELS, ORDERS>,
    view: BookView,
    m: int,
) -> (place: (Side, int, int))
    requires
        represents(state, view),
        view.fits(LEVELS as nat, ORDERS as nat),
        0 <= m < state.all_orders().len(),
    ensures
        view.is_place(place.0, place.1, place.2),
        state.all_orders()[m].order_id == view.order_at(place.0, place.1, place.2).id,
        state.all_orders()[m].sequence == view.order_at(place.0, place.1, place.2).sequence,
        m == if place.0 == Side::Buy {
            flat(state.bids@, place.1).len() + place.2
        } else {
            flat(state.bids@, state.bid_level_count as int).len() + flat(
                state.asks@,
                place.1,
            ).len() + place.2
        },
{
    let bids = flat(state.bids@, state.bid_level_count as int);
    assert(view.side(Side::Buy).len() <= LEVELS && view.side(Side::Sell).len() <= LEVELS);
    if m < bids.len() {
        assert forall|i: int| 0 <= i < state.bid_level_count implies (
        #[trigger] state.bids@[i]).order_count <= ORDERS by {
            assert(level_represents(state.bids@[i], view.bids[i], Side::Buy));
            assert(view.side(Side::Buy)[i].orders.len() <= ORDERS);
        }
        let (i, k) = lemma_flat_place(state.bids@, state.bid_level_count as int, m);
        assert(level_represents(state.bids@[i], view.bids[i], Side::Buy));
        (Side::Buy, i, k)
    } else {
        assert forall|i: int| 0 <= i < state.ask_level_count implies (
        #[trigger] state.asks@[i]).order_count <= ORDERS by {
            assert(level_represents(state.asks@[i], view.asks[i], Side::Sell));
            assert(view.side(Side::Sell)[i].orders.len() <= ORDERS);
        }
        let (i, k) = lemma_flat_place(
            state.asks@,
            state.ask_level_count as int,
            m - bids.len(),
        );
        assert(level_represents(state.asks@[i], view.asks[i], Side::Sell));
        (Side::Sell, i, k)
    }
}

/// No other order shares the identifier or the sequence number of order `j`.
#[verifier::opaque]
spec fn lone(all: Seq<BookOrderState>, j: int) -> bool {
    !id_repeats(all, j) && !sequence_repeats(all, j)
}

proof fn lemma_identity_without_fault(all: Seq<BookOrderState>, count: int)
    requires
        forall|j: int| 0 <= j < count ==> #[trigger] lone(all, j),
    ensures
        identity_fault(all, count) is None,
    decreases count,
{
    if count > 0 {
        lemma_identity_without_fault(all, count - 1);
        assert(lone(all, count - 1));
        reveal(lone);
    }
}

/// The canonical state of a sound book whose orders are sequenced restores
/// that book: the state is without fault and describes the book it came from.
pub proof fn law_export_restores<const LEVELS: usize, const ORDERS: usize>(
    state: BookState<LEVELS, ORDERS>,
    view: BookView,
    bound: nat,
)
    requires
        represents(state, view),
        view.sound(),
        view.fits(LEVELS as nat, ORDERS as nat),
        view.sequenced(bound),
    ensures
        state.fault() is None,
        state.logical() == view,
        state.logical().digest() == view.digest(),
{
    assert(view.side(Side::Buy).len() <= LEVELS && view.side(Side::Sell).len() <= LEVELS);
    lemma_side_without_fault(state.bids@, view, Side::Buy, bound, view.bids.len() as int);
    lemma_side_without_fault(state.asks@, view, Side::Sell, bound, view.asks.len() as int);
    if state.bid_level_count > 0 && state.ask_level_count > 0 {
        assert(level_represents(state.bids@[0], view.bids[0], Side::Buy));
        assert(level_represents(state.asks@[0], view.asks[0], Side::Sell));
    }
    let all = state.all_orders();
    assert forall|j: int| 0 <= j < all.len() implies #[trigger] lone(all, j) by {
        reveal(lone);
        let (s, i, k) = lemma_all_place(state, view, j);
        assert forall|m: int| 0 <= m < all.len() && m != j implies (#[trigger] all[m]).order_id
            != all[j].order_id && all[m].sequence != all[j].sequence by {
            let (s2, i2, k2) = lemma_all_place(state, view, m);
            assert(view.is_place(s, i, k) && view.is_place(s2, i2, k2));
            if all[m].order_id == all[j].order_id {
                assert(view.rests_at(all[j].order_id, s, i, k));
                assert(view.rests_at(all[j].order_id, s2, i2, k2));
            }
        }
    }
    lemma_identity_without_fault(all, all.len() as int);
    assert forall|i: int| 0 <= i < view.bids.len() implies #[trigger] state.bids@[i].logical()
        == view.bids[i] by {
        assert(level_represents(state.bids@[i], view.bids[i], Side::Buy));
        assert(view.side(Side::Buy)[i].orders.len() <= ORDERS);
        lemma_level_without_fault(state.bids@[i], view, Side::Buy, i, bound);
    }
    assert forall|i: int| 0 <= i < view.asks.len() implies #[trigger] state.asks@[i].logical()
        == view.asks[i] by {
        assert(level_represents(state.asks@[i], view.asks[i], Side::Sell));
        assert(view.side(Side::Sell)[i].orders.len() <= ORDERS);
        lemma_level_without_fault(state.asks@[i], view, Side::Sell, i, bound);
    }
    assert(state.logical().bids =~= view.bids);
    assert(state.logical().asks =~= view.asks);
}

proof fn lemma_sequenced_removed(view: BookView, side: Side, i: int, k: int, bound: nat)
    requires
        view.sequenced(bound),
        view.is_place(side, i, k),
    ensures
        view.with_side(side, removed_at(view.side(side), i, k)).sequenced(bound),
{
    let levels = view.side(side);
    let after = view.with_side(side, removed_at(levels, i, k));
    assert(after.side(side) == removed_at(levels, i, k));
    assert(after.side(side.opposing()) == view.side(side.opposing()));
    assert forall|s: Side, a: int, b: int| #[trigger] after.is_place(s, a, b) implies if s == side {
        let a0 = level_before(levels, i, a);
        let b0 = order_before(levels, i, k, a, b);
        &&& view.is_place(s, a0, b0)
        &&& view.order_at(s, a0, b0) == after.order_at(s, a, b)
    } else {
        &&& view.is_place(s, a, b)
        &&& view.order_at(s, a, b) == after.order_at(s, a, b)
    } by {
        if s == side {
            lemma_removed_from(levels, i, k, a, b);
            let a0 = level_before(levels, i, a);
            let b0 = order_before(levels, i, k, a, b);
            assert(view.is_place(s, a0, b0));
        } else {
            assert(view.is_place(s, a, b));
        }
    }
}

proof fn lemma_sequenced_reduced(
    view: BookView,
    side: Side,
    i: int,
    k: int,
    quantity: int,
    bound: nat,
)
    requires
        view.sequenced(bound),
        view.is_place(side, i, k),
    ensures
        view.with_side(side, reduced_at(view.side(side), i, k, quantity)).sequenced(bound),
{
    let after = view.with_side(side, reduced_at(view.side(side), i, k, quantity));
    assert(after.side(side) == reduced_at(view.side(side), i, k, quantity));
    assert(after.side(side.opposing()) == view.side(side.opposing()));
    assert forall|s: Side, a: int, b: int| #[trigger] after.is_place(s, a, b) implies view.is_place(
        s,
        a,
        b,
    ) && view.order_at(s, a, b).sequence == after.order_at(s, a, b).sequence by {}
}

proof fn lemma_sequenced_rested(
    view: BookView,
    side: Side,
    price: PriceTicks,
    order: OrderView,
    bound: nat,
)
    requires
        ordered(view.side(side), side),
        view.sequenced(bound),
        order.sequence.0 >= bound,
        order.sequence.0 > 0,
    ensures
        view.with_side(side, rested(view.side(side), side, price, order)).sequenced(
            (order.sequence.0 + 1) as nat,
        ),
{
    let levels = view.side(side);
    let next = rested(levels, side, price, order);
    let after = view.with_side(side, next);
    let r = rank(levels, side, price);
    let last = next[r].orders.len() - 1;
    lemma_rested_places(levels, side, price, order);
    assert(after.side(side) == next);
    assert(after.side(side.opposing()) == view.side(side.opposing()));
    assert forall|s: Side, a: int, b: int| #[trigger] after.is_place(s, a, b) implies if s == side
        && a == r && b == last {
        after.order_at(s, a, b) == order
    } else if s == side {
        let a0 = if !has_level(levels, price) && a > r {
            a - 1
        } else {
            a
        };
        &&& view.is_place(s, a0, b)
        &&& view.order_at(s, a0, b) == after.order_at(s, a, b)
        &&& level_shifted(levels, side, price, a0) == a
    } else {
        &&& view.is_place(s, a, b)
        &&& view.order_at(s, a, b) == after.order_at(s, a, b)
    } by {
        if s == side {
            assert(at_place(next, a, b));
            if a != r || b != last {
                let a0 = if !has_level(levels, price) && a > r {
                    a - 1
                } else {
                    a
                };
                assert(view.is_place(s, a0, b));
            }
        } else {
            assert(view.is_place(s, a, b));
        }
    }
    assert forall|s: Side, i: int, k1: int, k2: int|
        #![trigger after.is_place(s, i, k1), after.is_place(s, i, k2)]
        after.is_place(s, i, k1) && after.is_place(s, i, k2) && k1 < k2 implies after.order_at(
        s,
        i,
        k1,
    ).sequence.0 < after.order_at(s, i, k2).sequence.0 by {
        let a0 = if s == side && !has_level(levels, price) && i > r {
            i - 1
        } else {
            i
        };
        assert(view.is_place(s, a0, k1));
        if !(s == side && i == r && k2 == last) {
            assert(view.is_place(s, a0, k2));
        }
    }
}

proof fn lemma_sequenced_swept(
    view: BookView,
    taker: Side,
    limit: PriceTicks,
    quantity: nat,
    bound: nat,
)
    requires
        ordered(view.side(taker.opposing()), taker.opposing()),
        view.sequenced(bound),
    ensures
        view.with_side(
            taker.opposing(),
            swept(view.side(taker.opposing()), taker, limit, quantity),
        ).sequenced(bound),
    decreases quantity,
{
    let side = taker.opposing();
    let levels = view.side(side);
    if quantity == 0 || !tradable(levels, taker, limit) {
        assert(view.with_side(side, levels) =~= view);
    } else {
        let traded = front_trade(levels, quantity);
        let left = front_left(levels, traded);
        assert(view.is_place(side, 0, 0));
        if traded == levels[0].orders[0].quantity.0 {
            lemma_sequenced_removed(view, side, 0, 0, bound);
        } else {
            lemma_sequenced_reduced(view, side, 0, 0, traded as int, bound);
        }
        lemma_front_left(levels, side, traded);
        let next = view.with_side(side, left);
        lemma_sequenced_swept(next, taker, limit, (quantity - traded) as nat, bound);
        assert(next.side(side) == left);
        let done = swept(left, taker, limit, (quantity - traded) as nat);
        assert(next.with_side(side, done) =~= view.with_side(side, done));
    }
}

/// Orders submitted with rising sequence numbers keep a book exportable.
pub proof fn law_submit_keeps_sequence(view: BookView, order: NewOrder, bound: nat)
    requires
        view.sound(),
        view.sequenced(bound),
        order.sequence.0 >= bound,
        order.sequence.0 > 0,
    ensures
        view.submitted(order).sequenced((order.sequence.0 + 1) as nat),
{
    let makers = order.side.opposing();
    let left = swept(view.side(makers), order.side, order.price, order.quantity.0 as nat);
    let traded = view.with_side(makers, left);
    lemma_sequenced_swept(view, order.side, order.price, order.quantity.0 as nat, bound);
    lemma_swept(view.side(makers), order.side, order.price, order.quantity.0 as nat);
    let own = view.side(order.side);
    assert(traded.side(order.side) == own);
    let resting = OrderView {
        id: order.order_id,
        account_id: order.account_id,
        quantity: Quantity(view.order_rests(order) as u64),
        sequence: order.sequence,
    };
    if view.order_rests(order) > 0 {
        lemma_sequenced_rested(traded, order.side, order.price, resting, bound);
    }
}

/// Cancels keep a book exportable.
pub proof fn law_cancel_keeps_sequence(view: BookView, id: OrderId, bound: nat)
    requires
        view.sequenced(bound),
        view.contains(id),
    ensures
        view.without(id).sequenced(bound),
{
    let (side, i, k) = view.place(id);
    assert(view.rests_at(id, side, i, k));
    lemma_sequenced_removed(view, side, i, k, bound);
}

/// Replacements with rising sequence numbers keep a book exportable.
pub proof fn law_replace_keeps_sequence(view: BookView, replace: ReplaceOrder, bound: nat)
    requires
        view.sound(),
        view.contains(replace.order_id),
        view.sequenced(bound),
        replace.sequence.0 >= bound,
        replace.sequence.0 > 0,
    ensures
        view.replaced(replace).sequenced((replace.sequence.0 + 1) as nat),
{
    let (side, i, k) = view.place(replace.order_id);
    assert(view.rests_at(replace.order_id, side, i, k));
    if view.keeps_priority(replace) {
        lemma_sequenced_reduced(
            view,
            side,
            i,
            k,
            view.order(replace.order_id).quantity.0 - replace.quantity.0,
            bound,
        );
    } else {
        lemma_sequenced_removed(view, side, i, k, bound);
        lemma_removed_ordered(view.side(side), side, i, k);
        let gone = view.without(replace.order_id);
        assert(gone.side(side) == removed_at(view.side(side), i, k));
        lemma_sequenced_rested(
            gone,
            side,
            replace.price,
            OrderView {
                id: replace.order_id,
                account_id: replace.account_id,
                quantity: replace.quantity,
                sequence: replace.sequence,
            },
            bound,
        );
    }
}

} // verus!
