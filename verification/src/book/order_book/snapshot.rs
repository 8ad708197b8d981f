//! Exporting a book as canonical state and restoring it.

use vstd::prelude::*;

use crate::book::level::RestingOrder;
use crate::book::model::{
    better, has_level, lemma_rank, ordered, positive, rank, rested, BookView, LevelView, OrderView,
};
use crate::book::order_book::OrderBook;
use crate::book::order_index::index_fits;
use crate::book::state::{
    flat, id_repeats, lemma_identity_sound, lemma_orders_sound, lemma_side_sound, level_sound,
    logical_levels, order_fault, padded, side_fault, BookLevelState, BookOrderState, BookState,
    BookStateError,
};
use crate::types::{InstrumentId, OrderId, PriceTicks, Side};

verus! {

/// The state entry of a resting order.
pub open spec fn order_state(order: OrderView, side: Side, price: PriceTicks) -> BookOrderState {
    BookOrderState {
        order_id: order.id,
        account_id: order.account_id,
        side,
        price,
        quantity: order.quantity,
        sequence: order.sequence,
    }
}

/// `state` is the entry of `level`, filler included.
pub open spec fn level_represents<const ORDERS: usize>(
    state: BookLevelState<ORDERS>,
    level: LevelView,
    side: Side,
) -> bool {
    &&& state.side == side
    &&& state.price == level.price
    &&& state.order_count == level.orders.len()
    &&& forall|k: int|
        0 <= k < level.orders.len() ==> #[trigger] state.orders@[k] == order_state(
            level.orders[k],
            side,
            level.price,
        )
    &&& forall|k: int|
        level.orders.len() <= k < ORDERS ==> #[trigger] state.orders@[k] == BookOrderState::blank()
}

pub open spec fn side_represents<const ORDERS: usize>(
    states: Seq<BookLevelState<ORDERS>>,
    count: int,
    levels: Seq<LevelView>,
    side: Side,
) -> bool {
    &&& count == levels.len()
    &&& forall|i: int|
        0 <= i < levels.len() ==> level_represents(#[trigger] states[i], levels[i], side)
    &&& padded(states, count)
}

/// `state` is the canonical state of the book `view`: it fixes every field,
/// filler included.
pub open spec fn represents<const LEVELS: usize, const ORDERS: usize>(
    state: BookState<LEVELS, ORDERS>,
    view: BookView,
) -> bool {
    &&& state.instrument == view.instrument
    &&& side_represents(state.bids@, state.bid_level_count as int, view.bids, Side::Buy)
    &&& side_represents(state.asks@, state.ask_level_count as int, view.asks, Side::Sell)
}

/// The levels restored so far: the first `p` levels, and the first `k` orders
/// of the next one.
spec fn restored<const ORDERS: usize>(
    levels: Seq<BookLevelState<ORDERS>>,
    p: int,
    k: int,
) -> Seq<LevelView> {
    if k == 0 {
        logical_levels(levels, p)
    } else {
        logical_levels(levels, p).push(
            LevelView {
                price: levels[p].price,
                orders: Seq::new(k as nat, |m: int| levels[p].orders@[m].logical()),
            },
        )
    }
}

/// Sound levels are in strict price order.
proof fn lemma_prices<const ORDERS: usize>(
    levels: Seq<BookLevelState<ORDERS>>,
    count: int,
    side: Side,
    i: int,
    j: int,
)
    requires
        side_fault(levels, count, side) is None,
        0 <= i < j < count,
    ensures
        better(side, levels[i].price, levels[j].price),
    decreases j - i,
{
    lemma_side_sound(levels, count, side);
    assert(level_sound(levels, j, side));
    if i < j - 1 {
        lemma_prices(levels, count, side, i, j - 1);
    }
}

/// Every order of a level has its place in the flat list.
proof fn lemma_flat<const ORDERS: usize>(
    levels: Seq<BookLevelState<ORDERS>>,
    count: int,
    i: int,
    k: int,
)
    requires
        0 <= i < count <= levels.len(),
        forall|m: int| 0 <= m < count ==> (#[trigger] levels[m]).order_count <= ORDERS,
        0 <= k < levels[i].order_count,
    ensures
        flat(levels, i).len() + k < flat(levels, i + 1).len() <= flat(levels, count).len(),
        flat(levels, count)[flat(levels, i).len() + k] == levels[i].orders@[k],
    decreases count,
{
    assert(levels[count - 1].active().len() == levels[count - 1].order_count);
    if i < count - 1 {
        lemma_flat(levels, count - 1, i, k);
    } else {
        assert(levels[i].active()[k] == levels[i].orders@[k]);
    }
}

/// Different places have different positions in the flat list.
proof fn lemma_flat_distinct<const ORDERS: usize>(
    levels: Seq<BookLevelState<ORDERS>>,
    count: int,
    i: int,
    k: int,
    i2: int,
    k2: int,
)
    requires
        0 <= i2 <= i < count <= levels.len(),
        forall|m: int| 0 <= m < count ==> (#[trigger] levels[m]).order_count <= ORDERS,
        0 <= k < levels[i].order_count,
        0 <= k2 < levels[i2].order_count,
        i2 < i || k2 < k,
    ensures
        flat(levels, i2).len() + k2 < flat(levels, i).len() + k,
{
    lemma_flat(levels, count, i, k);
    lemma_flat(levels, count, i2, k2);
    if i2 < i {
        lemma_flat(levels, i, i2, k2);
    }
}

/// Resting the next order extends what has been restored by that order.
proof fn lemma_restore_step<const ORDERS: usize>(
    levels: Seq<BookLevelState<ORDERS>>,
    count: int,
    side: Side,
    p: int,
    k: int,
)
    requires
        side_fault(levels, count, side) is None,
        0 <= p < count <= levels.len(),
        0 <= k < levels[p].order_count,
    ensures
        rested(
            restored(levels, p, k),
            side,
            levels[p].price,
            levels[p].orders@[k].logical(),
        ) == restored(levels, p, k + 1),
        has_level(restored(levels, p, k), levels[p].price) <==> k > 0,
        rank(restored(levels, p, k), side, levels[p].price) == p,
{
    let now = restored(levels, p, k);
    let price = levels[p].price;
    let order = levels[p].orders@[k].logical();
    assert forall|i: int| 0 <= i < p implies better(side, (#[trigger] now[i]).price, price) by {
        lemma_prices(levels, count, side, i, p);
        assert(now[i] == levels[i].logical());
    }
    assert forall|i: int| p <= i < now.len() implies !better(
        side,
        (#[trigger] now[i]).price,
        price,
    ) by {}
    lemma_rank(now, side, price, p);
    if k > 0 {
        assert(now[p].price == price);
        assert(now[p].orders.push(order) =~= Seq::new(
            (k + 1) as nat,
            |m: int| levels[p].orders@[m].logical(),
        ));
        assert(rested(now, side, price, order) =~= restored(levels, p, k + 1));
    } else {
        assert(seq![order] =~= Seq::new(1nat, |m: int| levels[p].orders@[m].logical()));
        assert(now.insert(p, LevelView { price, orders: seq![order] }) =~= restored(
            levels,
            p,
            1,
        ));
    }
}

impl<const LEVELS: usize, const ORDERS_PER_LEVEL: usize> OrderBook<LEVELS, ORDERS_PER_LEVEL> {
    /// Rests the orders of the first `count` levels on an empty side.
    fn restore_side(
        &mut self,
        levels: &[BookLevelState<ORDERS_PER_LEVEL>; LEVELS],
        count: usize,
        side: Side,
        Ghost(all): Ghost<Seq<BookOrderState>>,
        Ghost(offset): Ghost<int>,
    )
        requires
            old(self).consistent(),
            old(self)@.side(side).len() == 0,
            count <= LEVELS,
            side_fault(levels@, count as int, side) is None,
            0 <= offset,
            offset + flat(levels@, count as int).len() <= all.len(),
            forall|m: int|
                0 <= m < flat(levels@, count as int).len() ==> #[trigger] flat(
                    levels@,
                    count as int,
                )[m] == all[offset + m],
            forall|j: int| 0 <= j < all.len() ==> !#[trigger] id_repeats(all, j),
            forall|id: OrderId|
                old(self)@.contains(id) ==> exists|j: int|
                    0 <= j < offset && (#[trigger] all[j]).order_id == id,
        ensures
            final(self).consistent(),
            final(self)@ == old(self)@.with_side(side, logical_levels(levels@, count as int)),
    {
        let ghost before = *self;
        let mut p: usize = 0;
        proof {
            lemma_side_sound(levels@, count as int, side);
            assert(self@.side(side) =~= restored(levels@, 0, 0));
            assert(self@ =~= before@.with_side(side, restored(levels@, 0, 0)));
        }
        while p < count
            invariant
                p <= count <= LEVELS,
                side_fault(levels@, count as int, side) is None,
                forall|i: int|
                    0 <= i < count ==> 0 < (#[trigger] levels@[i]).order_count <= ORDERS_PER_LEVEL,
                self.consistent(),
                self@ == before@.with_side(side, restored(levels@, p as int, 0)),
                0 <= offset,
                offset + flat(levels@, count as int).len() <= all.len(),
                forall|m: int|
                    0 <= m < flat(levels@, count as int).len() ==> #[trigger] flat(
                        levels@,
                        count as int,
                    )[m] == all[offset + m],
                forall|j: int| 0 <= j < all.len() ==> !#[trigger] id_repeats(all, j),
                forall|id: OrderId|
                    before@.contains(id) ==> exists|j: int|
                        0 <= j < offset && (#[trigger] all[j]).order_id == id,
            decreases count - p,
        {
            let level = &levels[p];
            let order_count: usize = level.order_count;
            let price = level.price;
            let mut k: usize = 0;
            while k < order_count
                invariant
                    p < count <= LEVELS,
                    *level == levels@[p as int],
                    price == level.price,
                    order_count == level.order_count,
                    k <= order_count,
                    side_fault(levels@, count as int, side) is None,
                    forall|i: int|
                        0 <= i < count ==> 0 < (#[trigger] levels@[i]).order_count
                            <= ORDERS_PER_LEVEL,
                    self.consistent(),
                    self@ == before@.with_side(side, restored(levels@, p as int, k as int)),
                    0 <= offset,
                    offset + flat(levels@, count as int).len() <= all.len(),
                    forall|m: int|
                        0 <= m < flat(levels@, count as int).len() ==> #[trigger] flat(
                            levels@,
                            count as int,
                        )[m] == all[offset + m],
                    forall|j: int| 0 <= j < all.len() ==> !#[trigger] id_repeats(all, j),
                    forall|id: OrderId|
                        before@.contains(id) ==> exists|j: int|
                            0 <= j < offset && (#[trigger] all[j]).order_id == id,
                decreases order_count - k,
            {
                let order = level.orders[k];
                proof {
                    lemma_restore_step(levels@, count as int, side, p as int, k as int);
                    lemma_fresh_id(
                        before@,
                        self@,
                        levels@,
                        count as int,
                        side,
                        p as int,
                        k as int,
                        all,
                        offset,
                    );
                    assert(self@.side(side) == restored(levels@, p as int, k as int));
                    assert(self.book_side(side).has_room(price));
                }
                let resting = RestingOrder {
                    id: order.order_id,
                    account_id: order.account_id,
                    index_slot: 0,
                    quantity: order.quantity,
                    sequence: order.sequence,
                };
                assert(resting.logical() == order.logical());
                self.file(side, price, resting);
                assert(self@ =~= before@.with_side(
                    side,
                    restored(levels@, p as int, k + 1),
                ));
                k = k + 1;
            }
            proof {
                let full = levels@[p as int].logical();
                assert(Seq::new(
                    order_count as nat,
                    |m: int| levels@[p as int].orders@[m].logical(),
                ) =~= full.orders);
                assert(restored(levels@, p as int, order_count as int) =~= restored(
                    levels@,
                    p + 1,
                    0,
                ));
            }
            p = p + 1;
        }
    }

    /// Builds a book from canonical logical state. A faulty state builds
    /// nothing and reports its first fault.
    pub fn from_state(
        instrument: InstrumentId,
        state: &BookState<LEVELS, ORDERS_PER_LEVEL>,
    ) -> (outcome: Result<Self, BookStateError>)
        requires
            index_fits(LEVELS, ORDERS_PER_LEVEL),
        ensures
            if state.instrument != instrument {
                outcome is Err && outcome->Err_0 == BookStateError::Instrument
            } else {
                match state.fault() {
                    Some(error) => outcome is Err && outcome->Err_0 == error,
                    None => {
                        &&& outcome is Ok
                        &&& outcome->Ok_0.wf()
                        &&& outcome->Ok_0@ == state.logical()
                    },
                }
            },
    {
        if state.instrument.0 != instrument.0 {
            return Err(BookStateError::Instrument);
        }
        if let Some(error) = state.validate() {
            return Err(error);
        }
        let mut book: OrderBook<LEVELS, ORDERS_PER_LEVEL> = OrderBook::new(instrument);
        let ghost all = state.all_orders();
        let ghost bids = flat(state.bids@, state.bid_level_count as int);
        let ghost empty = book@;
        proof {
            assert forall|j: int| 0 <= j < all.len() implies !#[trigger] id_repeats(all, j) by {
                lemma_identity_sound(all, all.len() as int, j);
            }
            assert forall|id: OrderId| !book@.contains(id) by {}
        }
        book.restore_side(&state.bids, state.bid_level_count, Side::Buy, Ghost(all), Ghost(0));
        proof {
            assert forall|id: OrderId| book@.contains(id) implies exists|j: int|
                0 <= j < bids.len() && (#[trigger] all[j]).order_id == id by {
                let (side, i, k) = book@.place(id);
                assert(book@.rests_at(id, side, i, k));
                lemma_side_sound(state.bids@, state.bid_level_count as int, Side::Buy);
                assert(side == Side::Buy);
                lemma_flat(state.bids@, state.bid_level_count as int, i, k);
                let j = flat(state.bids@, i).len() + k;
                assert(all[j] == bids[j]);
            }
        }
        book.restore_side(
            &state.asks,
            state.ask_level_count,
            Side::Sell,
            Ghost(all),
            Ghost(bids.len() as int),
        );
        proof {
            lemma_sound_ordered(state.bids@, state.bid_level_count as int, Side::Buy);
            lemma_sound_ordered(state.asks@, state.ask_level_count as int, Side::Sell);
            assert(book@ =~= state.logical());
        }
        Ok(book)
    }
}

/// The next order to restore is not in the book yet.
proof fn lemma_fresh_id<const ORDERS: usize>(
    before: BookView,
    now: BookView,
    levels: Seq<BookLevelState<ORDERS>>,
    count: int,
    side: Side,
    p: int,
    k: int,
    all: Seq<BookOrderState>,
    offset: int,
)
    requires
        0 <= p < count <= levels.len(),
        0 <= k < levels[p].order_count,
        now == before.with_side(side, restored(levels, p, k)),
        forall|i: int| 0 <= i < count ==> 0 < (#[trigger] levels[i]).order_count <= ORDERS,
        0 <= offset,
        offset + flat(levels, count).len() <= all.len(),
        forall|m: int|
            0 <= m < flat(levels, count).len() ==> #[trigger] flat(levels, count)[m] == all[offset
                + m],
        forall|j: int| 0 <= j < all.len() ==> !#[trigger] id_repeats(all, j),
        forall|id: OrderId|
            before.contains(id) ==> exists|j: int|
                0 <= j < offset && (#[trigger] all[j]).order_id == id,
    ensures
        !now.contains(levels[p].orders@[k].order_id),
{
    let id = levels[p].orders@[k].order_id;
    lemma_flat(levels, count, p, k);
    let here = flat(levels, p).len() + k;
    assert(all[offset + here] == flat(levels, count)[here]);
    assert(!id_repeats(all, offset + here));
    if now.contains(id) {
        let (s, i, m) = now.place(id);
        assert(now.rests_at(id, s, i, m));
        if s != side {
            assert(before.rests_at(id, s, i, m));
            assert(before.contains(id));
            let j = choose|j: int| 0 <= j < offset && (#[trigger] all[j]).order_id == id;
            assert(all[j].order_id == all[offset + here].order_id);
            assert(id_repeats(all, offset + here));
        } else {
            let built = restored(levels, p, k);
            assert(built[i].orders[m].id == levels[i].orders@[m].order_id);
            lemma_flat_distinct(levels, count, p, k, i, m);
            lemma_flat(levels, count, i, m);
            let there = flat(levels, i).len() + m;
            assert(all[offset + there] == flat(levels, count)[there]);
            assert(all[offset + there].order_id == all[offset + here].order_id);
            assert(id_repeats(all, offset + here));
        }
    }
}

/// Levels without fault describe a side in order.
proof fn lemma_sound_ordered<const ORDERS: usize>(
    levels: Seq<BookLevelState<ORDERS>>,
    count: int,
    side: Side,
)
    requires
        0 <= count <= levels.len(),
        side_fault(levels, count, side) is None,
    ensures
        ordered(logical_levels(levels, count), side),
{
    let view = logical_levels(levels, count);
    lemma_side_sound(levels, count, side);
    assert forall|i: int, j: int| 0 <= i < j < view.len() implies better(
        side,
        (#[trigger] view[i]).price,
        (#[trigger] view[j]).price,
    ) by {
        lemma_prices(levels, count, side, i, j);
    }
    assert forall|i: int| 0 <= i < view.len() implies {
        &&& (#[trigger] view[i]).orders.len() > 0
        &&& view[i].price.0 > 0
        &&& positive(view[i].orders)
    } by {
        assert(level_sound(levels, i, side));
        let active = levels[i].active();
        lemma_orders_sound(active, side, levels[i].price);
        assert forall|k: int| 0 <= k < view[i].orders.len() implies (
        #[trigger] view[i].orders[k]).quantity.0 > 0 by {
            assert(order_fault(active[k], side, levels[i].price) is None);
        }
    }
}

} // verus!
