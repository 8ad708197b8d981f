//! Reading a book: its top, its size, its digest and its canonical state.

use vstd::prelude::*;

use crate::book::level::{PriceLevel, NIL};
use crate::book::model::{
    crosses, digest_levels, digest_orders, order_total, side_number, total, LevelView,
};
use crate::book::order_book::snapshot::{
    level_represents, order_state, represents, side_represents,
};
use crate::book::order_book::OrderBook;
use crate::book::order_index::index_fits;
use crate::book::side::BookSide;
use crate::book::state::{BookLevelState, BookOrderState, BookState};
use crate::book::TopLevel;
use crate::digest::{mix, mixed, DIGEST_SEED};
use crate::types::{InstrumentId, PriceTicks, Side};

verus! {

fn number_of(side: Side) -> (number: u64)
    ensures
        number == side_number(side),
{
    match side {
        Side::Buy => 0,
        Side::Sell => 1,
    }
}

/// Folds the orders of a level into a digest, oldest first.
fn fold_orders<const ORDERS: usize>(digest: u64, level: &PriceLevel<ORDERS>) -> (next: u64)
    requires
        level.wf(),
    ensures
        next == digest_orders(digest, level.orders()),
{
    let ghost orders = level.orders();
    let mut next: u64 = digest;
    let mut cursor: usize = level.head();
    let ghost mut k: int = 0;
    proof {
        level.lemma_chain();
        assert(orders.take(0) =~= Seq::empty());
    }
    while cursor != NIL
        invariant
            level.wf(),
            orders == level.orders(),
            orders.len() == level.chain().len(),
            0 <= k <= orders.len(),
            cursor == (if k < level.chain().len() {
                level.chain()[k]
            } else {
                NIL
            }),
            next == digest_orders(digest, orders.take(k)),
        decreases orders.len() - k,
    {
        proof {
            level.lemma_chain();
            assert(orders.take(k + 1).drop_last() =~= orders.take(k));
            assert(orders.take(k + 1).last() == orders[k]);
        }
        match level.get_live(cursor) {
            Some(order) => {
                assert(order.logical() == orders[k]);
                next = mix(next, order.id.0);
                next = mix(next, order.account_id.0 as u64);
                next = mix(next, order.quantity.0);
                next = mix(next, order.sequence.0);
            },
            None => {
                assert(false);
            },
        }
        cursor = level.next(cursor);
        proof {
            k = k + 1;
        }
    }
    assert(orders.take(k) =~= orders);
    next
}

/// The state entry of a level.
fn export_level<const ORDERS: usize>(
    level: &PriceLevel<ORDERS>,
    side: Side,
    price: PriceTicks,
) -> (state: BookLevelState<ORDERS>)
    requires
        level.wf(),
        level.spec_price() == price,
    ensures
        level_represents(state, LevelView { price, orders: level.orders() }, side),
{
    let ghost orders = level.orders();
    let mut state: BookLevelState<ORDERS> = BookLevelState::empty(side, price);
    let mut cursor: usize = level.head();
    proof {
        level.lemma_chain();
    }
    while cursor != NIL
        invariant
            level.wf(),
            orders == level.orders(),
            orders.len() == level.chain().len(),
            orders.len() <= ORDERS,
            state.side == side,
            state.price == price,
            0 <= state.order_count <= orders.len(),
            cursor == (if state.order_count < level.chain().len() {
                level.chain()[state.order_count as int]
            } else {
                NIL
            }),
            forall|k: int|
                0 <= k < state.order_count ==> #[trigger] state.orders@[k] == order_state(
                    orders[k],
                    side,
                    price,
                ),
            forall|k: int|
                state.order_count <= k < ORDERS ==> #[trigger] state.orders@[k]
                    == BookOrderState::blank(),
        decreases orders.len() - state.order_count,
    {
        proof {
            level.lemma_chain();
        }
        match level.get_live(cursor) {
            Some(order) => {
                let count: usize = state.order_count;
                assert(order.logical() == orders[count as int]);
                state.orders[count] = BookOrderState {
                    order_id: order.id,
                    account_id: order.account_id,
                    side,
                    price,
                    quantity: order.quantity,
                    sequence: order.sequence,
                };
                state.order_count = count + 1;
            },
            None => {
                assert(false);
                vstd::pervasive::unreached()
            },
        }
        cursor = level.next(cursor);
    }
    state
}

/// The state entries of a side, and how many of them count.
fn export_side<const LEVELS: usize, const ORDERS: usize>(
    book: &BookSide<LEVELS, ORDERS>,
    output: &mut [BookLevelState<ORDERS>; LEVELS],
) -> (count: usize)
    requires
        book.wf(),
        forall|i: int| 0 <= i < LEVELS ==> (#[trigger] old(output)@[i]).is_blank(),
    ensures
        side_represents(final(output)@, count as int, book.view_levels(), book.which()),
{
    let ghost levels = book.view_levels();
    let count: usize = book.level_count();
    let side = book.side();
    let mut p: usize = 0;
    proof {
        book.lemma_view();
    }
    while p < count
        invariant
            book.wf(),
            side == book.which(),
            levels == book.view_levels(),
            count == levels.len(),
            count <= LEVELS,
            p <= count,
            forall|i: int|
                0 <= i < p ==> level_represents(#[trigger] output@[i], levels[i], side),
            forall|i: int| p <= i < LEVELS ==> (#[trigger] output@[i]).is_blank(),
        decreases count - p,
    {
        let (price, level_index) = book.entry(p);
        proof {
            book.lemma_view();
            assert(levels[p as int].orders.len() > 0);
        }
        let state = export_level(book.level(level_index), side, price);
        output[p] = state;
        p = p + 1;
    }
    count
}

impl<const LEVELS: usize, const ORDERS_PER_LEVEL: usize> OrderBook<LEVELS, ORDERS_PER_LEVEL> {
    #[must_use]
    pub fn instrument(&self) -> (instrument: InstrumentId)
        ensures
            instrument == self@.instrument,
    {
        self.instrument
    }

    /// The best level of a side with its maintained quantity total.
    #[must_use]
    pub fn top_level(&self, side: Side) -> (top: Option<TopLevel>)
        requires
            self.wf(),
        ensures
            match top {
                None => self@.side(side).len() == 0,
                Some(top) => {
                    let best = self@.side(side)[0];
                    &&& self@.side(side).len() > 0
                    &&& top.price == best.price
                    &&& top.aggregate_quantity == total(best.orders)
                    &&& top.order_count == best.orders.len()
                },
            },
    {
        let book = self.side_ref(side);
        if book.level_count() == 0 {
            return None;
        }
        proof {
            book.lemma_view();
        }
        let (price, level_index) = book.entry(0);
        let level = book.level(level_index);
        assert(level.orders() == book.view_levels()[0].orders);
        Some(
            TopLevel {
                price,
                aggregate_quantity: level.aggregate_quantity(),
                order_count: level.len(),
            },
        )
    }

    /// The slot of a side's level at a position in price order.
    pub closed spec fn level_slot(&self, side: Side, position: int) -> usize {
        self.book_side(side).entries()[position].1
    }

    /// The slot of the best level that a taker on `side` with limit `price`
    /// trades with, if there is one.
    pub fn best_crossing_level(&self, side: Side, price: PriceTicks) -> (slot: Option<usize>)
        requires
            self.wf(),
        ensures
            slot == ({
                let makers = self@.side(side.opposing());
                if makers.len() > 0 && crosses(side, price, makers[0].price) {
                    Some(self.level_slot(side.opposing(), 0))
                } else {
                    None
                }
            }),
    {
        let book = self.side_ref(side.opposite());
        if book.level_count() == 0 {
            return None;
        }
        let (level_price, level_index) = book.entry(0);
        let crossing = match side {
            Side::Buy => level_price.0 <= price.0,
            Side::Sell => level_price.0 >= price.0,
        };
        if crossing {
            Some(level_index)
        } else {
            None
        }
    }

    /// The canonical logical state of the book.
    #[must_use]
    pub fn export_state(&self) -> (state: BookState<LEVELS, ORDERS_PER_LEVEL>)
        requires
            self.wf(),
        ensures
            represents(state, self@),
    {
        let mut state: BookState<LEVELS, ORDERS_PER_LEVEL> = BookState::empty(self.instrument);
        state.bid_level_count = export_side(&self.bids, &mut state.bids);
        state.ask_level_count = export_side(&self.asks, &mut state.asks);
        state
    }

    fn digest_side(&self, digest: u64, side: Side) -> (next: u64)
        requires
            self.wf(),
        ensures
            next == digest_levels(mixed(digest, side_number(side)), self@.side(side)),
    {
        let book = self.side_ref(side);
        let ghost levels = book.view_levels();
        let ghost start = mixed(digest, side_number(side));
        let mut next: u64 = mix(digest, number_of(side));
        let count: usize = book.level_count();
        let mut p: usize = 0;
        assert(levels.take(0) =~= Seq::empty());
        while p < count
            invariant
                book.wf(),
                levels == book.view_levels(),
                count == levels.len(),
                p <= count,
                next == digest_levels(start, levels.take(p as int)),
            decreases count - p,
        {
            proof {
                book.lemma_view();
                assert(levels[p as int].orders.len() > 0);
                assert(levels.take(p + 1).drop_last() =~= levels.take(p as int));
                assert(levels.take(p + 1).last() == levels[p as int]);
            }
            let (price, level_index) = book.entry(p);
            next = mix(next, price.0 as u64);
            next = fold_orders(next, book.level(level_index));
            p = p + 1;
        }
        assert(levels.take(p as int) =~= levels);
        next
    }

    /// A digest that depends on the logical content of the book alone.
    #[must_use]
    pub fn stable_digest(&self) -> (digest: u64)
        requires
            self.wf(),
        ensures
            digest == self@.digest(),
    {
        let mut digest: u64 = mix(DIGEST_SEED, self.instrument.0 as u64);
        digest = self.digest_side(digest, Side::Buy);
        self.digest_side(digest, Side::Sell)
    }

    fn side_count(&self, side: Side) -> (count: usize)
        requires
            self.wf(),
        ensures
            count == order_total(self@.side(side)),
            count <= LEVELS * ORDERS_PER_LEVEL,
    {
        let book = self.side_ref(side);
        let ghost levels = book.view_levels();
        let levels_len: usize = book.level_count();
        let mut count: usize = 0;
        let mut p: usize = 0;
        proof {
            book.lemma_view();
            self.index.lemma_coded();
            assert(levels.take(0) =~= Seq::empty());
        }
        while p < levels_len
            invariant
                book.wf(),
                index_fits(LEVELS, ORDERS_PER_LEVEL),
                levels == book.view_levels(),
                levels_len == levels.len(),
                levels_len <= LEVELS,
                p <= levels_len,
                count == order_total(levels.take(p as int)),
                count <= p * ORDERS_PER_LEVEL,
            decreases levels_len - p,
        {
            proof {
                book.lemma_view();
                assert(levels[p as int].orders.len() > 0);
                assert(levels.take(p + 1).drop_last() =~= levels.take(p as int));
                assert(levels.take(p + 1).last() == levels[p as int]);
                assert((p + 1) * ORDERS_PER_LEVEL == p * ORDERS_PER_LEVEL + ORDERS_PER_LEVEL)
                    by (nonlinear_arith);
                assert((p + 1) * ORDERS_PER_LEVEL <= LEVELS * ORDERS_PER_LEVEL)
                    by (nonlinear_arith)
                    requires
                        p + 1 <= LEVELS,
                ;
            }
            let (price, level_index) = book.entry(p);
            let level = book.level(level_index);
            assert(level.orders() == levels[p as int].orders);
            count = count + level.len();
            p = p + 1;
        }
        proof {
            assert(levels.take(p as int) =~= levels);
            assert(p * ORDERS_PER_LEVEL <= LEVELS * ORDERS_PER_LEVEL) by (nonlinear_arith)
                requires
                    p <= LEVELS,
            ;
        }
        count
    }

    /// How many orders rest in the book.
    #[must_use]
    pub fn order_count(&self) -> (count: usize)
        requires
            self.wf(),
        ensures
            count == order_total(self@.bids) + order_total(self@.asks),
    {
        let bids: usize = self.side_count(Side::Buy);
        let asks: usize = self.side_count(Side::Sell);
        proof {
            self.index.lemma_coded();
        }
        bids + asks
    }
}

} // verus!
