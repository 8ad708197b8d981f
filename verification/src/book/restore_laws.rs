//! Which states describe a book, and which book they describe.

use vstd::prelude::*;

use crate::book::state::{
    id_repeats, identity_fault, level_fault, order_fault, orders_fault, rising, sequence_repeats,
    side_fault, BookLevelState, BookOrderState, BookState, BookStateError,
};
use crate::types::{PriceTicks, Side};

verus! {

/// The order belongs to the side and the price of its level, has something left, and
/// has a sequence.
pub open spec fn order_fits(order: BookOrderState, side: Side, price: PriceTicks) -> bool {
    &&& order.side == side
    &&& order.price == price
    &&& order.quantity.0 > 0
    &&& order.sequence.0 > 0
}

/// Nothing is in the place of an order.
pub open spec fn vacant(order: BookOrderState) -> bool {
    &&& order.order_id.0 == 0
    &&& order.account_id.0 == 0
    &&& order.side == Side::Buy
    &&& order.price.0 == 0
    &&& order.quantity.0 == 0
    &&& order.sequence.0 == 0
}

/// A level has a price of its own and at least one order, oldest first, and nothing
/// behind them.
pub open spec fn level_fits<const ORDERS: usize>(level: BookLevelState<ORDERS>, side: Side) -> bool {
    &&& level.side == side
    &&& level.price.0 > 0
    &&& 0 < level.order_count <= ORDERS
    &&& forall|k: int|
        0 <= k < level.order_count ==> order_fits(#[trigger] level.orders@[k], side, level.price)
    &&& forall|a: int, b: int|
        0 <= a < b < level.order_count ==> (#[trigger] level.orders@[a]).sequence.0 < (
        #[trigger] level.orders@[b]).sequence.0
    &&& forall|k: int| level.order_count <= k < ORDERS ==> vacant(#[trigger] level.orders@[k])
}

/// Bids fall and asks rise from one level to the next.
pub open spec fn in_price_order<const ORDERS: usize>(
    levels: Seq<BookLevelState<ORDERS>>,
    count: int,
    side: Side,
) -> bool {
    forall|i: int, j: int|
        0 <= i < j < count ==> match side {
            Side::Buy => (#[trigger] levels[i]).price.0 > (#[trigger] levels[j]).price.0,
            Side::Sell => levels[i].price.0 < levels[j].price.0,
        }
}

/// What is wrong with one order, each fault with its cause: the first of the causes
/// that holds.
pub proof fn law_order_faults(order: BookOrderState, side: Side, price: PriceTicks)
    ensures
        ({
            let fault = order_fault(order, side, price);
            let sided = order.side == side;
            let priced = sided && order.price == price;
            let live = priced && order.quantity.0 > 0;
            &&& !sided <==> fault == Some(BookStateError::Side)
            &&& sided && !priced <==> fault == Some(BookStateError::Price)
            &&& priced && !live <==> fault == Some(BookStateError::Quantity)
            &&& live && order.sequence.0 == 0 <==> fault == Some(BookStateError::Sequence)
            &&& live && order.sequence.0 > 0 <==> fault is None
        }),
{
}

proof fn lemma_orders(orders: Seq<BookOrderState>, side: Side, price: PriceTicks)
    ensures
        orders_fault(orders, side, price) is None <==> forall|k: int|
            0 <= k < orders.len() ==> order_fits(#[trigger] orders[k], side, price),
    decreases orders.len(),
{
    if orders.len() > 0 {
        let init = orders.drop_last();
        lemma_orders(init, side, price);
        if orders_fault(orders, side, price) is None {
            assert forall|k: int| 0 <= k < orders.len() implies order_fits(
                #[trigger] orders[k],
                side,
                price,
            ) by {
                if k < init.len() {
                    assert(init[k] == orders[k]);
                }
            }
        }
        if forall|k: int|
            0 <= k < orders.len() ==> order_fits(#[trigger] orders[k], side, price) {
            assert forall|k: int| 0 <= k < init.len() implies order_fits(
                #[trigger] init[k],
                side,
                price,
            ) by {
                assert(init[k] == orders[k]);
            }
            assert(order_fits(orders[orders.len() - 1], side, price));
        }
    }
}

/// A level without fault behind a level at `prior` is one that fits its side and whose
/// price is worse.
pub proof fn law_level_is_accepted<const ORDERS: usize>(
    level: BookLevelState<ORDERS>,
    side: Side,
    prior: Option<PriceTicks>,
)
    ensures
        level_fault(level, side, prior) is None <==> {
            &&& level_fits(level, side)
            &&& prior is Some ==> match side {
                Side::Buy => (prior->0).0 > level.price.0,
                Side::Sell => (prior->0).0 < level.price.0,
            }
        },
        level.side != side ==> level_fault(level, side, prior) == Some(BookStateError::Side),
        level.side == side && level.price.0 <= 0 ==> level_fault(level, side, prior) == Some(
            BookStateError::Price,
        ),
        level.side == side && level.price.0 > 0 && (level.order_count == 0 || level.order_count
            > ORDERS) ==> level_fault(level, side, prior) == Some(BookStateError::OrderCapacity),
        level.side == side && level.price.0 > 0 && 0 < level.order_count <= ORDERS && prior is Some
            && (match side {
            Side::Buy => (prior->0).0 <= level.price.0,
            Side::Sell => (prior->0).0 >= level.price.0,
        }) ==> level_fault(level, side, prior) == Some(BookStateError::LevelOrder),
{
    if 0 < level.order_count <= ORDERS {
        let active = level.active();
        lemma_orders(active, side, level.price);
        assert forall|k: int| 0 <= k < level.order_count implies #[trigger] level.orders@[k]
            == active[k] by {}
        if level_fault(level, side, prior) is None {
            assert forall|k: int| level.order_count <= k < ORDERS implies vacant(
                #[trigger] level.orders@[k],
            ) by {
                assert(level.orders@[k] == BookOrderState::blank());
            }
            assert forall|a: int, b: int| 0 <= a < b < level.order_count implies (
            #[trigger] level.orders@[a]).sequence.0 < (#[trigger] level.orders@[b]).sequence.0 by {
                assert(active[a].sequence.0 < active[b].sequence.0);
            }
        }
        if level_fits(level, side) {
            assert forall|k: int| 0 <= k < active.len() implies order_fits(
                #[trigger] active[k],
                side,
                level.price,
            ) by {
                assert(order_fits(level.orders@[k], side, level.price));
            }
            assert forall|a: int, b: int| 0 <= a < b < active.len() implies (
            #[trigger] active[a]).sequence.0 < (#[trigger] active[b]).sequence.0 by {
                assert(level.orders@[a].sequence.0 < level.orders@[b].sequence.0);
            }
            assert forall|k: int| level.order_count <= k < ORDERS implies #[trigger] level.orders@[k]
                == BookOrderState::blank() by {
                assert(vacant(level.orders@[k]));
            }
        }
    }
}

proof fn lemma_side<const ORDERS: usize>(
    levels: Seq<BookLevelState<ORDERS>>,
    count: int,
    side: Side,
)
    requires
        0 <= count,
    ensures
        side_fault(levels, count, side) is None <==> {
            &&& forall|i: int| 0 <= i < count ==> level_fits(#[trigger] levels[i], side)
            &&& in_price_order(levels, count, side)
        },
    decreases count,
{
    if count > 0 {
        lemma_side(levels, count - 1, side);
        let last = levels[count - 1];
        let prior = if count >= 2 {
            Some(levels[count - 2].price)
        } else {
            None
        };
        law_level_is_accepted(last, side, prior);
        if side_fault(levels, count, side) is None {
            assert forall|i: int, j: int| 0 <= i < j < count implies match side {
                Side::Buy => (#[trigger] levels[i]).price.0 > (#[trigger] levels[j]).price.0,
                Side::Sell => levels[i].price.0 < levels[j].price.0,
            } by {
                if j == count - 1 && i < count - 2 {
                    assert(match side {
                        Side::Buy => levels[i].price.0 > levels[count - 2].price.0,
                        Side::Sell => levels[i].price.0 < levels[count - 2].price.0,
                    });
                }
            }
        }
        if (forall|i: int| 0 <= i < count ==> level_fits(#[trigger] levels[i], side))
            && in_price_order(levels, count, side) {
            assert(in_price_order(levels, count - 1, side));
            assert(level_fits(levels[count - 1], side));
            if count >= 2 {
                assert(match side {
                    Side::Buy => levels[count - 2].price.0 > levels[count - 1].price.0,
                    Side::Sell => levels[count - 2].price.0 < levels[count - 1].price.0,
                });
            }
        }
    }
}

proof fn lemma_identity(all: Seq<BookOrderState>, count: int)
    requires
        0 <= count <= all.len(),
    ensures
        identity_fault(all, count) is None <==> forall|j: int, m: int|
            0 <= j < count && 0 <= m < all.len() && m != j ==> {
                &&& (#[trigger] all[j]).order_id != (#[trigger] all[m]).order_id
                &&& all[j].sequence != all[m].sequence
            },
    decreases count,
{
    if count > 0 {
        lemma_identity(all, count - 1);
        let j = count - 1;
        if identity_fault(all, count) is None {
            assert forall|m: int| 0 <= m < all.len() && m != j implies {
                &&& all[j].order_id != (#[trigger] all[m]).order_id
                &&& all[j].sequence != all[m].sequence
            } by {
                assert(!id_repeats(all, j) && !sequence_repeats(all, j));
            }
        }
        if forall|j: int, m: int|
            0 <= j < count && 0 <= m < all.len() && m != j ==> {
                &&& (#[trigger] all[j]).order_id != (#[trigger] all[m]).order_id
                &&& all[j].sequence != all[m].sequence
            } {
            assert(!id_repeats(all, j)) by {
                if id_repeats(all, j) {
                    let m = choose|m: int|
                        0 <= m < all.len() && m != j && (#[trigger] all[m]).order_id
                            == all[j].order_id;
                    assert(all[j].order_id != all[m].order_id);
                }
            }
            assert(!sequence_repeats(all, j)) by {
                if sequence_repeats(all, j) {
                    let m = choose|m: int|
                        0 <= m < all.len() && m != j && (#[trigger] all[m]).sequence
                            == all[j].sequence;
                    assert(all[j].sequence != all[m].sequence);
                }
            }
        }
    }
}

/// A level that does not count holds nothing.
pub open spec fn level_vacant<const ORDERS: usize>(level: BookLevelState<ORDERS>) -> bool {
    &&& level.side == Side::Buy
    &&& level.price.0 == 0
    &&& level.order_count == 0
    &&& forall|k: int| 0 <= k < ORDERS ==> vacant(#[trigger] level.orders@[k])
}

proof fn lemma_vacant<const ORDERS: usize>(level: BookLevelState<ORDERS>)
    ensures
        level.is_blank() <==> level_vacant(level),
{
    if level.is_blank() {
        assert forall|k: int| 0 <= k < ORDERS implies vacant(#[trigger] level.orders@[k]) by {
            assert(level.orders@[k] == BookOrderState::blank());
        }
    }
    if level_vacant(level) {
        assert forall|k: int| 0 <= k < ORDERS implies #[trigger] level.orders@[k]
            == BookOrderState::blank() by {
            assert(vacant(level.orders@[k]));
        }
    }
}

/// A state is accepted exactly when it is that of a book: no side has too many levels,
/// each level that counts fits its side, bids fall and asks rise, nothing is in the
/// places that do not count, the best bid is below the best ask, and no two orders
/// share an identifier or a sequence.
pub proof fn law_accepted_states<const LEVELS: usize, const ORDERS: usize>(
    state: BookState<LEVELS, ORDERS>,
)
    ensures
        state.fault() is None <==> {
            let all = state.all_orders();
            &&& state.bid_level_count <= LEVELS
            &&& state.ask_level_count <= LEVELS
            &&& forall|i: int|
                0 <= i < state.bid_level_count ==> level_fits(
                    #[trigger] state.bids@[i],
                    Side::Buy,
                )
            &&& forall|i: int|
                0 <= i < state.ask_level_count ==> level_fits(
                    #[trigger] state.asks@[i],
                    Side::Sell,
                )
            &&& in_price_order(state.bids@, state.bid_level_count as int, Side::Buy)
            &&& in_price_order(state.asks@, state.ask_level_count as int, Side::Sell)
            &&& forall|i: int|
                state.bid_level_count <= i < LEVELS ==> level_vacant(#[trigger] state.bids@[i])
            &&& forall|i: int|
                state.ask_level_count <= i < LEVELS ==> level_vacant(#[trigger] state.asks@[i])
            &&& state.bid_level_count > 0 && state.ask_level_count > 0
                ==> state.bids@[0].price.0 < state.asks@[0].price.0
            &&& forall|j: int, m: int|
                0 <= j < all.len() && 0 <= m < all.len() && m != j ==> {
                    &&& (#[trigger] all[j]).order_id != (#[trigger] all[m]).order_id
                    &&& all[j].sequence != all[m].sequence
                }
        },
{
    lemma_side(state.bids@, state.bid_level_count as int, Side::Buy);
    lemma_side(state.asks@, state.ask_level_count as int, Side::Sell);
    lemma_identity(state.all_orders(), state.all_orders().len() as int);
    assert forall|i: int| 0 <= i < LEVELS implies (#[trigger] state.bids@[i]).is_blank()
        == level_vacant(state.bids@[i]) by {
        lemma_vacant(state.bids@[i]);
    }
    assert forall|i: int| 0 <= i < LEVELS implies (#[trigger] state.asks@[i]).is_blank()
        == level_vacant(state.asks@[i]) by {
        lemma_vacant(state.asks@[i]);
    }
}

/// The book that a state describes has its instrument, and level by level and order by
/// order what the state says.
pub proof fn law_restored_book<const LEVELS: usize, const ORDERS: usize>(
    state: BookState<LEVELS, ORDERS>,
    side: Side,
    i: int,
    k: int,
)
    requires
        state.fault() is None,
        0 <= i < match side {
            Side::Buy => state.bid_level_count,
            Side::Sell => state.ask_level_count,
        },
        0 <= k < match side {
            Side::Buy => state.bids@[i].order_count,
            Side::Sell => state.asks@[i].order_count,
        },
    ensures
        ({
            let (levels, level) = match side {
                Side::Buy => (state.logical().bids, state.bids@[i]),
                Side::Sell => (state.logical().asks, state.asks@[i]),
            };
            &&& state.logical().instrument == state.instrument
            &&& state.logical().bids.len() == state.bid_level_count
            &&& state.logical().asks.len() == state.ask_level_count
            &&& levels[i].price == level.price
            &&& levels[i].orders.len() == level.order_count
            &&& levels[i].orders[k].id == level.orders@[k].order_id
            &&& levels[i].orders[k].account_id == level.orders@[k].account_id
            &&& levels[i].orders[k].quantity == level.orders@[k].quantity
            &&& levels[i].orders[k].sequence == level.orders@[k].sequence
        }),
{
    law_accepted_states(state);
    match side {
        Side::Buy => assert(level_fits(state.bids@[i], side)),
        Side::Sell => assert(level_fits(state.asks@[i], side)),
    }
}

proof fn lemma_first_order(orders: Seq<BookOrderState>, side: Side, price: PriceTicks, p: int)
    requires
        0 <= p < orders.len(),
        forall|k: int| 0 <= k < p ==> order_fits(#[trigger] orders[k], side, price),
        !order_fits(orders[p], side, price),
    ensures
        orders_fault(orders, side, price) == order_fault(orders[p], side, price),
    decreases orders.len(),
{
    let init = orders.drop_last();
    if p < orders.len() - 1 {
        assert(init[p] == orders[p]);
        lemma_first_order(init, side, price, p);
    } else {
        lemma_orders(init, side, price);
    }
}

/// What is wrong with a level whose side, price, count and place are right: the fault
/// of its first order `p` that does not fit; otherwise that its orders are not oldest
/// first; otherwise that something is behind them.
pub proof fn law_level_faults<const ORDERS: usize>(
    level: BookLevelState<ORDERS>,
    side: Side,
    prior: Option<PriceTicks>,
    p: int,
)
    requires
        level.side == side,
        level.price.0 > 0,
        0 < level.order_count <= ORDERS,
        prior is Some ==> match side {
            Side::Buy => (prior->0).0 > level.price.0,
            Side::Sell => (prior->0).0 < level.price.0,
        },
    ensures
        ({
            let fault = level_fault(level, side, prior);
            let fit_to = |n: int|
                forall|k: int|
                    0 <= k < n ==> order_fits(#[trigger] level.orders@[k], side, level.price);
            let aged = forall|a: int, b: int|
                0 <= a < b < level.order_count ==> (#[trigger] level.orders@[a]).sequence.0 < (
                #[trigger] level.orders@[b]).sequence.0;
            let ends = forall|k: int|
                level.order_count <= k < ORDERS ==> vacant(#[trigger] level.orders@[k]);
            &&& 0 <= p < level.order_count && fit_to(p) && !order_fits(
                level.orders@[p],
                side,
                level.price,
            ) ==> fault == order_fault(level.orders@[p], side, level.price)
            &&& fit_to(level.order_count as int) && !aged ==> fault == Some(
                BookStateError::Sequence,
            )
            &&& fit_to(level.order_count as int) && aged && !ends ==> fault == Some(
                BookStateError::NonCanonical,
            )
        }),
{
    let active = level.active();
    law_level_is_accepted(level, side, prior);
    lemma_orders(active, side, level.price);
    assert forall|k: int| 0 <= k < level.order_count implies #[trigger] level.orders@[k]
        == active[k] by {}
    if 0 <= p < level.order_count && !order_fits(level.orders@[p], side, level.price) && (forall|
        k: int,
    |
        0 <= k < p ==> order_fits(#[trigger] level.orders@[k], side, level.price)) {
        assert forall|k: int| 0 <= k < p implies order_fits(
            #[trigger] active[k],
            side,
            level.price,
        ) by {
            assert(order_fits(level.orders@[k], side, level.price));
        }
        lemma_first_order(active, side, level.price, p);
        law_order_faults(level.orders@[p], side, level.price);
    }
    if forall|k: int|
        0 <= k < level.order_count ==> order_fits(#[trigger] level.orders@[k], side, level.price) {
        assert forall|k: int| 0 <= k < active.len() implies order_fits(
            #[trigger] active[k],
            side,
            level.price,
        ) by {
            assert(order_fits(level.orders@[k], side, level.price));
        }
        if rising(active) {
            assert forall|a: int, b: int| 0 <= a < b < level.order_count implies (
            #[trigger] level.orders@[a]).sequence.0 < (#[trigger] level.orders@[b]).sequence.0 by {
                assert(active[a].sequence.0 < active[b].sequence.0);
            }
        }
    }
}

proof fn lemma_first_level<const ORDERS: usize>(
    levels: Seq<BookLevelState<ORDERS>>,
    count: int,
    side: Side,
    p: int,
)
    requires
        0 <= p < count,
        forall|i: int| 0 <= i < p ==> level_fits(#[trigger] levels[i], side),
        in_price_order(levels, p, side),
        !level_fits(levels[p], side) || !in_price_order(levels, p + 1, side),
    ensures
        side_fault(levels, count, side) == level_fault(
            levels[p],
            side,
            if p > 0 {
                Some(levels[p - 1].price)
            } else {
                None
            },
        ),
    decreases count,
{
    lemma_side(levels, p + 1, side);
    if p < count - 1 {
        lemma_first_level(levels, count - 1, side, p);
        assert(side_fault(levels, p + 1, side) is Some);
        lemma_side(levels, p, side);
    } else {
        lemma_side(levels, p, side);
    }
}

proof fn lemma_first_repeat(all: Seq<BookOrderState>, count: int, p: int)
    requires
        0 <= p < count <= all.len(),
        forall|j: int, m: int|
            0 <= j < p && 0 <= m < all.len() && m != j ==> {
                &&& (#[trigger] all[j]).order_id != (#[trigger] all[m]).order_id
                &&& all[j].sequence != all[m].sequence
            },
        id_repeats(all, p) || sequence_repeats(all, p),
    ensures
        identity_fault(all, count) == Some(
            if id_repeats(all, p) {
                BookStateError::DuplicateOrderId
            } else {
                BookStateError::Sequence
            },
        ),
    decreases count,
{
    if p < count - 1 {
        lemma_first_repeat(all, count - 1, p);
    } else {
        lemma_identity(all, p);
    }
}

/// Why a state is refused, each reason with its cause. The causes are looked at in
/// turn: the number of levels; the first bid level `p` that does not fit or is not
/// behind the one before it, then the first such ask level; something in a place that
/// does not count; a best bid that is not below the best ask; and the first order `p`,
/// bids first, that shares its identifier or its sequence with another.
pub proof fn law_state_faults<const LEVELS: usize, const ORDERS: usize>(
    state: BookState<LEVELS, ORDERS>,
    p: int,
)
    ensures
        ({
            let fault = state.fault();
            let bids = state.bids@;
            let asks = state.asks@;
            let all = state.all_orders();
            let roomy = state.bid_level_count <= LEVELS && state.ask_level_count <= LEVELS;
            let bids_to = |n: int|
                in_price_order(bids, n, Side::Buy) && forall|i: int|
                    0 <= i < n ==> level_fits(#[trigger] bids[i], Side::Buy);
            let asks_to = |n: int|
                in_price_order(asks, n, Side::Sell) && forall|i: int|
                    0 <= i < n ==> level_fits(#[trigger] asks[i], Side::Sell);
            let bid = roomy && bids_to(state.bid_level_count as int);
            let sided = bid && asks_to(state.ask_level_count as int);
            let padded = sided && (forall|i: int|
                state.bid_level_count <= i < LEVELS ==> level_vacant(#[trigger] bids[i])) && (
            forall|i: int|
                state.ask_level_count <= i < LEVELS ==> level_vacant(#[trigger] asks[i]));
            let crossed = state.bid_level_count > 0 && state.ask_level_count > 0 && bids[0].price.0
                >= asks[0].price.0;
            let apart_to = |n: int|
                forall|j: int, m: int|
                    0 <= j < n && 0 <= m < all.len() && m != j ==> {
                        &&& (#[trigger] all[j]).order_id != (#[trigger] all[m]).order_id
                        &&& all[j].sequence != all[m].sequence
                    };
            let twice = exists|m: int|
                0 <= m < all.len() && m != p && (#[trigger] all[m]).order_id == all[p].order_id;
            let tied = exists|m: int|
                0 <= m < all.len() && m != p && (#[trigger] all[m]).sequence == all[p].sequence;
            &&& !roomy ==> fault == Some(BookStateError::LevelCapacity)
            &&& roomy && 0 <= p < state.bid_level_count && bids_to(p) && !bids_to(p + 1) ==> fault
                == level_fault(
                bids[p],
                Side::Buy,
                if p > 0 {
                    Some(bids[p - 1].price)
                } else {
                    None
                },
            )
            &&& bid && 0 <= p < state.ask_level_count && asks_to(p) && !asks_to(p + 1) ==> fault
                == level_fault(
                asks[p],
                Side::Sell,
                if p > 0 {
                    Some(asks[p - 1].price)
                } else {
                    None
                },
            )
            &&& sided && !padded ==> fault == Some(BookStateError::NonCanonical)
            &&& padded && crossed ==> fault == Some(BookStateError::Crossed)
            &&& padded && !crossed && 0 <= p < all.len() && apart_to(p) && twice ==> fault == Some(
                BookStateError::DuplicateOrderId,
            )
            &&& padded && !crossed && 0 <= p < all.len() && apart_to(p) && !twice && tied ==> fault
                == Some(BookStateError::Sequence)
        }),
{
    let all = state.all_orders();
    let bids = state.bids@;
    let asks = state.asks@;
    lemma_side(bids, state.bid_level_count as int, Side::Buy);
    lemma_side(asks, state.ask_level_count as int, Side::Sell);
    assert forall|i: int| 0 <= i < LEVELS implies (#[trigger] bids[i]).is_blank() == level_vacant(
        bids[i],
    ) by {
        lemma_vacant(bids[i]);
    }
    assert forall|i: int| 0 <= i < LEVELS implies (#[trigger] asks[i]).is_blank() == level_vacant(
        asks[i],
    ) by {
        lemma_vacant(asks[i]);
    }
    if 0 <= p < state.bid_level_count && in_price_order(bids, p, Side::Buy) && (forall|i: int|
        0 <= i < p ==> level_fits(#[trigger] bids[i], Side::Buy)) && !(in_price_order(
        bids,
        p + 1,
        Side::Buy,
    ) && level_fits(bids[p], Side::Buy)) {
        lemma_first_level(bids, state.bid_level_count as int, Side::Buy, p);
        lemma_side(bids, p + 1, Side::Buy);
        lemma_side(bids, p, Side::Buy);
    }
    if 0 <= p < state.ask_level_count && in_price_order(asks, p, Side::Sell) && (forall|i: int|
        0 <= i < p ==> level_fits(#[trigger] asks[i], Side::Sell)) && !(in_price_order(
        asks,
        p + 1,
        Side::Sell,
    ) && level_fits(asks[p], Side::Sell)) {
        lemma_first_level(asks, state.ask_level_count as int, Side::Sell, p);
        lemma_side(asks, p + 1, Side::Sell);
        lemma_side(asks, p, Side::Sell);
    }
    if 0 <= p < all.len() && (forall|j: int, m: int|
        0 <= j < p && 0 <= m < all.len() && m != j ==> {
            &&& (#[trigger] all[j]).order_id != (#[trigger] all[m]).order_id
            &&& all[j].sequence != all[m].sequence
        }) && (id_repeats(all, p) || sequence_repeats(all, p)) {
        lemma_first_repeat(all, all.len() as int, p);
    }
}

} // verus!
