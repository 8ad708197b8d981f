//! What each request does to the orders of a side, seen as one queue in price-time
//! order.

use vstd::prelude::*;

use crate::book::laws::{
    at_place, law_no_skipped_liquidity, law_price_time_priority, law_quantity_is_conserved,
    lemma_place, queue, traded_total,
};
use crate::book::model::{
    better, fills, front_left, front_trade, has_level, lemma_front_left, lemma_rank_splits,
    lemma_removed_ordered, lemma_swept, order_total, ordered, rank, removed_at, reports_of, rested,
    swept, total, tradable, unfilled, BookView, FillView, LevelView, OrderView,
};
use crate::types::{
    CancelOrder, ExecutionReport, NewOrder, OrderId, OrderState, PriceTicks, Quantity, RejectReason,
    ReplaceOrder, Side, TimeInForce,
};

verus! {

/// How many orders come before place `k` of level `i`.
pub open spec fn ahead(levels: Seq<LevelView>, i: int, k: int) -> int
    decreases levels.len(),
{
    if i <= 0 || levels.len() == 0 {
        k
    } else {
        levels[0].orders.len() + ahead(levels.skip(1), i - 1, k)
    }
}

spec fn front(level: LevelView) -> Seq<(PriceTicks, OrderView)> {
    Seq::new(level.orders.len(), |k: int| (level.price, level.orders[k]))
}

proof fn lemma_queue_front(levels: Seq<LevelView>)
    requires
        levels.len() > 0,
    ensures
        queue(levels) == front(levels[0]) + queue(levels.skip(1)),
        front(levels[0]).len() == levels[0].orders.len(),
{
    assert(front(levels[0]) =~= Seq::new(
        levels[0].orders.len(),
        |k: int| (levels[0].price, levels[0].orders[k]),
    ));
}

/// Every order of a side is in its queue.
proof fn lemma_ahead(levels: Seq<LevelView>, i: int, k: int)
    requires
        at_place(levels, i, k),
    ensures
        0 <= ahead(levels, i, k) < queue(levels).len(),
        queue(levels)[ahead(levels, i, k)] == (levels[i].price, levels[i].orders[k]),
    decreases levels.len(),
{
    lemma_queue_front(levels);
    if i > 0 {
        let rest = levels.skip(1);
        assert(rest[i - 1] == levels[i]);
        lemma_ahead(rest, i - 1, k);
    }
}

/// Every member of the queue is an order of the side.
proof fn lemma_queue_place(levels: Seq<LevelView>, j: int) -> (place: (int, int))
    requires
        0 <= j < queue(levels).len(),
    ensures
        at_place(levels, place.0, place.1),
        ahead(levels, place.0, place.1) == j,
        queue(levels)[j] == (levels[place.0].price, levels[place.0].orders[place.1]),
    decreases levels.len(),
{
    lemma_queue_front(levels);
    if j < levels[0].orders.len() {
        (0, j)
    } else {
        let rest = levels.skip(1);
        let (a, b) = lemma_queue_place(rest, j - levels[0].orders.len());
        assert(rest[a] == levels[a + 1]);
        (a + 1, b)
    }
}

/// Orders of earlier levels come first.
proof fn lemma_ahead_order(levels: Seq<LevelView>, a: int, b: int, r: int)
    requires
        at_place(levels, a, b),
        0 <= r <= levels.len(),
    ensures
        a < r ==> ahead(levels, a, b) < ahead(levels, r, 0),
        a >= r ==> ahead(levels, a, b) >= ahead(levels, r, 0),
    decreases levels.len(),
{
    let rest = levels.skip(1);
    if a > 0 && r > 0 {
        assert(rest[a - 1] == levels[a]);
        lemma_ahead_order(rest, a - 1, b, r - 1);
    } else if r > 0 {
        lemma_ahead_positive(rest, r - 1);
    } else if a > 0 {
        lemma_ahead(levels, a, b);
    }
}

proof fn lemma_ahead_positive(levels: Seq<LevelView>, r: int)
    ensures
        ahead(levels, r, 0) >= 0,
    decreases levels.len(),
{
    if r > 0 && levels.len() > 0 {
        lemma_ahead_positive(levels.skip(1), r - 1);
    }
}

proof fn lemma_ahead_shift(levels: Seq<LevelView>, r: int, k: int)
    ensures
        ahead(levels, r, k) == ahead(levels, r, 0) + k,
    decreases levels.len(),
{
    if r > 0 && levels.len() > 0 {
        lemma_ahead_shift(levels.skip(1), r - 1, k);
    }
}

proof fn lemma_ahead_within(levels: Seq<LevelView>, r: int)
    requires
        0 <= r <= levels.len(),
    ensures
        0 <= ahead(levels, r, 0) <= queue(levels).len(),
        r == levels.len() ==> ahead(levels, r, 0) == queue(levels).len(),
        r < levels.len() ==> ahead(levels, r, levels[r].orders.len() as int) <= queue(levels).len(),
    decreases levels.len(),
{
    if levels.len() > 0 {
        lemma_queue_front(levels);
        if r > 0 {
            lemma_ahead_within(levels.skip(1), r - 1);
        }
    }
}

proof fn lemma_queue_set(levels: Seq<LevelView>, i: int, k: int, order: OrderView)
    requires
        at_place(levels, i, k),
    ensures
        queue(
            levels.update(
                i,
                LevelView { price: levels[i].price, orders: levels[i].orders.update(k, order) },
            ),
        ) == queue(levels).update(ahead(levels, i, k), (levels[i].price, order)),
    decreases levels.len(),
{
    let changed = LevelView {
        price: levels[i].price,
        orders: levels[i].orders.update(k, order),
    };
    let next = levels.update(i, changed);
    lemma_queue_front(levels);
    lemma_queue_front(next);
    lemma_ahead(levels, i, k);
    if i == 0 {
        assert(next.skip(1) =~= levels.skip(1));
        assert(front(next[0]) =~= front(levels[0]).update(k, (levels[0].price, order)));
        assert(queue(next) =~= queue(levels).update(k, (levels[0].price, order)));
    } else {
        let rest = levels.skip(1);
        assert(rest[i - 1] == levels[i]);
        lemma_queue_set(rest, i - 1, k, order);
        lemma_ahead(rest, i - 1, k);
        assert(next.skip(1) =~= rest.update(i - 1, changed));
        assert(queue(next) =~= queue(levels).update(
            ahead(levels, i, k),
            (levels[i].price, order),
        ));
    }
}

proof fn lemma_queue_removed_at(levels: Seq<LevelView>, i: int, k: int)
    requires
        at_place(levels, i, k),
    ensures
        queue(removed_at(levels, i, k)) == queue(levels).remove(ahead(levels, i, k)),
    decreases levels.len(),
{
    let next = removed_at(levels, i, k);
    lemma_queue_front(levels);
    lemma_ahead(levels, i, k);
    let rest = levels.skip(1);
    if i == 0 {
        if levels[0].orders.len() == 1 {
            assert(next =~= rest);
            assert(queue(next) =~= queue(levels).remove(k));
        } else {
            lemma_queue_front(next);
            assert(next.skip(1) =~= rest);
            assert(front(next[0]) =~= front(levels[0]).remove(k));
            assert(queue(next) =~= queue(levels).remove(k));
        }
    } else {
        assert(rest[i - 1] == levels[i]);
        lemma_queue_removed_at(rest, i - 1, k);
        lemma_ahead(rest, i - 1, k);
        lemma_queue_front(next);
        assert(next[0] == levels[0]);
        assert(next.skip(1) =~= removed_at(rest, i - 1, k));
        assert(queue(next) =~= queue(levels).remove(ahead(levels, i, k)));
    }
}

proof fn lemma_queue_pushed(levels: Seq<LevelView>, r: int, order: OrderView)
    requires
        0 <= r < levels.len(),
    ensures
        queue(
            levels.update(
                r,
                LevelView { price: levels[r].price, orders: levels[r].orders.push(order) },
            ),
        ) == queue(levels).insert(
            ahead(levels, r, levels[r].orders.len() as int),
            (levels[r].price, order),
        ),
    decreases levels.len(),
{
    let changed = LevelView { price: levels[r].price, orders: levels[r].orders.push(order) };
    let next = levels.update(r, changed);
    let count = levels[r].orders.len() as int;
    let rest = levels.skip(1);
    lemma_queue_front(levels);
    lemma_queue_front(next);
    lemma_ahead_within(levels, r);
    lemma_ahead_shift(levels, r, count);
    if r == 0 {
        assert(next.skip(1) =~= rest);
        assert(front(next[0]) =~= front(levels[0]).push((levels[0].price, order)));
        assert(queue(next) =~= queue(levels).insert(count, (levels[0].price, order)));
    } else {
        assert(rest[r - 1] == levels[r]);
        lemma_queue_pushed(rest, r - 1, order);
        lemma_ahead_within(rest, r - 1);
        lemma_ahead_shift(rest, r - 1, count);
        assert(next.skip(1) =~= rest.update(r - 1, changed));
        assert(queue(next) =~= queue(levels).insert(
            ahead(levels, r, count),
            (levels[r].price, order),
        ));
    }
}

proof fn lemma_queue_opened(levels: Seq<LevelView>, r: int, price: PriceTicks, order: OrderView)
    requires
        0 <= r <= levels.len(),
    ensures
        queue(levels.insert(r, LevelView { price, orders: seq![order] })) == queue(levels).insert(
            ahead(levels, r, 0),
            (price, order),
        ),
    decreases levels.len(),
{
    let level = LevelView { price, orders: seq![order] };
    let next = levels.insert(r, level);
    lemma_queue_front(next);
    lemma_ahead_within(levels, r);
    if r == 0 {
        assert(next.skip(1) =~= levels);
        assert(front(level) =~= seq![(price, order)]);
        assert(queue(next) =~= queue(levels).insert(0, (price, order)));
    } else {
        let rest = levels.skip(1);
        lemma_queue_front(levels);
        lemma_queue_opened(rest, r - 1, price, order);
        lemma_ahead_within(rest, r - 1);
        assert(next.skip(1) =~= rest.insert(r - 1, level));
        assert(queue(next) =~= queue(levels).insert(ahead(levels, r, 0), (price, order)));
    }
}

/// An order that rests comes behind every order of its side that has as good a
/// price, and before every other one. Nothing else changes.
pub proof fn law_rest_joins_the_queue(
    levels: Seq<LevelView>,
    side: Side,
    price: PriceTicks,
    order: OrderView,
) -> (place: int)
    requires
        ordered(levels, side),
    ensures
        0 <= place <= queue(levels).len(),
        queue(rested(levels, side, price, order)) == queue(levels).insert(place, (price, order)),
        forall|j: int|
            0 <= j < place ==> match side {
                Side::Buy => (#[trigger] queue(levels)[j]).0.0 >= price.0,
                Side::Sell => queue(levels)[j].0.0 <= price.0,
            },
        forall|j: int|
            place <= j < queue(levels).len() ==> match side {
                Side::Buy => (#[trigger] queue(levels)[j]).0.0 < price.0,
                Side::Sell => queue(levels)[j].0.0 > price.0,
            },
{
    lemma_rank_splits(levels, side, price);
    let r = rank(levels, side, price);
    lemma_ahead_within(levels, r);
    let place = if has_level(levels, price) {
        ahead(levels, r, levels[r].orders.len() as int)
    } else {
        ahead(levels, r, 0)
    };
    if has_level(levels, price) {
        lemma_queue_pushed(levels, r, order);
        lemma_ahead_shift(levels, r, levels[r].orders.len() as int);
    } else {
        lemma_queue_opened(levels, r, price, order);
    }
    assert forall|j: int| 0 <= j < queue(levels).len() implies if j < place {
        match side {
            Side::Buy => (#[trigger] queue(levels)[j]).0.0 >= price.0,
            Side::Sell => queue(levels)[j].0.0 <= price.0,
        }
    } else {
        match side {
            Side::Buy => queue(levels)[j].0.0 < price.0,
            Side::Sell => queue(levels)[j].0.0 > price.0,
        }
    } by {
        let (a, b) = lemma_queue_place(levels, j);
        lemma_ahead_order(levels, a, b, r);
        lemma_ahead_shift(levels, a, b);
        if has_level(levels, price) {
            lemma_next_level(levels, r);
            lemma_ahead_order(levels, a, b, r + 1);
        }
    }
    place
}

proof fn lemma_next_level(levels: Seq<LevelView>, r: int)
    requires
        0 <= r < levels.len(),
    ensures
        ahead(levels, r + 1, 0) == ahead(levels, r, levels[r].orders.len() as int),
    decreases levels.len(),
{
    let rest = levels.skip(1);
    if r > 0 {
        assert(rest[r - 1] == levels[r]);
        lemma_next_level(rest, r - 1);
    } else {
        assert(ahead(rest, 0, 0) == 0);
    }
}

/// The number of orders of a side is the length of its queue.
pub proof fn law_order_total_counts_the_queue(levels: Seq<LevelView>)
    ensures
        order_total(levels) == queue(levels).len(),
    decreases levels.len(),
{
    if levels.len() > 0 {
        let init = levels.drop_last();
        law_order_total_counts_the_queue(init);
        lemma_queue_opened_many(init, levels.last());
        assert(init.push(levels.last()) =~= levels);
    }
}

proof fn lemma_queue_opened_many(levels: Seq<LevelView>, level: LevelView)
    ensures
        queue(levels.push(level)) == queue(levels) + front(level),
    decreases levels.len(),
{
    let next = levels.push(level);
    lemma_queue_front(next);
    if levels.len() > 0 {
        let rest = levels.skip(1);
        lemma_queue_front(levels);
        lemma_queue_opened_many(rest, level);
        assert(next.skip(1) =~= rest.push(level));
        assert(queue(next) =~= queue(levels) + front(level));
    } else {
        assert(next.skip(1) =~= Seq::empty());
        assert(queue(next) =~= queue(levels) + front(level));
    }
}

/// What the reports amount to.
pub open spec fn reported_total(reports: Seq<ExecutionReport>) -> nat
    decreases reports.len(),
{
    if reports.len() == 0 {
        0
    } else {
        reports[0].quantity.0 as nat + reported_total(reports.skip(1))
    }
}

/// The levels of the side that an order joins.
pub open spec fn own_levels(view: BookView, side: Side) -> Seq<LevelView> {
    match side {
        Side::Buy => view.bids,
        Side::Sell => view.asks,
    }
}

/// The levels of the side that an order trades with.
pub open spec fn other_levels(view: BookView, side: Side) -> Seq<LevelView> {
    match side {
        Side::Buy => view.asks,
        Side::Sell => view.bids,
    }
}

proof fn lemma_reported_total(order: NewOrder, trades: Seq<FillView>)
    requires
        forall|i: int| 0 <= i < trades.len() ==> (#[trigger] trades[i]).quantity <= u64::MAX,
    ensures
        reported_total(reports_of(order, trades)) == traded_total(trades),
    decreases trades.len(),
{
    if trades.len() > 0 {
        let rest = trades.skip(1);
        assert(reports_of(order, trades).skip(1) =~= reports_of(order, rest));
        assert forall|i: int| 0 <= i < rest.len() implies (#[trigger] rest[i]).quantity
            <= u64::MAX by {
            assert(rest[i] == trades[i + 1]);
        }
        lemma_reported_total(order, rest);
    }
}

/// What the makers keep: all but the traded ones, the last of which may have
/// traded in part.
proof fn lemma_queue_swept(levels: Seq<LevelView>, taker: Side, limit: PriceTicks, quantity: nat)
    requires
        ordered(levels, taker.opposing()),
    ensures
        ({
            let trades = fills(levels, taker, limit, quantity);
            let n = trades.len();
            let makers = queue(levels);
            let left = queue(swept(levels, taker, limit, quantity));
            &&& n <= makers.len()
            &&& if n > 0 && trades[n - 1].quantity < makers[n - 1].1.quantity.0 {
                let (price, maker) = makers[n - 1];
                &&& unfilled(levels, taker, limit, quantity) == 0
                &&& left == makers.skip(n - 1).update(
                    0,
                    (
                        price,
                        OrderView {
                            quantity: Quantity(
                                (maker.quantity.0 - trades[n - 1].quantity) as u64,
                            ),
                            ..maker
                        },
                    ),
                )
            } else {
                left == makers.skip(n as int)
            }
        }),
    decreases quantity,
{
    law_price_time_priority(levels, taker, limit, quantity);
    let makers = queue(levels);
    if quantity > 0 && tradable(levels, taker, limit) {
        let traded = front_trade(levels, quantity);
        let left = front_left(levels, traded);
        let trades = fills(levels, taker, limit, quantity);
        let less = (quantity - traded) as nat;
        let rest = fills(left, taker, limit, less);
        lemma_front_left(levels, taker.opposing(), traded);
        lemma_queue_swept(left, taker, limit, less);
        lemma_ahead(levels, 0, 0);
        if traded == levels[0].orders[0].quantity.0 {
            lemma_queue_removed_at(levels, 0, 0);
            assert(queue(left) =~= makers.skip(1));
            let n = trades.len() as int;
            assert(rest.len() == n - 1);
            assert(swept(levels, taker, limit, quantity) == swept(left, taker, limit, less));
            assert(queue(left).skip(n - 1) =~= makers.skip(n));
            if n >= 2 {
                assert(rest[n - 2] == trades[n - 1]);
                assert(queue(left)[n - 2] == makers[n - 1]);
                assert(queue(left).skip(n - 2) =~= makers.skip(n - 1));
            }
        } else {
            let order = levels[0].orders[0];
            let kept = OrderView {
                quantity: Quantity((order.quantity.0 - traded) as u64),
                ..order
            };
            lemma_queue_set(levels, 0, 0, kept);
            assert(queue(left) == makers.update(0, (levels[0].price, kept)));
            assert(less == 0);
            assert(unfilled(left, taker, limit, 0) == 0);
            assert(rest.len() == 0);
            assert(trades.len() == 1);
            assert(swept(levels, taker, limit, quantity) == swept(left, taker, limit, less));
            assert(makers.skip(0) =~= makers);
            assert(queue(left).skip(0) =~= queue(left));
        }
    } else {
        assert(makers.skip(0) =~= makers);
    }
}

/// A new order trades with the other side in price-time order. Report `i` names the
/// `i`-th order of the other side's queue, at that order's own price and for no
/// more than it has; every maker but the last trades in full; no price is worse
/// than the limit; and the order stops only when it is filled or when no order
/// that is left has a price within its limit.
pub proof fn law_reports_follow_the_queue(view: BookView, order: NewOrder)
    requires
        view.sound(),
    ensures
        ({
            let reports = reports_of(order, view.order_fills(order));
            let makers = queue(other_levels(view, order.side));
            let n = reports.len() as int;
            &&& n <= makers.len()
            &&& forall|i: int|
                0 <= i < n ==> {
                    let report = #[trigger] reports[i];
                    let (price, maker) = makers[i];
                    &&& report.maker_order_id == maker.id
                    &&& report.price == price
                    &&& 0 < report.quantity.0 <= maker.quantity.0
                    &&& i + 1 < n ==> report.quantity == maker.quantity
                    &&& report.taker_order_id == order.order_id
                    &&& report.instrument_id == order.instrument_id
                    &&& report.sequence == order.sequence
                    &&& order.side == Side::Buy ==> price.0 <= order.price.0
                    &&& order.side == Side::Sell ==> price.0 >= order.price.0
                }
            &&& reported_total(reports) <= order.quantity.0
            &&& reported_total(reports) < order.quantity.0 ==> {
                &&& n > 0 ==> reports[n - 1].quantity == makers[n - 1].1.quantity
                &&& forall|j: int|
                    n <= j < makers.len() ==> match order.side {
                        Side::Buy => (#[trigger] makers[j]).0.0 > order.price.0,
                        Side::Sell => makers[j].0.0 < order.price.0,
                    }
            }
        }),
{
    let levels = other_levels(view, order.side);
    let quantity = order.quantity.0 as nat;
    assert(levels == view.side(order.side.opposing()));
    law_price_time_priority(levels, order.side, order.price, quantity);
    law_quantity_is_conserved(levels, order.side, order.price, quantity);
    lemma_swept(levels, order.side, order.price, quantity);
    lemma_queue_swept(levels, order.side, order.price, quantity);
    let trades = view.order_fills(order);
    let makers = queue(levels);
    let n = trades.len() as int;
    assert forall|i: int| 0 <= i < trades.len() implies (#[trigger] trades[i]).quantity
        <= u64::MAX by {
        assert(trades[i].quantity <= makers[i].1.quantity.0);
    }
    lemma_reported_total(order, trades);
    if reported_total(reports_of(order, trades)) < order.quantity.0 {
        let left = swept(levels, order.side, order.price, quantity);
        assert forall|j: int| n <= j < makers.len() implies match order.side {
            Side::Buy => (#[trigger] makers[j]).0.0 > order.price.0,
            Side::Sell => makers[j].0.0 < order.price.0,
        } by {
            assert(queue(left) == makers.skip(n));
            assert(queue(left)[j - n] == makers[j]);
            let (a, b) = lemma_queue_place(left, j - n);
            law_no_skipped_liquidity(levels, order.side, order.price, quantity, a);
        }
    }
}

/// The summary of an accepted order: what the reports amount to is filled. The
/// remainder of a resting kind rests, that of an immediate-or-cancel order is
/// discarded, and a fill-or-kill order has none.
pub proof fn law_summary_adds_up(
    view: BookView,
    order: NewOrder,
    free_reports: nat,
    max_levels: nat,
    max_orders: nat,
)
    requires
        view.sound(),
        view.refusal(order, free_reports, max_levels, max_orders) is None,
        free_reports <= usize::MAX,
    ensures
        ({
            let reports = reports_of(order, view.order_fills(order));
            let summary = view.summary(order);
            let filled = reported_total(reports);
            let remainder = order.quantity.0 - filled;
            &&& summary.filled_quantity.0 == filled
            &&& summary.report_count == reports.len()
            &&& match order.time_in_force {
                TimeInForce::Gtc => summary.resting_quantity.0 == remainder
                    && summary.discarded_quantity.0 == 0,
                TimeInForce::PostOnly => filled == 0 && summary.resting_quantity == order.quantity
                    && summary.discarded_quantity.0 == 0,
                TimeInForce::Ioc => summary.resting_quantity.0 == 0
                    && summary.discarded_quantity.0 == remainder,
                TimeInForce::Fok => filled == order.quantity.0 && summary.resting_quantity.0 == 0
                    && summary.discarded_quantity.0 == 0,
            }
            &&& match summary.state {
                OrderState::Filled => filled == order.quantity.0,
                OrderState::Accepted => filled == 0,
                OrderState::PartiallyFilled => 0 < filled < order.quantity.0,
            }
        }),
{
    law_reports_follow_the_queue(view, order);
    let levels = other_levels(view, order.side);
    let quantity = order.quantity.0 as nat;
    assert(levels == view.side(order.side.opposing()));
    law_price_time_priority(levels, order.side, order.price, quantity);
    law_quantity_is_conserved(levels, order.side, order.price, quantity);
    let trades = view.order_fills(order);
    assert forall|i: int| 0 <= i < trades.len() implies (#[trigger] trades[i]).quantity
        <= u64::MAX by {
        assert(trades[i].quantity <= queue(levels)[i].1.quantity.0);
    }
    lemma_reported_total(order, trades);
    if order.time_in_force == TimeInForce::PostOnly && levels.len() > 0 {
        assert(!tradable(levels, order.side, order.price));
    }
}

/// What an accepted order leaves: the makers that it traded with are gone, but for
/// what the last of them has left, in its old place; the order itself, where
/// something of it rests, stands behind every order of its side with as good a
/// price, with its own identifier, account and sequence; and nothing else changes.
pub proof fn law_submit_keeps_the_rest(view: BookView, order: NewOrder) -> (place: int)
    requires
        view.sound(),
    ensures
        ({
            let reports = reports_of(order, view.order_fills(order));
            let makers = queue(other_levels(view, order.side));
            let peers = queue(own_levels(view, order.side));
            let n = reports.len() as int;
            let after = view.submitted(order);
            let left = queue(other_levels(after, order.side));
            let joined = queue(own_levels(after, order.side));
            let resting = view.summary(order).resting_quantity;
            &&& after.instrument == view.instrument
            &&& n <= makers.len()
            &&& if n > 0 && reports[n - 1].quantity.0 < makers[n - 1].1.quantity.0 {
                let (price, maker) = makers[n - 1];
                &&& left.len() == makers.len() - n + 1
                &&& left[0].0 == price
                &&& left[0].1.id == maker.id
                &&& left[0].1.account_id == maker.account_id
                &&& left[0].1.sequence == maker.sequence
                &&& left[0].1.quantity.0 == maker.quantity.0 - reports[n - 1].quantity.0
                &&& left.skip(1) == makers.skip(n)
            } else {
                left == makers.skip(n)
            }
            &&& if resting.0 == 0 {
                joined == peers
            } else {
                &&& 0 <= place <= peers.len()
                &&& joined == peers.insert(
                    place,
                    (
                        order.price,
                        OrderView {
                            id: order.order_id,
                            account_id: order.account_id,
                            quantity: resting,
                            sequence: order.sequence,
                        },
                    ),
                )
                &&& forall|j: int|
                    0 <= j < place ==> match order.side {
                        Side::Buy => (#[trigger] peers[j]).0.0 >= order.price.0,
                        Side::Sell => peers[j].0.0 <= order.price.0,
                    }
                &&& forall|j: int|
                    place <= j < peers.len() ==> match order.side {
                        Side::Buy => (#[trigger] peers[j]).0.0 < order.price.0,
                        Side::Sell => peers[j].0.0 > order.price.0,
                    }
            }
        }),
{
    law_reports_follow_the_queue(view, order);
    let levels = other_levels(view, order.side);
    let quantity = order.quantity.0 as nat;
    assert(levels == view.side(order.side.opposing()));
    lemma_swept(levels, order.side, order.price, quantity);
    lemma_queue_swept(levels, order.side, order.price, quantity);
    law_price_time_priority(levels, order.side, order.price, quantity);
    let reports = reports_of(order, view.order_fills(order));
    let trades = view.order_fills(order);
    let makers = queue(levels);
    let n = reports.len() as int;
    if n > 0 {
        assert(trades[n - 1].quantity <= makers[n - 1].1.quantity.0);
        let left = queue(swept(levels, order.side, order.price, quantity));
        if trades[n - 1].quantity < makers[n - 1].1.quantity.0 {
            assert(left.skip(1) =~= makers.skip(n));
        }
    }
    let resting = OrderView {
        id: order.order_id,
        account_id: order.account_id,
        quantity: view.summary(order).resting_quantity,
        sequence: order.sequence,
    };
    law_rest_joins_the_queue(own_levels(view, order.side), order.side, order.price, resting)
}

/// An order with this identifier is in one of the queues.
pub open spec fn queued(view: BookView, id: OrderId) -> bool {
    ||| exists|j: int| 0 <= j < queue(view.bids).len() && (#[trigger] queue(view.bids)[j]).1.id == id
    ||| exists|j: int| 0 <= j < queue(view.asks).len() && (#[trigger] queue(view.asks)[j]).1.id == id
}

/// Member `p` of a queue, as the book finds it.
proof fn lemma_member(view: BookView, side: Side, p: int, id: OrderId) -> (place: (int, int))
    requires
        view.sound(),
        0 <= p < queue(own_levels(view, side)).len(),
        queue(own_levels(view, side))[p].1.id == id,
    ensures
        ({
            let levels = own_levels(view, side);
            let (i, k) = place;
            &&& at_place(levels, i, k)
            &&& ahead(levels, i, k) == p
            &&& view.contains(id)
            &&& view.place(id) == (side, i, k)
            &&& view.side(side) == levels
            &&& view.order(id) == queue(levels)[p].1
            &&& view.price_of(id) == queue(levels)[p].0
            &&& queue(levels)[p] == (levels[i].price, levels[i].orders[k])
        }),
{
    let levels = own_levels(view, side);
    let (i, k) = lemma_queue_place(levels, p);
    assert(view.side(side) == levels);
    assert(view.rests_at(id, side, i, k));
    lemma_place(view, id, side, i, k);
    (i, k)
}

/// The book finds exactly the orders that are in its queues.
pub proof fn law_book_finds_what_is_queued(view: BookView, id: OrderId)
    requires
        view.sound(),
    ensures
        view.contains(id) <==> queued(view, id),
{
    if view.contains(id) {
        let (side, i, k) = view.place(id);
        assert(view.rests_at(id, side, i, k));
        let levels = view.side(side);
        lemma_ahead(levels, i, k);
        assert(queue(levels)[ahead(levels, i, k)].1.id == id);
    }
    if queued(view, id) {
        if exists|j: int|
            0 <= j < queue(view.bids).len() && (#[trigger] queue(view.bids)[j]).1.id == id {
            let j = choose|j: int|
                0 <= j < queue(view.bids).len() && (#[trigger] queue(view.bids)[j]).1.id == id;
            let place = lemma_member(view, Side::Buy, j, id);
        } else {
            let j = choose|j: int|
                0 <= j < queue(view.asks).len() && (#[trigger] queue(view.asks)[j]).1.id == id;
            let place = lemma_member(view, Side::Sell, j, id);
        }
    }
}

/// The side has a level at `price` with as many orders as it may have.
pub open spec fn level_is_full(
    levels: Seq<LevelView>,
    price: PriceTicks,
    max_orders: nat,
) -> bool {
    exists|i: int|
        0 <= i < levels.len() && (#[trigger] levels[i]).price == price && levels[i].orders.len()
            == max_orders
}

/// The side has no level at `price`.
pub open spec fn level_is_missing(levels: Seq<LevelView>, price: PriceTicks) -> bool {
    forall|i: int| 0 <= i < levels.len() ==> (#[trigger] levels[i]).price != price
}

proof fn lemma_room(
    view: BookView,
    side: Side,
    price: PriceTicks,
    max_levels: nat,
    max_orders: nat,
)
    requires
        view.sound(),
    ensures
        ({
            let levels = own_levels(view, side);
            &&& view.no_room(side, price, max_levels, max_orders) == if level_is_full(
                levels,
                price,
                max_orders,
            ) {
                Some(RejectReason::PriceLevelOrderCapacity)
            } else if level_is_missing(levels, price) && levels.len() == max_levels {
                Some(RejectReason::PriceLevelCapacity)
            } else {
                None
            }
            &&& level_is_missing(levels, price) == !has_level(levels, price)
        }),
{
    let levels = own_levels(view, side);
    assert(view.side(side) == levels);
    lemma_rank_splits(levels, side, price);
    if has_level(levels, price) {
        let r = rank(levels, side, price);
        assert(levels[r].price == price);
    }
}

/// Why a new order is refused, each reason with its cause: the first of the causes
/// that holds. An order without any is accepted.
pub proof fn law_submit_refusals(
    view: BookView,
    order: NewOrder,
    free_reports: nat,
    max_levels: nat,
    max_orders: nat,
)
    requires
        view.sound(),
    ensures
        ({
            let refusal = view.refusal(order, free_reports, max_levels, max_orders);
            let reports = reports_of(order, view.order_fills(order));
            let makers = queue(other_levels(view, order.side));
            let levels = own_levels(view, order.side);
            let elsewhere = order.instrument_id != view.instrument;
            let known = queued(view, order.order_id);
            let trades = makers.len() > 0 && match order.side {
                Side::Buy => makers[0].0.0 <= order.price.0,
                Side::Sell => makers[0].0.0 >= order.price.0,
            };
            let well_formed = !elsewhere && order.price.0 > 0 && order.quantity.0 > 0 && !known;
            let post_only = order.time_in_force == TimeInForce::PostOnly;
            let fits = well_formed && !(post_only && trades) && reports.len() <= free_reports;
            let remains = reported_total(reports) < order.quantity.0;
            let rests = fits && remains && (order.time_in_force == TimeInForce::Gtc || post_only);
            let full = level_is_full(levels, order.price, max_orders);
            let crowded = level_is_missing(levels, order.price) && levels.len() == max_levels;
            &&& elsewhere <==> refusal == Some(RejectReason::InvalidInstrument)
            &&& !elsewhere && order.price.0 <= 0 <==> refusal == Some(RejectReason::InvalidPrice)
            &&& !elsewhere && order.price.0 > 0 && order.quantity.0 == 0 <==> refusal == Some(
                RejectReason::InvalidQuantity,
            )
            &&& !elsewhere && order.price.0 > 0 && order.quantity.0 > 0 && known <==> refusal
                == Some(RejectReason::DuplicateOrderId)
            &&& well_formed && post_only && trades <==> refusal == Some(
                RejectReason::PostOnlyWouldTrade,
            )
            &&& well_formed && !(post_only && trades) && reports.len() > free_reports <==> refusal
                == Some(RejectReason::ReportCapacity)
            &&& fits && remains && order.time_in_force == TimeInForce::Fok <==> refusal == Some(
                RejectReason::InsufficientLiquidity,
            )
            &&& rests && full <==> refusal == Some(RejectReason::PriceLevelOrderCapacity)
            &&& rests && crowded <==> refusal == Some(RejectReason::PriceLevelCapacity)
            &&& refusal is None <==> fits && !(remains && order.time_in_force == TimeInForce::Fok)
                && !(rests && (full || crowded))
        }),
{
    law_reports_follow_the_queue(view, order);
    law_book_finds_what_is_queued(view, order.order_id);
    lemma_room(view, order.side, order.price, max_levels, max_orders);
    let levels = other_levels(view, order.side);
    let quantity = order.quantity.0 as nat;
    assert(levels == view.side(order.side.opposing()));
    law_price_time_priority(levels, order.side, order.price, quantity);
    law_quantity_is_conserved(levels, order.side, order.price, quantity);
    let trades = view.order_fills(order);
    assert forall|i: int| 0 <= i < trades.len() implies (#[trigger] trades[i]).quantity
        <= u64::MAX by {
        assert(trades[i].quantity <= queue(levels)[i].1.quantity.0);
    }
    lemma_reported_total(order, trades);
    if levels.len() > 0 {
        assert(at_place(levels, 0, 0));
        lemma_ahead(levels, 0, 0);
    }
    let own = own_levels(view, order.side);
    if level_is_full(own, order.price, max_orders) {
        let i = choose|i: int|
            0 <= i < own.len() && (#[trigger] own[i]).price == order.price && own[i].orders.len()
                == max_orders;
        assert(own[i].price == order.price);
        assert(!level_is_missing(own, order.price));
    }
}

/// An order that is not in the book can neither be cancelled nor replaced.
pub proof fn law_unknown_orders_are_refused(
    view: BookView,
    cancel: CancelOrder,
    replace: ReplaceOrder,
    max_levels: nat,
    max_orders: nat,
)
    requires
        view.sound(),
    ensures
        cancel.instrument_id != view.instrument <==> view.cancel_refusal(cancel) == Some(
            RejectReason::InvalidInstrument,
        ),
        cancel.instrument_id == view.instrument && !queued(view, cancel.order_id)
            <==> view.cancel_refusal(cancel) == Some(RejectReason::UnknownOrder),
        replace.instrument_id != view.instrument <==> view.replace_refusal(
            replace,
            max_levels,
            max_orders,
        ) == Some(RejectReason::InvalidInstrument),
        replace.instrument_id == view.instrument && !queued(view, replace.order_id)
            <==> view.replace_refusal(replace, max_levels, max_orders) == Some(
            RejectReason::UnknownOrder,
        ),
{
    law_book_finds_what_is_queued(view, cancel.order_id);
    law_book_finds_what_is_queued(view, replace.order_id);
}

/// A cancel of the order at place `p` of a queue is refused only to another account.
/// It takes that one order out, answers with its account and what it had left, and
/// every other order keeps its turn.
pub proof fn law_cancel_takes_one_out(view: BookView, cancel: CancelOrder, side: Side, p: int)
    requires
        view.sound(),
        cancel.instrument_id == view.instrument,
        0 <= p < queue(own_levels(view, side)).len(),
        queue(own_levels(view, side))[p].1.id == cancel.order_id,
    ensures
        ({
            let peers = queue(own_levels(view, side));
            let order = peers[p].1;
            let after = view.without(cancel.order_id);
            let answer = view.cancel_answer(cancel);
            &&& order.account_id == cancel.account_id <==> view.cancel_refusal(cancel) is None
            &&& order.account_id != cancel.account_id <==> view.cancel_refusal(cancel) == Some(
                RejectReason::NotOrderOwner,
            )
            &&& answer.order_id == cancel.order_id
            &&& answer.account_id == order.account_id
            &&& answer.quantity == order.quantity
            &&& after.instrument == view.instrument
            &&& queue(own_levels(after, side)) == peers.remove(p)
            &&& other_levels(after, side) == other_levels(view, side)
        }),
{
    let (i, k) = lemma_member(view, side, p, cancel.order_id);
    lemma_queue_removed_at(own_levels(view, side), i, k);
}

/// Why a replacement of the order at place `p` of a queue is refused, each reason
/// with its cause: the first of the causes that holds.
pub proof fn law_replace_refusals(
    view: BookView,
    replace: ReplaceOrder,
    side: Side,
    p: int,
    max_levels: nat,
    max_orders: nat,
)
    requires
        view.sound(),
        replace.instrument_id == view.instrument,
        0 <= p < queue(own_levels(view, side)).len(),
        queue(own_levels(view, side))[p].1.id == replace.order_id,
    ensures
        ({
            let refusal = view.replace_refusal(replace, max_levels, max_orders);
            let levels = own_levels(view, side);
            let (old_price, order) = queue(levels)[p];
            let opposing = queue(other_levels(view, side));
            let owned = order.account_id == replace.account_id;
            let sensible = owned && replace.price.0 > 0 && replace.quantity.0 > 0;
            let moves = sensible && replace.price != old_price;
            let trades = opposing.len() > 0 && match side {
                Side::Buy => replace.price.0 >= opposing[0].0.0,
                Side::Sell => replace.price.0 <= opposing[0].0.0,
            };
            let alone = exists|i: int|
                0 <= i < levels.len() && (#[trigger] levels[i]).price == old_price
                    && levels[i].orders.len() == 1;
            let full = level_is_full(levels, replace.price, max_orders);
            let crowded = level_is_missing(levels, replace.price) && levels.len() == max_levels
                && !alone;
            &&& !owned <==> refusal == Some(RejectReason::NotOrderOwner)
            &&& owned && replace.price.0 <= 0 <==> refusal == Some(RejectReason::InvalidPrice)
            &&& owned && replace.price.0 > 0 && replace.quantity.0 == 0 <==> refusal == Some(
                RejectReason::InvalidQuantity,
            )
            &&& moves && trades <==> refusal == Some(RejectReason::ReplaceWouldCross)
            &&& moves && !trades && full <==> refusal == Some(
                RejectReason::PriceLevelOrderCapacity,
            )
            &&& moves && !trades && crowded <==> refusal == Some(RejectReason::PriceLevelCapacity)
            &&& refusal is None <==> sensible && !(moves && (trades || full || crowded))
        }),
{
    let levels = own_levels(view, side);
    let (i, k) = lemma_member(view, side, p, replace.order_id);
    lemma_room(view, side, replace.price, max_levels, max_orders);
    let opposing = other_levels(view, side);
    assert(opposing == view.side(side.opposing()));
    if opposing.len() > 0 {
        assert(at_place(opposing, 0, 0));
        lemma_ahead(opposing, 0, 0);
    } else {
        assert(queue(opposing).len() == 0);
    }
    let old_price = queue(levels)[p].0;
    assert forall|a: int| 0 <= a < levels.len() && (#[trigger] levels[a]).price == old_price implies a
        == i by {
        lemma_rank_splits(levels, side, old_price);
    }
    if level_is_full(levels, replace.price, max_orders) {
        let a = choose|a: int|
            0 <= a < levels.len() && (#[trigger] levels[a]).price == replace.price
                && levels[a].orders.len() == max_orders;
        assert(levels[a].price == replace.price);
        assert(!level_is_missing(levels, replace.price));
    }
}

/// An accepted replacement of the order at place `p` of a queue. It keeps its turn
/// and its sequence exactly when the price is the old one and the quantity is
/// smaller; otherwise it loses priority and comes behind every other order of its
/// side with as good a price. No other order is changed, and none overtakes another.
pub proof fn law_replace_keeps_or_requeues(
    view: BookView,
    replace: ReplaceOrder,
    side: Side,
    p: int,
    max_levels: nat,
    max_orders: nat,
) -> (place: int)
    requires
        view.sound(),
        0 <= p < queue(own_levels(view, side)).len(),
        queue(own_levels(view, side))[p].1.id == replace.order_id,
        view.replace_refusal(replace, max_levels, max_orders) is None,
    ensures
        ({
            let peers = queue(own_levels(view, side));
            let (old_price, order) = peers[p];
            let reduced = replace.price == old_price && replace.quantity.0 < order.quantity.0;
            let answer = view.replace_answer(replace);
            let after = view.replaced(replace);
            let requeued = queue(own_levels(after, side));
            let others = peers.remove(p);
            &&& answer.priority_lost <==> !reduced
            &&& answer.order_id == replace.order_id
            &&& answer.account_id == order.account_id
            &&& answer.old_quantity == order.quantity
            &&& answer.new_quantity == replace.quantity
            &&& answer.price == replace.price
            &&& after.instrument == view.instrument
            &&& other_levels(after, side) == other_levels(view, side)
            &&& reduced ==> requeued == peers.update(
                p,
                (
                    old_price,
                    OrderView {
                        id: order.id,
                        account_id: order.account_id,
                        quantity: replace.quantity,
                        sequence: order.sequence,
                    },
                ),
            )
            &&& !reduced ==> {
                &&& 0 <= place <= others.len()
                &&& requeued == others.insert(
                    place,
                    (
                        replace.price,
                        OrderView {
                            id: order.id,
                            account_id: order.account_id,
                            quantity: replace.quantity,
                            sequence: replace.sequence,
                        },
                    ),
                )
                &&& forall|j: int|
                    0 <= j < place ==> match side {
                        Side::Buy => (#[trigger] others[j]).0.0 >= replace.price.0,
                        Side::Sell => others[j].0.0 <= replace.price.0,
                    }
                &&& forall|j: int|
                    place <= j < others.len() ==> match side {
                        Side::Buy => (#[trigger] others[j]).0.0 < replace.price.0,
                        Side::Sell => others[j].0.0 > replace.price.0,
                    }
            }
        }),
{
    let levels = own_levels(view, side);
    let (i, k) = lemma_member(view, side, p, replace.order_id);
    let (old_price, order) = queue(levels)[p];
    let reduced = replace.price == old_price && replace.quantity.0 < order.quantity.0;
    if reduced {
        lemma_queue_set(levels, i, k, OrderView { quantity: replace.quantity, ..order });
        0
    } else {
        lemma_queue_removed_at(levels, i, k);
        lemma_removed_ordered(levels, side, i, k);
        let resting = OrderView {
            id: replace.order_id,
            account_id: replace.account_id,
            quantity: replace.quantity,
            sequence: replace.sequence,
        };
        law_rest_joins_the_queue(removed_at(levels, i, k), side, replace.price, resting)
    }
}

/// The shape of a book. Bids fall from level to level and asks rise, so no price has
/// two levels; every bid is below every ask; a level holds at least one order, at a
/// positive price, and an order at least one unit; and no identifier rests twice.
pub proof fn law_book_shape(view: BookView)
    requires
        view.sound(),
    ensures
        forall|i: int, j: int|
            0 <= i < j < view.bids.len() ==> (#[trigger] view.bids[i]).price.0 > (
            #[trigger] view.bids[j]).price.0,
        forall|i: int, j: int|
            0 <= i < j < view.asks.len() ==> (#[trigger] view.asks[i]).price.0 < (
            #[trigger] view.asks[j]).price.0,
        forall|i: int, j: int|
            0 <= i < view.bids.len() && 0 <= j < view.asks.len() ==> (
            #[trigger] view.bids[i]).price.0 < (#[trigger] view.asks[j]).price.0,
        forall|side: Side, i: int|
            0 <= i < own_levels(view, side).len() ==> {
                &&& (#[trigger] own_levels(view, side)[i]).price.0 > 0
                &&& own_levels(view, side)[i].orders.len() > 0
            },
        forall|side: Side, i: int, k: int|
            0 <= i < own_levels(view, side).len() && 0 <= k < own_levels(
                view,
                side,
            )[i].orders.len() ==> (#[trigger] own_levels(view, side)[i].orders[k]).quantity.0 > 0,
        forall|s: Side, i: int, k: int, t: Side, j: int, m: int|
            0 <= i < own_levels(view, s).len() && 0 <= k < own_levels(view, s)[i].orders.len() && 0
                <= j < own_levels(view, t).len() && 0 <= m < own_levels(view, t)[j].orders.len() && (
            #[trigger] own_levels(view, s)[i].orders[k]).id == (#[trigger] own_levels(
                view,
                t,
            )[j].orders[m]).id ==> s == t && i == j && k == m,
{
    assert forall|i: int, j: int|
        0 <= i < view.bids.len() && 0 <= j < view.asks.len() implies (
    #[trigger] view.bids[i]).price.0 < (#[trigger] view.asks[j]).price.0 by {
        if i > 0 {
            assert(better(Side::Buy, view.bids[0].price, view.bids[i].price));
        }
        if j > 0 {
            assert(better(Side::Sell, view.asks[0].price, view.asks[j].price));
        }
    }
    assert forall|s: Side, i: int, k: int, t: Side, j: int, m: int|
        0 <= i < own_levels(view, s).len() && 0 <= k < own_levels(view, s)[i].orders.len() && 0 <= j
            < own_levels(view, t).len() && 0 <= m < own_levels(view, t)[j].orders.len() && (
        #[trigger] own_levels(view, s)[i].orders[k]).id == (#[trigger] own_levels(
            view,
            t,
        )[j].orders[m]).id implies s == t && i == j && k == m by {
        let id = own_levels(view, s)[i].orders[k].id;
        assert(own_levels(view, s) == view.side(s));
        assert(own_levels(view, t) == view.side(t));
        assert(view.rests_at(id, s, i, k));
        assert(view.rests_at(id, t, j, m));
    }
}

/// The quantity of a level is made up of its orders: none is worth nothing, and each
/// that leaves takes its own quantity along.
pub proof fn law_level_quantity_is_its_orders(orders: Seq<OrderView>, k: int)
    ensures
        orders.len() == 0 ==> total(orders) == 0,
        0 <= k < orders.len() ==> total(orders) == total(orders.remove(k)) + orders[k].quantity.0,
    decreases orders.len(),
{
    if 0 <= k < orders.len() - 1 {
        law_level_quantity_is_its_orders(orders.drop_last(), k);
        assert(orders.remove(k).drop_last() =~= orders.drop_last().remove(k));
    } else if k == orders.len() - 1 && orders.len() > 0 {
        assert(orders.remove(k) =~= orders.drop_last());
    }
}

} // verus!
