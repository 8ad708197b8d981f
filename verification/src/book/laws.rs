//! What holds of every book and of every order it accepts.

use vstd::prelude::*;

use crate::book::model::{
    better, crosses, fills, front_left, front_trade, has_level, lemma_front_left, lemma_rank_splits,
    lemma_removed_ordered, lemma_swept, lemma_total_remove, lemma_total_update, ordered, rank,
    reduced_at, removed_at, rested, swept, total, tradable, unfilled, BookView, FillView, LevelView,
    OrderView,
};
use crate::types::{NewOrder, OrderId, PriceTicks, ReplaceOrder, Side, TimeInForce};

verus! {

/// What `trades` amount to.
pub open spec fn traded_total(trades: Seq<FillView>) -> nat
    decreases trades.len(),
{
    if trades.len() == 0 {
        0
    } else {
        trades[0].quantity + traded_total(trades.skip(1))
    }
}

/// What rests on `levels`.
pub open spec fn resting_total(levels: Seq<LevelView>) -> nat
    decreases levels.len(),
{
    if levels.len() == 0 {
        0
    } else {
        total(levels[0].orders) + resting_total(levels.skip(1))
    }
}

/// The orders of `levels` with their prices, in price-time order.
pub open spec fn queue(levels: Seq<LevelView>) -> Seq<(PriceTicks, OrderView)>
    decreases levels.len(),
{
    if levels.len() == 0 {
        Seq::empty()
    } else {
        Seq::new(levels[0].orders.len(), |k: int| (levels[0].price, levels[0].orders[k])) + queue(
            levels.skip(1),
        )
    }
}

proof fn lemma_queue_removed(levels: Seq<LevelView>)
    requires
        levels.len() > 0,
        levels[0].orders.len() > 0,
    ensures
        queue(levels).len() > 0,
        queue(levels)[0] == (levels[0].price, levels[0].orders[0]),
        queue(removed_at(levels, 0, 0)) == queue(levels).skip(1),
        resting_total(removed_at(levels, 0, 0)) == resting_total(levels)
            - levels[0].orders[0].quantity.0,
{
    let left = removed_at(levels, 0, 0);
    let first = levels[0];
    let head = Seq::new(first.orders.len(), |k: int| (first.price, first.orders[k]));
    lemma_total_remove(first.orders, 0);
    if first.orders.len() == 1 {
        assert(left =~= levels.skip(1));
        assert(queue(left) =~= queue(levels).skip(1));
        assert(first.orders.remove(0) =~= Seq::empty());
    } else {
        assert(left.skip(1) =~= levels.skip(1));
        let rest = Seq::new(left[0].orders.len(), |k: int| (left[0].price, left[0].orders[k]));
        assert(rest =~= head.skip(1));
        assert(queue(left) =~= queue(levels).skip(1));
    }
}

proof fn lemma_total_reduced(levels: Seq<LevelView>, quantity: nat)
    requires
        levels.len() > 0,
        levels[0].orders.len() > 0,
        quantity <= levels[0].orders[0].quantity.0,
    ensures
        resting_total(reduced_at(levels, 0, 0, quantity as int)) == resting_total(levels)
            - quantity,
{
    let left = reduced_at(levels, 0, 0, quantity as int);
    assert(left.skip(1) =~= levels.skip(1));
    lemma_total_update(levels[0].orders, 0, left[0].orders[0]);
}

/// Nothing is traded out of thin air: what a taker trades and what it leaves
/// make up what it asked for, and the makers lose exactly what is traded.
pub proof fn law_quantity_is_conserved(
    levels: Seq<LevelView>,
    taker: Side,
    limit: PriceTicks,
    quantity: nat,
)
    requires
        ordered(levels, taker.opposing()),
    ensures
        traded_total(fills(levels, taker, limit, quantity)) + unfilled(
            levels,
            taker,
            limit,
            quantity,
        ) == quantity,
        resting_total(swept(levels, taker, limit, quantity)) + traded_total(
            fills(levels, taker, limit, quantity),
        ) == resting_total(levels),
    decreases quantity,
{
    if quantity > 0 && tradable(levels, taker, limit) {
        let traded = front_trade(levels, quantity);
        let left = front_left(levels, traded);
        let rest = fills(left, taker, limit, (quantity - traded) as nat);
        lemma_front_left(levels, taker.opposing(), traded);
        law_quantity_is_conserved(left, taker, limit, (quantity - traded) as nat);
        assert(fills(levels, taker, limit, quantity).skip(1) =~= rest);
        if traded == levels[0].orders[0].quantity.0 {
            lemma_queue_removed(levels);
        } else {
            lemma_total_reduced(levels, traded);
        }
    }
}

/// An accepted order is filled, resting and discarded in parts that make up
/// its quantity.
pub proof fn law_summary_conserves_quantity(view: BookView, order: NewOrder)
    requires
        ordered(view.side(order.side.opposing()), order.side.opposing()),
        view.order_left(order) == 0 || order.time_in_force != TimeInForce::Fok,
    ensures
        view.summary(order).filled_quantity.0 + view.summary(order).resting_quantity.0
            + view.summary(order).discarded_quantity.0 == order.quantity.0,
        view.summary(order).filled_quantity.0 == traded_total(view.order_fills(order)),
{
    let makers = view.side(order.side.opposing());
    lemma_swept(makers, order.side, order.price, order.quantity.0 as nat);
    law_quantity_is_conserved(makers, order.side, order.price, order.quantity.0 as nat);
}

/// Price-time priority: the makers that trade are the first orders of their
/// side, best price first and oldest first within a price; each but the last
/// trades in full, and every trade is at the maker's own price, which crosses.
pub proof fn law_price_time_priority(
    levels: Seq<LevelView>,
    taker: Side,
    limit: PriceTicks,
    quantity: nat,
)
    requires
        ordered(levels, taker.opposing()),
    ensures
        fills(levels, taker, limit, quantity).len() <= queue(levels).len(),
        forall|i: int|
            0 <= i < fills(levels, taker, limit, quantity).len() ==> {
                let trade = #[trigger] fills(levels, taker, limit, quantity)[i];
                let (price, maker) = queue(levels)[i];
                &&& trade.maker == maker.id
                &&& trade.price == price
                &&& crosses(taker, limit, price)
                &&& 0 < trade.quantity <= maker.quantity.0
                &&& i < fills(levels, taker, limit, quantity).len() - 1 ==> trade.quantity
                    == maker.quantity.0
            },
    decreases quantity,
{
    if quantity > 0 && tradable(levels, taker, limit) {
        let trades = fills(levels, taker, limit, quantity);
        let traded = front_trade(levels, quantity);
        let left = front_left(levels, traded);
        let rest = fills(left, taker, limit, (quantity - traded) as nat);
        lemma_front_left(levels, taker.opposing(), traded);
        law_price_time_priority(left, taker, limit, (quantity - traded) as nat);
        lemma_queue_removed(levels);
        assert forall|i: int| 0 <= i < trades.len() implies {
            let trade = #[trigger] trades[i];
            let (price, maker) = queue(levels)[i];
            &&& trade.maker == maker.id
            &&& trade.price == price
            &&& crosses(taker, limit, price)
            &&& 0 < trade.quantity <= maker.quantity.0
            &&& i < trades.len() - 1 ==> trade.quantity == maker.quantity.0
        } by {
            if i > 0 {
                assert(trades[i] == rest[i - 1]);
                assert(queue(levels).skip(1)[i - 1] == queue(levels)[i]);
            }
        }
    }
}

/// No liquidity is skipped: a taker keeps something only when nothing that is
/// left on the other side crosses its limit.
pub proof fn law_no_skipped_liquidity(
    levels: Seq<LevelView>,
    taker: Side,
    limit: PriceTicks,
    quantity: nat,
    i: int,
)
    requires
        ordered(levels, taker.opposing()),
        unfilled(levels, taker, limit, quantity) > 0,
        0 <= i < swept(levels, taker, limit, quantity).len(),
    ensures
        !crosses(taker, limit, swept(levels, taker, limit, quantity)[i].price),
{
    lemma_swept(levels, taker, limit, quantity);
    let left = swept(levels, taker, limit, quantity);
    if i > 0 {
        assert(better(taker.opposing(), left[0].price, left[i].price));
    }
}

/// An accepted post-only order does not trade.
pub proof fn law_post_only_never_trades(
    view: BookView,
    order: NewOrder,
    free_reports: nat,
    max_levels: nat,
    max_orders: nat,
)
    requires
        order.time_in_force == TimeInForce::PostOnly,
        view.refusal(order, free_reports, max_levels, max_orders) is None,
    ensures
        view.order_fills(order).len() == 0,
        view.order_rests(order) == order.quantity.0,
        view.submitted(order).side(order.side.opposing()) == view.side(order.side.opposing()),
{
}

/// An accepted immediate-or-cancel or fill-or-kill order leaves its own side
/// as it was.
pub proof fn law_immediate_orders_never_rest(view: BookView, order: NewOrder)
    requires
        order.time_in_force == TimeInForce::Ioc || order.time_in_force == TimeInForce::Fok,
    ensures
        view.order_rests(order) == 0,
        view.submitted(order).side(order.side) == view.side(order.side),
{
}

/// An accepted fill-or-kill order trades in full.
pub proof fn law_fill_or_kill_is_atomic(
    view: BookView,
    order: NewOrder,
    free_reports: nat,
    max_levels: nat,
    max_orders: nat,
)
    requires
        ordered(view.side(order.side.opposing()), order.side.opposing()),
        order.time_in_force == TimeInForce::Fok,
        view.refusal(order, free_reports, max_levels, max_orders) is None,
    ensures
        traded_total(view.order_fills(order)) == order.quantity.0,
        view.summary(order).filled_quantity == order.quantity,
{
    law_quantity_is_conserved(
        view.side(order.side.opposing()),
        order.side,
        order.price,
        order.quantity.0 as nat,
    );
}

/// Where level `a` was before the order at `(i, k)` was taken out.
pub open spec fn level_before(levels: Seq<LevelView>, i: int, a: int) -> int {
    if levels[i].orders.len() == 1 && a >= i {
        a + 1
    } else {
        a
    }
}

/// Where order `b` of level `a` was before the order at `(i, k)` was taken out.
pub open spec fn order_before(levels: Seq<LevelView>, i: int, k: int, a: int, b: int) -> int {
    if levels[i].orders.len() != 1 && a == i && b >= k {
        b + 1
    } else {
        b
    }
}

/// Where level `a` goes when the order at `(i, k)` is taken out.
spec fn level_after(levels: Seq<LevelView>, i: int, a: int) -> int {
    if levels[i].orders.len() == 1 && a > i {
        a - 1
    } else {
        a
    }
}

/// Where order `b` of level `a` goes when the order at `(i, k)` is taken out.
spec fn order_after(levels: Seq<LevelView>, i: int, k: int, a: int, b: int) -> int {
    if a == i && b > k {
        b - 1
    } else {
        b
    }
}

pub open spec fn at_place(levels: Seq<LevelView>, a: int, b: int) -> bool {
    0 <= a < levels.len() && 0 <= b < levels[a].orders.len()
}

/// An order that is left was there before, at another place than the one taken
/// out.
pub proof fn lemma_removed_from(levels: Seq<LevelView>, i: int, k: int, a: int, b: int)
    requires
        at_place(levels, i, k),
        at_place(removed_at(levels, i, k), a, b),
    ensures
        ({
            let a0 = level_before(levels, i, a);
            let b0 = order_before(levels, i, k, a, b);
            &&& at_place(levels, a0, b0)
            &&& levels[a0].price == removed_at(levels, i, k)[a].price
            &&& levels[a0].orders[b0] == removed_at(levels, i, k)[a].orders[b]
            &&& a0 != i || b0 != k
        }),
{
}

/// An order at another place than the one taken out is left.
proof fn lemma_removed_to(levels: Seq<LevelView>, i: int, k: int, a: int, b: int)
    requires
        at_place(levels, i, k),
        at_place(levels, a, b),
        a != i || b != k,
    ensures
        ({
            let a1 = level_after(levels, i, a);
            let b1 = order_after(levels, i, k, a, b);
            &&& at_place(removed_at(levels, i, k), a1, b1)
            &&& levels[a].price == removed_at(levels, i, k)[a1].price
            &&& levels[a].orders[b] == removed_at(levels, i, k)[a1].orders[b1]
        }),
{
}

/// The place of an order is the only place that holds its identifier.
pub proof fn lemma_place(view: BookView, id: OrderId, side: Side, i: int, k: int)
    requires
        view.unique_ids(),
        view.rests_at(id, side, i, k),
    ensures
        view.contains(id),
        view.place(id) == (side, i, k),
        view.order(id) == view.side(side)[i].orders[k],
        view.price_of(id) == view.side(side)[i].price,
{
    let (s, a, b) = view.place(id);
    assert(view.rests_at(id, s, a, b));
}

/// The same order rests at the same price in both books, or in neither.
pub open spec fn same_order(before: BookView, after: BookView, id: OrderId) -> bool {
    &&& before.contains(id) == after.contains(id)
    &&& before.contains(id) ==> before.order(id) == after.order(id) && before.price_of(id)
        == after.price_of(id)
}

/// A cancel takes out the one order it names: the book stays sound, the order
/// is gone, and every other order stays as it was.
pub proof fn law_cancel_removes_one_order(view: BookView, id: OrderId)
    requires
        view.sound(),
        view.contains(id),
    ensures
        view.without(id).sound(),
        !view.without(id).contains(id),
        forall|other: OrderId| other != id ==> #[trigger] same_order(view, view.without(id), other),
{
    let (side, i, k) = view.place(id);
    assert(view.rests_at(id, side, i, k));
    let levels = view.side(side);
    let after = view.without(id);
    let left = removed_at(levels, i, k);
    assert(after.side(side) == left);
    assert(after.side(side.opposing()) == view.side(side.opposing()));
    lemma_removed_ordered(levels, side, i, k);
    assert forall|other: OrderId, s: Side, a: int, b: int| #[trigger]
        after.rests_at(other, s, a, b) implies other != id && (s == side ==> view.rests_at(
        other,
        s,
        level_before(levels, i, a),
        order_before(levels, i, k, a, b),
    )) && (s != side ==> view.rests_at(other, s, a, b)) by {
        if s == side {
            lemma_removed_from(levels, i, k, a, b);
            let a0 = level_before(levels, i, a);
            let b0 = order_before(levels, i, k, a, b);
            assert(view.rests_at(other, s, a0, b0));
        } else {
            assert(view.rests_at(other, s, a, b));
        }
    }
    assert(after.unique_ids()) by {
        assert forall|other: OrderId, s1: Side, a1: int, b1: int, s2: Side, a2: int, b2: int|
            #![trigger after.rests_at(other, s1, a1, b1), after.rests_at(other, s2, a2, b2)]
            after.rests_at(other, s1, a1, b1) && after.rests_at(other, s2, a2, b2) implies s1 == s2
            && a1 == a2 && b1 == b2 by {}
    }
    assert(!after.contains(id)) by {
        if after.contains(id) {
            let (s, a, b) = after.place(id);
            assert(after.rests_at(id, s, a, b));
        }
    }
    assert forall|other: OrderId| other != id implies #[trigger] same_order(view, after, other) by {
        if after.contains(other) {
            let (s, a, b) = after.place(other);
            assert(after.rests_at(other, s, a, b));
            if s == side {
                lemma_place(
                    view,
                    other,
                    s,
                    level_before(levels, i, a),
                    order_before(levels, i, k, a, b),
                );
                lemma_removed_from(levels, i, k, a, b);
            } else {
                lemma_place(view, other, s, a, b);
            }
        }
        if view.contains(other) {
            let (s, a, b) = view.place(other);
            assert(view.rests_at(other, s, a, b));
            if s == side {
                lemma_removed_to(levels, i, k, a, b);
                let a1 = level_after(levels, i, a);
                let b1 = order_after(levels, i, k, a, b);
                assert(after.rests_at(other, s, a1, b1));
            } else {
                assert(after.rests_at(other, s, a, b));
            }
        }
    }
}

/// Where level `a` goes when an order rests at a price of rank `r`.
pub open spec fn level_shifted(levels: Seq<LevelView>, side: Side, price: PriceTicks, a: int) -> int {
    if !has_level(levels, price) && a >= rank(levels, side, price) {
        a + 1
    } else {
        a
    }
}

/// A rested order is the last of its level, and every other order keeps its
/// FIFO position.
pub proof fn lemma_rested_places(
    levels: Seq<LevelView>,
    side: Side,
    price: PriceTicks,
    order: OrderView,
)
    requires
        ordered(levels, side),
    ensures
        ({
            let next = rested(levels, side, price, order);
            let r = rank(levels, side, price);
            &&& at_place(next, r, next[r].orders.len() - 1)
            &&& next[r].price == price
            &&& next[r].orders[next[r].orders.len() - 1] == order
            &&& forall|a: int, b: int| #[trigger]
                at_place(levels, a, b) ==> {
                    let a1 = level_shifted(levels, side, price, a);
                    &&& at_place(next, a1, b)
                    &&& next[a1].price == levels[a].price
                    &&& next[a1].orders[b] == levels[a].orders[b]
                }
            &&& forall|a: int, b: int| #[trigger]
                at_place(next, a, b) && (a != r || b != next[r].orders.len() - 1) ==> {
                    let a0 = if !has_level(levels, price) && a > r {
                        a - 1
                    } else {
                        a
                    };
                    &&& at_place(levels, a0, b)
                    &&& next[a].orders[b] == levels[a0].orders[b]
                    &&& level_shifted(levels, side, price, a0) == a
                }
        }),
{
    lemma_rank_splits(levels, side, price);
}

/// Resting an order under a fresh identifier adds that one order, behind its
/// peers, and leaves every other order as it was.
pub proof fn law_rest_adds_one_order(view: BookView, side: Side, price: PriceTicks, order: OrderView)
    requires
        ordered(view.bids, Side::Buy),
        ordered(view.asks, Side::Sell),
        view.unique_ids(),
        !view.contains(order.id),
    ensures
        ({
            let after = view.with_side(side, rested(view.side(side), side, price, order));
            let (s, i, k) = after.place(order.id);
            &&& after.unique_ids()
            &&& after.contains(order.id)
            &&& after.order(order.id) == order
            &&& after.price_of(order.id) == price
            &&& s == side
            &&& i == rank(view.side(side), side, price)
            &&& k == after.side(side)[i].orders.len() - 1
            &&& forall|other: OrderId| other != order.id ==> #[trigger] same_order(view, after, other)
        }),
{
    let levels = view.side(side);
    let next = rested(levels, side, price, order);
    let after = view.with_side(side, next);
    let r = rank(levels, side, price);
    let last = next[r].orders.len() - 1;
    lemma_rested_places(levels, side, price, order);
    assert(after.side(side) == next);
    assert(after.side(side.opposing()) == view.side(side.opposing()));
    assert forall|other: OrderId, s: Side, a: int, b: int| #[trigger]
        after.rests_at(other, s, a, b) implies (if s == side && a == r && b == last {
        other == order.id
    } else if s == side {
        let a0 = if !has_level(levels, price) && a > r {
            a - 1
        } else {
            a
        };
        &&& view.rests_at(other, s, a0, b)
        &&& level_shifted(levels, side, price, a0) == a
        &&& other != order.id
    } else {
        view.rests_at(other, s, a, b) && other != order.id
    }) by {
        if s == side {
            assert(at_place(next, a, b));
            if a != r || b != last {
                let a0 = if !has_level(levels, price) && a > r {
                    a - 1
                } else {
                    a
                };
                assert(view.rests_at(other, s, a0, b));
                if other == order.id {
                    assert(view.contains(order.id));
                }
            }
        } else {
            assert(view.rests_at(other, s, a, b));
            if other == order.id {
                assert(view.contains(order.id));
            }
        }
    }
    assert(after.unique_ids());
    assert(after.rests_at(order.id, side, r, last));
    lemma_place(after, order.id, side, r, last);
    assert forall|other: OrderId| other != order.id implies #[trigger] same_order(
        view,
        after,
        other,
    ) by {
        if view.contains(other) {
            let (s, a, b) = view.place(other);
            assert(view.rests_at(other, s, a, b));
            if s == side {
                assert(at_place(levels, a, b));
                let a1 = level_shifted(levels, side, price, a);
                assert(after.rests_at(other, s, a1, b));
                lemma_place(after, other, s, a1, b);
            } else {
                assert(after.rests_at(other, s, a, b));
                lemma_place(after, other, s, a, b);
            }
        }
        if after.contains(other) {
            let (s, a, b) = after.place(other);
            assert(after.rests_at(other, s, a, b));
        }
    }
}

/// Submitting an order that rests in full and cancelling it again gives back
/// the book.
pub proof fn law_submit_then_cancel_restores(view: BookView, order: NewOrder)
    requires
        view.sound(),
        !view.contains(order.order_id),
        order.quantity.0 > 0,
        view.order_fills(order).len() == 0,
        view.order_rests(order) == order.quantity.0,
    ensures
        view.submitted(order).contains(order.order_id),
        view.submitted(order).without(order.order_id) == view,
{
    let makers = order.side.opposing();
    let levels = view.side(order.side);
    let resting = OrderView {
        id: order.order_id,
        account_id: order.account_id,
        quantity: order.quantity,
        sequence: order.sequence,
    };
    let next = rested(levels, order.side, order.price, resting);
    let r = rank(levels, order.side, order.price);
    assert(swept(view.side(makers), order.side, order.price, order.quantity.0 as nat)
        == view.side(makers));
    assert(view.submitted(order) =~= view.with_side(order.side, next));
    law_rest_adds_one_order(view, order.side, order.price, resting);
    lemma_rank_splits(levels, order.side, order.price);
    let after = view.submitted(order);
    let last = next[r].orders.len() - 1;
    assert(after.place(order.order_id) == (order.side, r, last));
    if has_level(levels, order.price) {
        assert(next[r].orders.remove(last) =~= levels[r].orders);
        assert(removed_at(next, r, last) =~= levels);
    } else {
        assert(next.remove(r) =~= levels);
    }
    assert(after.without(order.order_id) =~= view);
}

/// An accepted replacement amends the one order it names: the order has the
/// new price and quantity, keeps its place for a pure reduction and is the last
/// of its level otherwise, and every other order stays as it was.
pub proof fn law_replace_amends_one_order(
    view: BookView,
    replace: ReplaceOrder,
    max_levels: nat,
    max_orders: nat,
)
    requires
        view.sound(),
        view.replace_refusal(replace, max_levels, max_orders) is None,
    ensures
        ({
            let after = view.replaced(replace);
            let id = replace.order_id;
            &&& after.unique_ids()
            &&& after.contains(id)
            &&& after.price_of(id) == replace.price
            &&& after.order(id) == (OrderView {
                id,
                account_id: replace.account_id,
                quantity: replace.quantity,
                sequence: if view.keeps_priority(replace) {
                    view.order(id).sequence
                } else {
                    replace.sequence
                },
            })
            &&& view.keeps_priority(replace) ==> after.place(id) == view.place(id)
            &&& !view.keeps_priority(replace) ==> {
                let (side, i, k) = after.place(id);
                k == after.side(side)[i].orders.len() - 1
            }
            &&& forall|other: OrderId| other != id ==> #[trigger] same_order(view, after, other)
        }),
{
    let id = replace.order_id;
    let (side, i, k) = view.place(id);
    assert(view.rests_at(id, side, i, k));
    let after = view.replaced(replace);
    if view.keeps_priority(replace) {
        let levels = view.side(side);
        let left = reduced_at(levels, i, k, view.order(id).quantity.0 - replace.quantity.0);
        assert(after.side(side) == left);
        assert(after.side(side.opposing()) == view.side(side.opposing()));
        assert(left[i].orders[k].id == id);
        assert forall|other: OrderId, s: Side, a: int, b: int| #[trigger]
            after.rests_at(other, s, a, b) == view.rests_at(other, s, a, b) by {}
        assert(after.rests_at(id, side, i, k));
        lemma_place(after, id, side, i, k);
        assert forall|other: OrderId| other != id implies #[trigger] same_order(
            view,
            after,
            other,
        ) by {
            if view.contains(other) {
                let (s, a, b) = view.place(other);
                assert(view.rests_at(other, s, a, b));
                assert(after.rests_at(other, s, a, b));
                lemma_place(after, other, s, a, b);
            }
            if after.contains(other) {
                let (s, a, b) = after.place(other);
                assert(after.rests_at(other, s, a, b));
                assert(view.rests_at(other, s, a, b));
            }
        }
    } else {
        law_cancel_removes_one_order(view, id);
        let gone = view.without(id);
        let order = OrderView {
            id,
            account_id: replace.account_id,
            quantity: replace.quantity,
            sequence: replace.sequence,
        };
        law_rest_adds_one_order(gone, side, replace.price, order);
        assert forall|other: OrderId| other != id implies #[trigger] same_order(
            view,
            after,
            other,
        ) by {
            assert(same_order(view, gone, other));
            assert(same_order(gone, after, other));
        }
    }
}

} // verus!
