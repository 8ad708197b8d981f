//! Books of a known shape, and what orders do to them.

use vstd::prelude::*;

use crate::book::model::{
    fills, front_left, front_trade, has_level, lemma_rank, removed_at, rested, swept, tradable,
    unfilled, BookView, FillView, LevelView, OrderView,
};
use crate::types::{
    AccountId, CancelOrder, InstrumentId, NewOrder, OrderId, PriceTicks, Quantity, SequenceNumber,
    Side, TimeInForce,
};

verus! {

/// The order of a cell.
pub open spec fn spec_bench_order(
    id: u64,
    account: u32,
    price: i64,
    quantity: u64,
    side: Side,
    time_in_force: TimeInForce,
) -> NewOrder {
    NewOrder {
        time_in_force,
        order_id: OrderId(id),
        account_id: AccountId(account),
        instrument_id: InstrumentId(1),
        price: PriceTicks(price),
        quantity: Quantity(quantity),
        sequence: SequenceNumber(id),
        side,
    }
}

/// The order of a cell.
pub fn bench_order(
    id: u64,
    account: u32,
    price: i64,
    quantity: u64,
    side: Side,
    time_in_force: TimeInForce,
) -> (order: NewOrder)
    ensures
        order == spec_bench_order(id, account, price, quantity, side, time_in_force),
{
    NewOrder {
        time_in_force,
        order_id: OrderId(id),
        account_id: AccountId(account),
        instrument_id: InstrumentId(1),
        price: PriceTicks(price),
        quantity: Quantity(quantity),
        sequence: SequenceNumber(id),
        side,
    }
}

/// The cancellation of an order of a cell.
pub open spec fn spec_bench_cancel(id: u64, account: u32) -> CancelOrder {
    CancelOrder {
        order_id: OrderId(id),
        account_id: AccountId(account),
        instrument_id: InstrumentId(1),
        sequence: SequenceNumber(id),
    }
}

/// The cancellation of an order of a cell.
pub fn bench_cancel(id: u64, account: u32) -> (cancel: CancelOrder)
    ensures
        cancel == spec_bench_cancel(id, account),
{
    CancelOrder {
        order_id: OrderId(id),
        account_id: AccountId(account),
        instrument_id: InstrumentId(1),
        sequence: SequenceNumber(id),
    }
}

/// A resting order of a cell.
pub open spec fn resting(id: u64, account: u32, quantity: u64) -> OrderView {
    OrderView {
        id: OrderId(id),
        account_id: AccountId(account),
        quantity: Quantity(quantity),
        sequence: SequenceNumber(id),
    }
}

/// One order at each price from `price` up.
pub open spec fn fan(price: int, orders: Seq<OrderView>) -> Seq<LevelView> {
    Seq::new(
        orders.len(),
        |i: int| LevelView { price: PriceTicks((price + i) as i64), orders: seq![orders[i]] },
    )
}

/// A book of asks only.
pub open spec fn asks_only(asks: Seq<LevelView>) -> BookView {
    BookView { instrument: InstrumentId(1), bids: Seq::empty(), asks }
}

/// The prices of a fan are prices.
pub open spec fn priced(price: int, count: nat) -> bool {
    0 < price && price + count <= i64::MAX
}

/// None of the orders has this number.
pub open spec fn unused(orders: Seq<OrderView>, id: u64) -> bool {
    forall|k: int| 0 <= k < orders.len() ==> (#[trigger] orders[k]).id.0 != id
}

/// An order is in a book of asks only where it is in its fan.
pub proof fn lemma_absent(price: int, orders: Seq<OrderView>, id: u64)
    requires
        unused(orders, id),
    ensures
        !asks_only(fan(price, orders)).contains(OrderId(id)),
{
    let view = asks_only(fan(price, orders));
    if view.contains(OrderId(id)) {
        let (side, i, k) = view.place(OrderId(id));
        assert(view.rests_at(OrderId(id), side, i, k));
        assert(orders[i].id.0 != id);
    }
}

/// A taker below the fan trades nothing.
pub proof fn lemma_below(price: int, orders: Seq<OrderView>, limit: PriceTicks, quantity: nat)
    requires
        priced(price, orders.len()),
        orders.len() == 0 || quantity == 0 || limit.0 < price,
    ensures
        fills(fan(price, orders), Side::Buy, limit, quantity) == Seq::<FillView>::empty(),
        swept(fan(price, orders), Side::Buy, limit, quantity) == fan(price, orders),
        unfilled(fan(price, orders), Side::Buy, limit, quantity) == quantity,
{
}

/// A taker for less than the front order takes its quantity off it.
pub proof fn lemma_part(price: int, orders: Seq<OrderView>, limit: PriceTicks, quantity: nat)
    requires
        priced(price, orders.len()),
        orders.len() > 0,
        0 < quantity < orders[0].quantity.0,
        limit.0 >= price,
    ensures
        fills(fan(price, orders), Side::Buy, limit, quantity) == seq![
            FillView { maker: orders[0].id, price: PriceTicks(price as i64), quantity },
        ],
        swept(fan(price, orders), Side::Buy, limit, quantity) == fan(
            price,
            orders.update(
                0,
                OrderView {
                    quantity: Quantity((orders[0].quantity.0 - quantity) as u64),
                    ..orders[0]
                },
            ),
        ),
        unfilled(fan(price, orders), Side::Buy, limit, quantity) == 0,
{
    let levels = fan(price, orders);
    let left = front_left(levels, quantity);
    let reduced = orders.update(
        0,
        OrderView { quantity: Quantity((orders[0].quantity.0 - quantity) as u64), ..orders[0] },
    );
    assert(front_trade(levels, quantity) == quantity);
    assert(left =~= fan(price, reduced)) by {
        assert(levels[0].orders.update(0, reduced[0]) =~= seq![reduced[0]]);
    }
    assert(fills(left, Side::Buy, limit, 0) =~= Seq::<FillView>::empty());
    assert(swept(left, Side::Buy, limit, 0) == left);
    assert(unfilled(left, Side::Buy, limit, 0) == 0);
    assert(fills(levels, Side::Buy, limit, quantity) =~= seq![
        FillView { maker: orders[0].id, price: PriceTicks(price as i64), quantity },
    ]);
}

/// A taker for no less than the front order takes it and goes on behind it.
pub proof fn lemma_front(price: int, orders: Seq<OrderView>, limit: PriceTicks, quantity: nat)
    requires
        priced(price, orders.len()),
        orders.len() > 0,
        0 < orders[0].quantity.0 <= quantity,
        limit.0 >= price,
    ensures
        ({
            let front = orders[0].quantity.0 as nat;
            let rest = fan(price + 1, orders.skip(1));
            let left = (quantity - front) as nat;
            &&& fills(fan(price, orders), Side::Buy, limit, quantity) == seq![
                FillView {
                    maker: orders[0].id,
                    price: PriceTicks(price as i64),
                    quantity: front,
                },
            ] + fills(rest, Side::Buy, limit, left)
            &&& swept(fan(price, orders), Side::Buy, limit, quantity) == swept(
                rest,
                Side::Buy,
                limit,
                left,
            )
            &&& unfilled(fan(price, orders), Side::Buy, limit, quantity) == unfilled(
                rest,
                Side::Buy,
                limit,
                left,
            )
        }),
{
    let levels = fan(price, orders);
    let front = orders[0].quantity.0 as nat;
    assert(tradable(levels, Side::Buy, limit));
    assert(front_trade(levels, quantity) == front);
    assert(front_left(levels, front) =~= fan(price + 1, orders.skip(1))) by {
        assert(levels.remove(0) =~= fan(price + 1, orders.skip(1)));
    }
}

/// A taker for as many units as a fan of single units has takes them all, in
/// price order.
pub proof fn lemma_sweep(price: int, orders: Seq<OrderView>, limit: PriceTicks)
    requires
        priced(price, orders.len()),
        forall|k: int| 0 <= k < orders.len() ==> (#[trigger] orders[k]).quantity.0 == 1,
        limit.0 >= price + orders.len(),
    ensures
        fills(fan(price, orders), Side::Buy, limit, orders.len()).len() == orders.len(),
        swept(fan(price, orders), Side::Buy, limit, orders.len()) == Seq::<LevelView>::empty(),
        unfilled(fan(price, orders), Side::Buy, limit, orders.len()) == 0,
    decreases orders.len(),
{
    if orders.len() == 0 {
        assert(fan(price, orders) =~= Seq::<LevelView>::empty());
    } else {
        lemma_front(price, orders, limit, orders.len());
        let rest = orders.skip(1);
        assert forall|k: int| 0 <= k < rest.len() implies (#[trigger] rest[k]).quantity.0 == 1 by {
            assert(rest[k] == orders[k + 1]);
        }
        lemma_sweep(price + 1, rest, limit);
    }
}

/// No bid trades with an ask that nobody bids for.
pub proof fn lemma_no_bids(limit: PriceTicks, quantity: nat)
    ensures
        fills(Seq::<LevelView>::empty(), Side::Sell, limit, quantity) == Seq::<FillView>::empty(),
        swept(Seq::<LevelView>::empty(), Side::Sell, limit, quantity) == Seq::<LevelView>::empty(),
        unfilled(Seq::<LevelView>::empty(), Side::Sell, limit, quantity) == quantity,
{
}

/// An ask behind the fan becomes its last.
pub proof fn lemma_rest_last(
    price: int,
    orders: Seq<OrderView>,
    order: NewOrder,
    reports: nat,
    levels: nat,
    depth: nat,
)
    requires
        priced(price, orders.len() + 1),
        order == spec_bench_order(
            order.order_id.0,
            order.account_id.0,
            (price + orders.len()) as i64,
            order.quantity.0,
            Side::Sell,
            TimeInForce::Gtc,
        ),
        order.quantity.0 > 0,
        unused(orders, order.order_id.0),
        orders.len() < levels,
    ensures
        asks_only(fan(price, orders)).refusal(order, reports, levels, depth) is None,
        asks_only(fan(price, orders)).order_fills(order) == Seq::<FillView>::empty(),
        asks_only(fan(price, orders)).submitted(order) == asks_only(
            fan(
                price,
                orders.push(resting(order.order_id.0, order.account_id.0, order.quantity.0)),
            ),
        ),
{
    let view = asks_only(fan(price, orders));
    let asks = view.asks;
    let added = resting(order.order_id.0, order.account_id.0, order.quantity.0);
    lemma_absent(price, orders, order.order_id.0);
    lemma_no_bids(order.price, order.quantity.0 as nat);
    lemma_rank(asks, Side::Sell, order.price, asks.len() as int);
    assert(!has_level(asks, order.price));
    assert(rested(asks, Side::Sell, order.price, added) =~= fan(price, orders.push(added)));
    assert(view.submitted(order) =~= asks_only(fan(price, orders.push(added))));
}

/// An ask before the fan becomes its first.
pub proof fn lemma_rest_first(
    price: int,
    orders: Seq<OrderView>,
    order: NewOrder,
    reports: nat,
    levels: nat,
    depth: nat,
)
    requires
        priced(price, orders.len() + 1),
        order == spec_bench_order(
            order.order_id.0,
            order.account_id.0,
            price as i64,
            order.quantity.0,
            Side::Sell,
            TimeInForce::Gtc,
        ),
        order.quantity.0 > 0,
        unused(orders, order.order_id.0),
        orders.len() < levels,
    ensures
        asks_only(fan(price + 1, orders)).refusal(order, reports, levels, depth) is None,
        asks_only(fan(price + 1, orders)).order_fills(order) == Seq::<FillView>::empty(),
        asks_only(fan(price + 1, orders)).submitted(order) == asks_only(
            fan(
                price,
                seq![resting(order.order_id.0, order.account_id.0, order.quantity.0)] + orders,
            ),
        ),
{
    let view = asks_only(fan(price + 1, orders));
    let asks = view.asks;
    let added = resting(order.order_id.0, order.account_id.0, order.quantity.0);
    lemma_absent(price + 1, orders, order.order_id.0);
    lemma_no_bids(order.price, order.quantity.0 as nat);
    lemma_rank(asks, Side::Sell, order.price, 0);
    assert(!has_level(asks, order.price));
    assert(rested(asks, Side::Sell, order.price, added) =~= fan(price, seq![added] + orders));
    assert(view.submitted(order) =~= asks_only(fan(price, seq![added] + orders)));
}

/// The same book with one bid.
pub open spec fn with_bid(asks: Seq<LevelView>, price: PriceTicks, bid: OrderView) -> BookView {
    BookView {
        instrument: InstrumentId(1),
        bids: seq![LevelView { price, orders: seq![bid] }],
        asks,
    }
}

/// The only bid is cancelled, and the asks stay.
pub proof fn lemma_cancel_bid(asks: Seq<LevelView>, price: PriceTicks, bid: OrderView)
    requires
        with_bid(asks, price, bid).unique_ids(),
    ensures
        ({
            let view = with_bid(asks, price, bid);
            let cancel = spec_bench_cancel(bid.id.0, bid.account_id.0);
            &&& view.cancel_refusal(cancel) is None
            &&& view.without(bid.id) == asks_only(asks)
            &&& view.order(bid.id) == bid
        }),
{
    let view = with_bid(asks, price, bid);
    assert(view.rests_at(bid.id, Side::Buy, 0, 0));
    let (side, i, k) = view.place(bid.id);
    assert(view.rests_at(bid.id, side, i, k));
    assert(removed_at(view.bids, 0, 0) =~= Seq::<LevelView>::empty());
    assert(view.without(bid.id) =~= asks_only(asks));
}

/// An ask of a fan is cancelled.
pub proof fn lemma_cancel_ask(price: int, orders: Seq<OrderView>, at: int)
    requires
        asks_only(fan(price, orders)).unique_ids(),
        0 <= at < orders.len(),
    ensures
        ({
            let view = asks_only(fan(price, orders));
            let order = orders[at];
            let cancel = spec_bench_cancel(order.id.0, order.account_id.0);
            &&& view.cancel_refusal(cancel) is None
            &&& view.without(order.id) == asks_only(fan(price, orders).remove(at))
            &&& view.order(order.id) == order
        }),
{
    let view = asks_only(fan(price, orders));
    let id = orders[at].id;
    assert(view.rests_at(id, Side::Sell, at, 0));
    let (side, i, k) = view.place(id);
    assert(view.rests_at(id, side, i, k));
    assert(view.without(id) =~= asks_only(fan(price, orders).remove(at)));
}

/// A fan without its last order.
pub proof fn lemma_fan_last(price: int, orders: Seq<OrderView>)
    requires
        orders.len() > 0,
    ensures
        fan(price, orders).remove(orders.len() - 1) == fan(price, orders.drop_last()),
{
    assert(fan(price, orders).remove(orders.len() - 1) =~= fan(price, orders.drop_last()));
}

} // verus!
