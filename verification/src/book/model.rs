//! The book as a mathematical value: levels best first, orders oldest first.

use vstd::prelude::*;

use crate::book::{CancelledOrder, ReplacedOrder};
use crate::digest::{mixed, DIGEST_SEED};
use crate::types::{
    AccountId, CancelOrder, ExecutionReport, InstrumentId, MatchSummary, NewOrder, OrderId,
    OrderState, PriceTicks, Quantity, RejectReason, ReplaceOrder, SequenceNumber, Side,
    TimeInForce,
};

verus! {

/// A resting order as a reader of the book sees it.
pub struct OrderView {
    pub id: OrderId,
    pub account_id: AccountId,
    pub quantity: Quantity,
    pub sequence: SequenceNumber,
}

/// One price level, oldest order first.
#[verifier::ext_equal]
pub struct LevelView {
    pub price: PriceTicks,
    pub orders: Seq<OrderView>,
}

/// The whole book: both sides, best level first.
#[verifier::ext_equal]
pub struct BookView {
    pub instrument: InstrumentId,
    pub bids: Seq<LevelView>,
    pub asks: Seq<LevelView>,
}

impl BookView {
    pub open spec fn side(self, side: Side) -> Seq<LevelView> {
        match side {
            Side::Buy => self.bids,
            Side::Sell => self.asks,
        }
    }

    pub open spec fn with_side(self, side: Side, levels: Seq<LevelView>) -> BookView {
        match side {
            Side::Buy => BookView { bids: levels, ..self },
            Side::Sell => BookView { asks: levels, ..self },
        }
    }

    /// The order `id` is at position `k` of level `i` on `side`.
    pub open spec fn rests_at(self, id: OrderId, side: Side, i: int, k: int) -> bool {
        &&& 0 <= i < self.side(side).len()
        &&& 0 <= k < self.side(side)[i].orders.len()
        &&& self.side(side)[i].orders[k].id == id
    }

    pub open spec fn contains(self, id: OrderId) -> bool {
        exists|side: Side, i: int, k: int| self.rests_at(id, side, i, k)
    }

    /// Side, level and FIFO position of a resting order.
    pub open spec fn place(self, id: OrderId) -> (Side, int, int) {
        choose|side: Side, i: int, k: int| self.rests_at(id, side, i, k)
    }

    /// The price of a resting order.
    pub open spec fn price_of(self, id: OrderId) -> PriceTicks {
        let (side, i, k) = self.place(id);
        self.side(side)[i].price
    }

    pub open spec fn order(self, id: OrderId) -> OrderView {
        let (side, i, k) = self.place(id);
        self.side(side)[i].orders[k]
    }

    /// The book without `id`.
    pub open spec fn without(self, id: OrderId) -> BookView {
        let (side, i, k) = self.place(id);
        self.with_side(side, removed_at(self.side(side), i, k))
    }

    /// No identifier occurs twice.
    pub open spec fn unique_ids(self) -> bool {
        forall|id: OrderId, s1: Side, i1: int, k1: int, s2: Side, i2: int, k2: int|
            #![trigger self.rests_at(id, s1, i1, k1), self.rests_at(id, s2, i2, k2)]
            self.rests_at(id, s1, i1, k1) && self.rests_at(id, s2, i2, k2) ==> s1 == s2 && i1 == i2
                && k1 == k2
    }

    /// Both sides are in order, no identifier occurs twice, and the best bid is
    /// below the best ask.
    pub open spec fn sound(self) -> bool {
        &&& ordered(self.bids, Side::Buy)
        &&& ordered(self.asks, Side::Sell)
        &&& self.unique_ids()
        &&& self.uncrossed()
    }

    /// The best bid is below the best ask.
    pub open spec fn uncrossed(self) -> bool {
        self.bids.len() > 0 && self.asks.len() > 0 ==> self.bids[0].price.0 < self.asks[0].price.0
    }
}

/// Levels in strict price order, each with orders, at positive prices and with
/// positive quantities.
pub open spec fn ordered(levels: Seq<LevelView>, side: Side) -> bool {
    &&& forall|i: int, j: int|
        0 <= i < j < levels.len() ==> better(
            side,
            (#[trigger] levels[i]).price,
            (#[trigger] levels[j]).price,
        )
    &&& forall|i: int|
        0 <= i < levels.len() ==> {
            &&& (#[trigger] levels[i]).orders.len() > 0
            &&& levels[i].price.0 > 0
            &&& positive(levels[i].orders)
        }
}

pub open spec fn positive(orders: Seq<OrderView>) -> bool {
    forall|k: int| 0 <= k < orders.len() ==> (#[trigger] orders[k]).quantity.0 > 0
}

/// On `side`, a resting order at `left` has price priority over one at `right`.
pub open spec fn better(side: Side, left: PriceTicks, right: PriceTicks) -> bool {
    match side {
        Side::Buy => left.0 > right.0,
        Side::Sell => left.0 < right.0,
    }
}

/// How many of `levels` have price priority over `price`.
pub open spec fn rank(levels: Seq<LevelView>, side: Side, price: PriceTicks) -> int
    decreases levels.len(),
{
    if levels.len() == 0 {
        0
    } else {
        rank(levels.drop_last(), side, price) + if better(side, levels.last().price, price) {
            1int
        } else {
            0
        }
    }
}

/// The level at `price` exists.
pub open spec fn has_level(levels: Seq<LevelView>, price: PriceTicks) -> bool {
    exists|i: int| 0 <= i < levels.len() && (#[trigger] levels[i]).price == price
}

/// `levels` with `order` behind every other order at `price`.
pub open spec fn rested(
    levels: Seq<LevelView>,
    side: Side,
    price: PriceTicks,
    order: OrderView,
) -> Seq<LevelView> {
    let r = rank(levels, side, price);
    if has_level(levels, price) {
        levels.update(r, LevelView { price, orders: levels[r].orders.push(order) })
    } else {
        levels.insert(r, LevelView { price, orders: seq![order] })
    }
}

/// `levels` without the order at position `k` of level `i`. A level goes with
/// its last order.
pub open spec fn removed_at(levels: Seq<LevelView>, i: int, k: int) -> Seq<LevelView> {
    if levels[i].orders.len() == 1 {
        levels.remove(i)
    } else {
        levels.update(
            i,
            LevelView { price: levels[i].price, orders: levels[i].orders.remove(k) },
        )
    }
}

/// `levels` with `quantity` taken off the order at position `k` of level `i`.
pub open spec fn reduced_at(levels: Seq<LevelView>, i: int, k: int, quantity: int) -> Seq<
    LevelView,
> {
    let order = levels[i].orders[k];
    let left = OrderView { quantity: Quantity((order.quantity.0 - quantity) as u64), ..order };
    levels.update(
        i,
        LevelView { price: levels[i].price, orders: levels[i].orders.update(k, left) },
    )
}

/// A taker on side `taker` with limit price `limit` trades at `price`.
pub open spec fn crosses(taker: Side, limit: PriceTicks, price: PriceTicks) -> bool {
    match taker {
        Side::Buy => price.0 <= limit.0,
        Side::Sell => price.0 >= limit.0,
    }
}

/// One maker's share of a trade.
pub struct FillView {
    pub maker: OrderId,
    pub price: PriceTicks,
    pub quantity: nat,
}

/// The best level has an order that the taker can trade with.
pub open spec fn tradable(levels: Seq<LevelView>, taker: Side, limit: PriceTicks) -> bool {
    &&& levels.len() > 0
    &&& crosses(taker, limit, levels[0].price)
    &&& levels[0].orders.len() > 0
    &&& levels[0].orders[0].quantity.0 > 0
}

/// What the taker trades with the oldest order of the best level.
pub open spec fn front_trade(levels: Seq<LevelView>, quantity: nat) -> nat {
    let front = levels[0].orders[0].quantity.0 as nat;
    if quantity < front {
        quantity
    } else {
        front
    }
}

/// The levels once the oldest order of the best level has traded `quantity`.
pub open spec fn front_left(levels: Seq<LevelView>, quantity: nat) -> Seq<LevelView> {
    if quantity == levels[0].orders[0].quantity.0 {
        removed_at(levels, 0, 0)
    } else {
        reduced_at(levels, 0, 0, quantity as int)
    }
}

/// The trades of a taker for `quantity`, best price first and oldest order
/// first within a price.
pub open spec fn fills(
    levels: Seq<LevelView>,
    taker: Side,
    limit: PriceTicks,
    quantity: nat,
) -> Seq<FillView>
    decreases quantity,
{
    if quantity == 0 || !tradable(levels, taker, limit) {
        Seq::empty()
    } else {
        let traded = front_trade(levels, quantity);
        seq![
            FillView {
                maker: levels[0].orders[0].id,
                price: levels[0].price,
                quantity: traded,
            },
        ] + fills(front_left(levels, traded), taker, limit, (quantity - traded) as nat)
    }
}

/// The maker side after those trades.
pub open spec fn swept(
    levels: Seq<LevelView>,
    taker: Side,
    limit: PriceTicks,
    quantity: nat,
) -> Seq<LevelView>
    decreases quantity,
{
    if quantity == 0 || !tradable(levels, taker, limit) {
        levels
    } else {
        let traded = front_trade(levels, quantity);
        swept(front_left(levels, traded), taker, limit, (quantity - traded) as nat)
    }
}

/// What the taker could not trade.
pub open spec fn unfilled(
    levels: Seq<LevelView>,
    taker: Side,
    limit: PriceTicks,
    quantity: nat,
) -> nat
    decreases quantity,
{
    if quantity == 0 || !tradable(levels, taker, limit) {
        quantity
    } else {
        let traded = front_trade(levels, quantity);
        unfilled(front_left(levels, traded), taker, limit, (quantity - traded) as nat)
    }
}

impl BookView {
    /// The trades of a new order.
    pub open spec fn order_fills(self, order: NewOrder) -> Seq<FillView> {
        fills(
            self.side(order.side.opposing()),
            order.side,
            order.price,
            order.quantity.0 as nat,
        )
    }

    /// What a new order does not trade at once.
    pub open spec fn order_left(self, order: NewOrder) -> nat {
        unfilled(
            self.side(order.side.opposing()),
            order.side,
            order.price,
            order.quantity.0 as nat,
        )
    }

    /// Why the side has no room for one more order at `price`.
    pub open spec fn no_room(
        self,
        side: Side,
        price: PriceTicks,
        max_levels: nat,
        max_orders: nat,
    ) -> Option<RejectReason> {
        let levels = self.side(side);
        if has_level(levels, price) {
            if levels[rank(levels, side, price)].orders.len() == max_orders {
                Some(RejectReason::PriceLevelOrderCapacity)
            } else {
                None
            }
        } else if levels.len() == max_levels {
            Some(RejectReason::PriceLevelCapacity)
        } else {
            None
        }
    }

    /// Why a new order is refused, if it is: the first check that fails.
    pub open spec fn refusal(
        self,
        order: NewOrder,
        free_reports: nat,
        max_levels: nat,
        max_orders: nat,
    ) -> Option<RejectReason> {
        let makers = self.side(order.side.opposing());
        if order.instrument_id != self.instrument {
            Some(RejectReason::InvalidInstrument)
        } else if order.price.0 <= 0 {
            Some(RejectReason::InvalidPrice)
        } else if order.quantity.0 == 0 {
            Some(RejectReason::InvalidQuantity)
        } else if self.contains(order.order_id) {
            Some(RejectReason::DuplicateOrderId)
        } else if order.time_in_force == TimeInForce::PostOnly && makers.len() > 0 && crosses(
            order.side,
            order.price,
            makers[0].price,
        ) {
            Some(RejectReason::PostOnlyWouldTrade)
        } else if self.order_fills(order).len() > free_reports {
            Some(RejectReason::ReportCapacity)
        } else if self.order_left(order) == 0 {
            None
        } else {
            match order.time_in_force {
                TimeInForce::Fok => Some(RejectReason::InsufficientLiquidity),
                TimeInForce::Ioc => None,
                _ => self.no_room(order.side, order.price, max_levels, max_orders),
            }
        }
    }

    /// What of an accepted order rests.
    pub open spec fn order_rests(self, order: NewOrder) -> nat {
        match order.time_in_force {
            TimeInForce::Gtc | TimeInForce::PostOnly => self.order_left(order),
            _ => 0,
        }
    }

    /// What of an accepted order is discarded.
    pub open spec fn order_discards(self, order: NewOrder) -> nat {
        match order.time_in_force {
            TimeInForce::Ioc => self.order_left(order),
            _ => 0,
        }
    }

    pub open spec fn summary(self, order: NewOrder) -> MatchSummary {
        let filled = (order.quantity.0 - self.order_left(order)) as u64;
        MatchSummary {
            state: if filled == order.quantity.0 {
                OrderState::Filled
            } else if filled == 0 {
                OrderState::Accepted
            } else {
                OrderState::PartiallyFilled
            },
            filled_quantity: Quantity(filled),
            resting_quantity: Quantity(self.order_rests(order) as u64),
            discarded_quantity: Quantity(self.order_discards(order) as u64),
            report_count: self.order_fills(order).len() as usize,
        }
    }

    /// The book after an accepted order: makers traded away, and the rest of
    /// the order behind its peers at its own price.
    pub open spec fn submitted(self, order: NewOrder) -> BookView {
        let makers = order.side.opposing();
        let traded = self.with_side(
            makers,
            swept(self.side(makers), order.side, order.price, order.quantity.0 as nat),
        );
        if self.order_rests(order) == 0 {
            traded
        } else {
            traded.with_side(
                order.side,
                rested(
                    self.side(order.side),
                    order.side,
                    order.price,
                    OrderView {
                        id: order.order_id,
                        account_id: order.account_id,
                        quantity: Quantity(self.order_rests(order) as u64),
                        sequence: order.sequence,
                    },
                ),
            )
        }
    }

    /// Why a cancel is refused, if it is.
    pub open spec fn cancel_refusal(self, cancel: CancelOrder) -> Option<RejectReason> {
        if cancel.instrument_id != self.instrument {
            Some(RejectReason::InvalidInstrument)
        } else if !self.contains(cancel.order_id) {
            Some(RejectReason::UnknownOrder)
        } else if self.order(cancel.order_id).account_id != cancel.account_id {
            Some(RejectReason::NotOrderOwner)
        } else {
            None
        }
    }

    /// What an accepted cancel answers.
    pub open spec fn cancel_answer(self, cancel: CancelOrder) -> CancelledOrder {
        let order = self.order(cancel.order_id);
        CancelledOrder {
            order_id: cancel.order_id,
            account_id: order.account_id,
            quantity: order.quantity,
        }
    }

    /// The replacement keeps its place: same price, smaller quantity.
    pub open spec fn keeps_priority(self, replace: ReplaceOrder) -> bool {
        replace.price == self.price_of(replace.order_id) && replace.quantity.0 < self.order(
            replace.order_id,
        ).quantity.0
    }

    /// Why a replacement is refused, if it is: the first check that fails.
    pub open spec fn replace_refusal(
        self,
        replace: ReplaceOrder,
        max_levels: nat,
        max_orders: nat,
    ) -> Option<RejectReason> {
        let (side, i, k) = self.place(replace.order_id);
        let old_price = self.side(side)[i].price;
        let opposing = self.side(side.opposing());
        if replace.instrument_id != self.instrument {
            Some(RejectReason::InvalidInstrument)
        } else if !self.contains(replace.order_id) {
            Some(RejectReason::UnknownOrder)
        } else if self.order(replace.order_id).account_id != replace.account_id {
            Some(RejectReason::NotOrderOwner)
        } else if replace.price.0 <= 0 {
            Some(RejectReason::InvalidPrice)
        } else if replace.quantity.0 == 0 {
            Some(RejectReason::InvalidQuantity)
        } else if replace.price == old_price {
            None
        } else if opposing.len() > 0 && crosses(side, replace.price, opposing[0].price) {
            Some(RejectReason::ReplaceWouldCross)
        } else if self.side(side)[i].orders.len() == 1 && !has_level(
            self.side(side),
            replace.price,
        ) {
            // The emptied source level makes room for the new one.
            None
        } else {
            self.no_room(side, replace.price, max_levels, max_orders)
        }
    }

    /// What an accepted replacement answers.
    pub open spec fn replace_answer(self, replace: ReplaceOrder) -> ReplacedOrder {
        ReplacedOrder {
            order_id: replace.order_id,
            account_id: replace.account_id,
            old_quantity: self.order(replace.order_id).quantity,
            new_quantity: replace.quantity,
            price: replace.price,
            priority_lost: !self.keeps_priority(replace),
        }
    }

    /// The book after an accepted replacement.
    pub open spec fn replaced(self, replace: ReplaceOrder) -> BookView {
        let (side, i, k) = self.place(replace.order_id);
        if self.keeps_priority(replace) {
            self.with_side(
                side,
                reduced_at(
                    self.side(side),
                    i,
                    k,
                    self.order(replace.order_id).quantity.0 - replace.quantity.0,
                ),
            )
        } else {
            let gone = self.without(replace.order_id);
            gone.with_side(
                side,
                rested(
                    gone.side(side),
                    side,
                    replace.price,
                    OrderView {
                        id: replace.order_id,
                        account_id: replace.account_id,
                        quantity: replace.quantity,
                        sequence: replace.sequence,
                    },
                ),
            )
        }
    }
}

/// The report of one fill of `order`.
pub open spec fn report_of(order: NewOrder, fill: FillView) -> ExecutionReport {
    ExecutionReport {
        maker_order_id: fill.maker,
        taker_order_id: order.order_id,
        instrument_id: order.instrument_id,
        price: fill.price,
        quantity: Quantity(fill.quantity as u64),
        sequence: order.sequence,
    }
}

/// The reports of all fills of `order`, in trade order.
pub open spec fn reports_of(order: NewOrder, trades: Seq<FillView>) -> Seq<ExecutionReport> {
    Seq::new(trades.len(), |i: int| report_of(order, trades[i]))
}

/// A split of `levels` into better and other prices lies at the rank.
pub proof fn lemma_rank(levels: Seq<LevelView>, side: Side, price: PriceTicks, r: int)
    requires
        0 <= r <= levels.len(),
        forall|i: int| 0 <= i < r ==> better(side, (#[trigger] levels[i]).price, price),
        forall|i: int|
            r <= i < levels.len() ==> !better(side, (#[trigger] levels[i]).price, price),
    ensures
        rank(levels, side, price) == r,
    decreases levels.len(),
{
    if levels.len() > 0 {
        let init = levels.drop_last();
        if r == levels.len() {
            lemma_rank(init, side, price, r - 1);
        } else {
            lemma_rank(init, side, price, r);
        }
    }
}

/// The sum of the quantities of `orders`.
pub open spec fn total(orders: Seq<OrderView>) -> nat
    decreases orders.len(),
{
    if orders.len() == 0 {
        0
    } else {
        total(orders.drop_last()) + orders.last().quantity.0 as nat
    }
}

pub proof fn lemma_total_push(orders: Seq<OrderView>, order: OrderView)
    ensures
        total(orders.push(order)) == total(orders) + order.quantity.0,
{
    assert(orders.push(order).drop_last() =~= orders);
}

pub proof fn lemma_total_remove(orders: Seq<OrderView>, k: int)
    requires
        0 <= k < orders.len(),
    ensures
        total(orders.remove(k)) == total(orders) - orders[k].quantity.0,
    decreases orders.len(),
{
    if k == orders.len() - 1 {
        assert(orders.remove(k) =~= orders.drop_last());
    } else {
        assert(orders.remove(k).drop_last() =~= orders.drop_last().remove(k));
        assert(orders.remove(k).last() == orders.last());
        lemma_total_remove(orders.drop_last(), k);
    }
}

pub proof fn lemma_total_update(orders: Seq<OrderView>, k: int, order: OrderView)
    requires
        0 <= k < orders.len(),
    ensures
        total(orders.update(k, order)) == total(orders) - orders[k].quantity.0 + order.quantity.0,
    decreases orders.len(),
{
    if k == orders.len() - 1 {
        assert(orders.update(k, order).drop_last() =~= orders.drop_last());
    } else {
        assert(orders.update(k, order).drop_last() =~= orders.drop_last().update(k, order));
        assert(orders.update(k, order).last() == orders.last());
        lemma_total_update(orders.drop_last(), k, order);
    }
}

pub proof fn lemma_total_bound(orders: Seq<OrderView>)
    ensures
        total(orders) <= orders.len() * u64::MAX,
    decreases orders.len(),
{
    if orders.len() > 0 {
        lemma_total_bound(orders.drop_last());
        assert(orders.len() * u64::MAX == (orders.len() - 1) * u64::MAX + u64::MAX)
            by (nonlinear_arith);
    }
}

/// Each order's quantity is part of the total.
pub proof fn lemma_total_member(orders: Seq<OrderView>, k: int)
    requires
        0 <= k < orders.len(),
    ensures
        orders[k].quantity.0 <= total(orders),
{
    lemma_total_remove(orders, k);
}

/// Taking an order out keeps the side in order, and its best price does not
/// improve.
pub proof fn lemma_removed_ordered(levels: Seq<LevelView>, side: Side, i: int, k: int)
    requires
        ordered(levels, side),
        0 <= i < levels.len(),
        0 <= k < levels[i].orders.len(),
    ensures
        ordered(removed_at(levels, i, k), side),
        removed_at(levels, i, k).len() > 0 ==> !better(
            side,
            removed_at(levels, i, k)[0].price,
            levels[0].price,
        ),
{
    let left = removed_at(levels, i, k);
    if levels[i].orders.len() == 1 {
        assert(forall|j: int|
            0 <= j < left.len() ==> #[trigger] left[j] == levels[if j < i {
                j
            } else {
                j + 1
            }]);
        if left.len() > 0 && i == 0 {
            assert(better(side, levels[0].price, levels[1].price));
        }
    } else {
        assert forall|j: int| 0 <= j < left.len() implies {
            &&& (#[trigger] left[j]).orders.len() > 0
            &&& left[j].price == levels[j].price
            &&& positive(left[j].orders)
        } by {
            if j == i {
                let orders = levels[i].orders;
                assert forall|m: int| 0 <= m < left[i].orders.len() implies (
                #[trigger] left[i].orders[m]).quantity.0 > 0 by {
                    assert(left[i].orders[m] == orders[if m < k {
                        m
                    } else {
                        m + 1
                    }]);
                }
            }
        }
    }
}

/// Reducing an order to a positive quantity keeps the side in order.
pub proof fn lemma_reduced_ordered(
    levels: Seq<LevelView>,
    side: Side,
    i: int,
    k: int,
    quantity: int,
)
    requires
        ordered(levels, side),
        0 <= i < levels.len(),
        0 <= k < levels[i].orders.len(),
        0 <= quantity < levels[i].orders[k].quantity.0,
    ensures
        ordered(reduced_at(levels, i, k, quantity), side),
        reduced_at(levels, i, k, quantity).len() == levels.len(),
        forall|j: int|
            0 <= j < levels.len() ==> (#[trigger] reduced_at(levels, i, k, quantity)[j]).price
                == levels[j].price,
{
    let left = reduced_at(levels, i, k, quantity);
    assert forall|j: int| 0 <= j < left.len() implies {
        &&& (#[trigger] left[j]).orders.len() > 0
        &&& left[j].price == levels[j].price
        &&& positive(left[j].orders)
    } by {
        if j == i {
            assert forall|m: int| 0 <= m < left[i].orders.len() implies (
            #[trigger] left[i].orders[m]).quantity.0 > 0 by {
                if m != k {
                    assert(left[i].orders[m] == levels[i].orders[m]);
                }
            }
        }
    }
}

/// In an ordered side the rank of a price splits the levels, and the level at
/// that price, if any, lies at the rank.
pub proof fn lemma_rank_splits(levels: Seq<LevelView>, side: Side, price: PriceTicks)
    requires
        forall|i: int, j: int|
            0 <= i < j < levels.len() ==> better(
                side,
                (#[trigger] levels[i]).price,
                (#[trigger] levels[j]).price,
            ),
    ensures
        0 <= rank(levels, side, price) <= levels.len(),
        forall|i: int|
            0 <= i < rank(levels, side, price) ==> better(
                side,
                (#[trigger] levels[i]).price,
                price,
            ),
        forall|i: int|
            rank(levels, side, price) <= i < levels.len() ==> !better(
                side,
                (#[trigger] levels[i]).price,
                price,
            ),
        forall|i: int|
            0 <= i < levels.len() && (#[trigger] levels[i]).price == price ==> i == rank(
                levels,
                side,
                price,
            ),
        has_level(levels, price) ==> rank(levels, side, price) < levels.len() && levels[rank(
            levels,
            side,
            price,
        )].price == price,
    decreases levels.len(),
{
    if levels.len() > 0 {
        let init = levels.drop_last();
        lemma_rank_splits(init, side, price);
        let r = rank(init, side, price);
        if better(side, levels.last().price, price) {
            assert forall|i: int| 0 <= i < init.len() implies better(
                side,
                (#[trigger] init[i]).price,
                price,
            ) by {
                assert(better(side, levels[i].price, levels[levels.len() - 1].price));
            }
            if r < init.len() {
                assert(better(side, init[r].price, price));
            }
        }
        assert forall|i: int| 0 <= i < rank(levels, side, price) implies better(
            side,
            (#[trigger] levels[i]).price,
            price,
        ) by {
            if i < init.len() {
                assert(levels[i] == init[i]);
            }
        }
        assert forall|i: int| rank(levels, side, price) <= i < levels.len() implies !better(
            side,
            (#[trigger] levels[i]).price,
            price,
        ) by {
            if i < init.len() {
                assert(levels[i] == init[i]);
            }
        }
        assert forall|i: int| 0 <= i < levels.len() && (#[trigger] levels[i]).price == price implies i
            == rank(levels, side, price) by {
            let n = rank(levels, side, price);
            if n < i {
                assert(better(side, levels[n].price, levels[i].price));
            }
        }
    }
}

/// Resting an order with a positive price and quantity keeps the side in
/// order, and its best price is the old best or the order's own.
pub proof fn lemma_rested_ordered(
    levels: Seq<LevelView>,
    side: Side,
    price: PriceTicks,
    order: OrderView,
)
    requires
        ordered(levels, side),
        price.0 > 0,
        order.quantity.0 > 0,
    ensures
        ordered(rested(levels, side, price, order), side),
        rested(levels, side, price, order).len() > 0,
        rested(levels, side, price, order)[0].price == price || (levels.len() > 0 && rested(
            levels,
            side,
            price,
            order,
        )[0].price == levels[0].price),
{
    lemma_rank_splits(levels, side, price);
    let r = rank(levels, side, price);
    let next = rested(levels, side, price, order);
    if has_level(levels, price) {
        assert forall|j: int| 0 <= j < next.len() implies {
            &&& (#[trigger] next[j]).orders.len() > 0
            &&& next[j].price == levels[j].price
            &&& positive(next[j].orders)
        } by {
            if j == r {
                assert forall|m: int| 0 <= m < next[r].orders.len() implies (
                #[trigger] next[r].orders[m]).quantity.0 > 0 by {
                    if m < levels[r].orders.len() {
                        assert(next[r].orders[m] == levels[r].orders[m]);
                    }
                }
            }
        }
    } else {
        assert(forall|j: int|
            0 <= j < next.len() && j != r ==> #[trigger] next[j] == levels[if j < r {
                j
            } else {
                j - 1
            }]);
        assert(next[r].orders.len() == 1 && positive(next[r].orders));
        assert forall|i: int, j: int| 0 <= i < j < next.len() implies better(
            side,
            (#[trigger] next[i]).price,
            (#[trigger] next[j]).price,
        ) by {
            if i == r {
                assert(!better(side, levels[j - 1].price, price));
                assert(levels[j - 1].price != price);
            }
        }
    }
}

/// What taking an order out does to the level at some price.
pub proof fn lemma_removed_level(
    levels: Seq<LevelView>,
    side: Side,
    i: int,
    k: int,
    price: PriceTicks,
)
    requires
        ordered(levels, side),
        0 <= i < levels.len(),
        0 <= k < levels[i].orders.len(),
    ensures
        ({
            let left = removed_at(levels, i, k);
            let r = rank(left, side, price);
            &&& has_level(left, price) ==> {
                &&& 0 <= r < left.len()
                &&& has_level(levels, price)
                &&& price != levels[i].price ==> left[r] == levels[rank(levels, side, price)]
                &&& price == levels[i].price ==> left[r].orders.len() < levels[i].orders.len()
            }
            &&& has_level(levels, price) && !has_level(left, price) ==> price == levels[i].price
                && left.len() < levels.len()
            &&& left.len() <= levels.len()
            &&& levels[i].orders.len() == 1 ==> left.len() < levels.len()
        }),
{
    let left = removed_at(levels, i, k);
    lemma_removed_ordered(levels, side, i, k);
    lemma_rank_splits(levels, side, price);
    lemma_rank_splits(left, side, price);
    if levels[i].orders.len() == 1 {
        assert(forall|j: int|
            0 <= j < left.len() ==> #[trigger] left[j] == levels[if j < i {
                j
            } else {
                j + 1
            }]);
        if has_level(levels, price) && price != levels[i].price {
            let r = rank(levels, side, price);
            let o = if r < i {
                r
            } else {
                r - 1
            };
            assert(left[o].price == price);
        }
        if has_level(left, price) {
            let r = rank(left, side, price);
            let o = if r < i {
                r
            } else {
                r + 1
            };
            assert(levels[o].price == price);
            assert(levels[o] == left[r]);
            if o < i {
                assert(better(side, levels[o].price, levels[i].price));
            } else {
                assert(better(side, levels[i].price, levels[o].price));
            }
        }
    } else {
        assert(forall|j: int| 0 <= j < left.len() ==> (#[trigger] left[j]).price == levels[j].price);
        if has_level(levels, price) {
            assert(left[rank(levels, side, price)].price == price);
        }
        if has_level(left, price) {
            assert(levels[rank(left, side, price)].price == price);
        }
    }
}

/// In an uncrossed book every bid is below every ask.
pub proof fn lemma_uncrossed(view: BookView, i: int, j: int)
    requires
        ordered(view.bids, Side::Buy),
        ordered(view.asks, Side::Sell),
        view.uncrossed(),
        0 <= i < view.bids.len(),
        0 <= j < view.asks.len(),
    ensures
        view.bids[i].price.0 < view.asks[j].price.0,
{
    if i > 0 {
        assert(better(Side::Buy, view.bids[0].price, view.bids[i].price));
    }
    if j > 0 {
        assert(better(Side::Sell, view.asks[0].price, view.asks[j].price));
    }
}

/// One trade with the front of an ordered side keeps it in order and does not
/// improve its best price.
pub proof fn lemma_front_left(levels: Seq<LevelView>, side: Side, quantity: nat)
    requires
        ordered(levels, side),
        levels.len() > 0,
        0 < quantity <= levels[0].orders[0].quantity.0,
    ensures
        ordered(front_left(levels, quantity), side),
        front_left(levels, quantity).len() > 0 ==> !better(
            side,
            front_left(levels, quantity)[0].price,
            levels[0].price,
        ),
{
    if quantity == levels[0].orders[0].quantity.0 {
        lemma_removed_ordered(levels, side, 0, 0);
    } else {
        lemma_reduced_ordered(levels, side, 0, 0, quantity as int);
    }
}

/// A sweep keeps the maker side in order, does not improve its best price,
/// and leaves the taker something only where nothing more crosses.
pub proof fn lemma_swept(levels: Seq<LevelView>, taker: Side, limit: PriceTicks, quantity: nat)
    requires
        ordered(levels, taker.opposing()),
    ensures
        ordered(swept(levels, taker, limit, quantity), taker.opposing()),
        unfilled(levels, taker, limit, quantity) <= quantity,
        swept(levels, taker, limit, quantity).len() > 0 ==> levels.len() > 0 && !better(
            taker.opposing(),
            swept(levels, taker, limit, quantity)[0].price,
            levels[0].price,
        ),
        unfilled(levels, taker, limit, quantity) > 0 && swept(
            levels,
            taker,
            limit,
            quantity,
        ).len() > 0 ==> !crosses(taker, limit, swept(levels, taker, limit, quantity)[0].price),
    decreases quantity,
{
    if quantity == 0 {
    } else if !tradable(levels, taker, limit) {
        if levels.len() > 0 {
            assert(levels[0].orders.len() > 0 && positive(levels[0].orders));
            assert(levels[0].orders[0].quantity.0 > 0);
        }
    } else {
        let traded = front_trade(levels, quantity);
        lemma_front_left(levels, taker.opposing(), traded);
        lemma_swept(front_left(levels, traded), taker, limit, (quantity - traded) as nat);
    }
}

/// The levels that remain once the first `p` levels and the first `k` orders
/// of the next one are gone.
pub open spec fn suffix(levels: Seq<LevelView>, p: int, k: int) -> Seq<LevelView> {
    if p >= levels.len() {
        Seq::empty()
    } else if k < levels[p].orders.len() {
        seq![LevelView { price: levels[p].price, orders: levels[p].orders.skip(k) }]
            + levels.skip(p + 1)
    } else {
        levels.skip(p + 1)
    }
}

pub proof fn lemma_suffix_whole(levels: Seq<LevelView>, p: int)
    requires
        0 <= p <= levels.len(),
        p < levels.len() ==> levels[p].orders.len() > 0,
    ensures
        suffix(levels, p, 0) == levels.skip(p),
{
    if p < levels.len() {
        assert(levels[p].orders.skip(0) =~= levels[p].orders);
        let first = LevelView { price: levels[p].price, orders: levels[p].orders.skip(0) };
        assert(first == levels[p]);
        assert(seq![first] + levels.skip(p + 1) =~= levels.skip(p));
    } else {
        assert(levels.skip(p) =~= Seq::empty());
    }
}

/// Taking the front order out of a suffix moves the suffix by one order.
pub proof fn lemma_suffix_step(levels: Seq<LevelView>, p: int, k: int)
    requires
        0 <= p < levels.len(),
        0 <= k < levels[p].orders.len(),
    ensures
        suffix(levels, p, k).len() > 0,
        suffix(levels, p, k)[0].price == levels[p].price,
        suffix(levels, p, k)[0].orders.len() > 0,
        suffix(levels, p, k)[0].orders[0] == levels[p].orders[k],
        removed_at(suffix(levels, p, k), 0, 0) == suffix(levels, p, k + 1),
{
    let orders = levels[p].orders;
    let now = suffix(levels, p, k);
    let first = LevelView { price: levels[p].price, orders: orders.skip(k) };
    let rest = levels.skip(p + 1);
    assert(now == seq![first] + rest);
    assert(now[0] == first);
    assert(first.orders[0] == orders[k]);
    if k + 1 < orders.len() {
        let second = LevelView { price: levels[p].price, orders: orders.skip(k + 1) };
        assert(orders.skip(k).remove(0) =~= orders.skip(k + 1));
        assert(removed_at(now, 0, 0) == now.update(0, second));
        assert(now.update(0, second) =~= seq![second] + rest);
    } else {
        assert(now.remove(0) =~= rest);
    }
}

/// How many orders rest on `levels`.
pub open spec fn order_total(levels: Seq<LevelView>) -> nat
    decreases levels.len(),
{
    if levels.len() == 0 {
        0
    } else {
        order_total(levels.drop_last()) + levels.last().orders.len()
    }
}

pub open spec fn digest_order(digest: u64, order: OrderView) -> u64 {
    mixed(
        mixed(
            mixed(mixed(digest, order.id.0), order.account_id.0 as u64),
            order.quantity.0,
        ),
        order.sequence.0,
    )
}

pub open spec fn digest_orders(digest: u64, orders: Seq<OrderView>) -> u64
    decreases orders.len(),
{
    if orders.len() == 0 {
        digest
    } else {
        digest_order(digest_orders(digest, orders.drop_last()), orders.last())
    }
}

pub open spec fn digest_levels(digest: u64, levels: Seq<LevelView>) -> u64
    decreases levels.len(),
{
    if levels.len() == 0 {
        digest
    } else {
        digest_orders(
            mixed(digest_levels(digest, levels.drop_last()), levels.last().price.0 as u64),
            levels.last().orders,
        )
    }
}

/// The number that stands for a side in digests.
pub open spec fn side_number(side: Side) -> u64 {
    match side {
        Side::Buy => 0,
        Side::Sell => 1,
    }
}

impl BookView {
    /// The digest of the book: instrument, then each side's number and levels,
    /// best first, each level's price and orders, oldest first.
    pub open spec fn digest(self) -> u64 {
        let start = mixed(DIGEST_SEED, self.instrument.0 as u64);
        let bids = digest_levels(mixed(start, side_number(Side::Buy)), self.bids);
        digest_levels(mixed(bids, side_number(Side::Sell)), self.asks)
    }
}

} // verus!
