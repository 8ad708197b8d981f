//! Submitting new orders: a plan is built against the unchanged book, then
//! applied without a way to fail.

use vstd::prelude::*;

use crate::book::laws::queue;
use crate::book::level::{RestingOrder, NIL};
use crate::book::model::{
    crosses, fills, front_left, front_trade, lemma_front_left, lemma_rested_ordered,
    lemma_suffix_step, lemma_suffix_whole, lemma_swept, ordered, positive, reports_of, suffix,
    swept, tradable, unfilled, BookView, FillView, OrderView,
};
use crate::book::order_book::OrderBook;
use crate::book::order_index::OrderLocation;
use crate::book::queue_laws::{
    law_reports_follow_the_queue, law_summary_adds_up, other_levels, reported_total,
};
use crate::types::{
    ExecutionReport, MatchSummary, NewOrder, OrderId, OrderState, PriceTicks, Quantity,
    RejectReason, ReportBuffer, Side, TimeInForce,
};

verus! {

/// One fill of a plan: where the maker rests and what it trades.
#[derive(Clone, Copy, Debug, PartialEq, Eq, Structural)]
pub struct FillEntry {
    pub level_index: usize,
    pub slot: usize,
    pub order_id: OrderId,
    pub price: PriceTicks,
    pub quantity: Quantity,
}

impl FillEntry {
    pub open spec fn logical(self) -> FillView {
        FillView { maker: self.order_id, price: self.price, quantity: self.quantity.0 as nat }
    }

    pub open spec fn location(self, side: Side) -> OrderLocation {
        OrderLocation { side, level_index: self.level_index, slot: self.slot }
    }
}

/// The fills of one order, at most as many as reports fit.
#[derive(Debug)]
pub struct MatchPlan<const FILLS: usize> {
    pub fills: Vec<FillEntry>,
    pub capacity: usize,
    pub maker_side: Side,
    pub resting_quantity: Quantity,
    /// IOC remainder that crossed nothing and is discarded, never filled.
    pub discarded: u64,
}

impl<const FILLS: usize> MatchPlan<FILLS> {
    pub open spec fn logical(&self) -> Seq<FillView> {
        Seq::new(self.fills@.len(), |j: int| self.fills@[j].logical())
    }

    pub fn new(maker_side: Side, report_capacity: usize) -> (plan: Self)
        ensures
            plan.fills@.len() == 0,
            plan.capacity == if report_capacity < FILLS {
                report_capacity
            } else {
                FILLS
            },
            plan.maker_side == maker_side,
    {
        MatchPlan {
            fills: Vec::new(),
            capacity: if report_capacity < FILLS {
                report_capacity
            } else {
                FILLS
            },
            maker_side,
            resting_quantity: Quantity(0),
            discarded: 0,
        }
    }

    pub fn push_fill(&mut self, fill: FillEntry) -> (outcome: Result<(), RejectReason>)
        ensures
            final(self).capacity == old(self).capacity,
            final(self).maker_side == old(self).maker_side,
            match outcome {
                Ok(()) => old(self).fills@.len() < old(self).capacity && final(self).fills@ == old(
                    self).fills@.push(fill),
                Err(reason) => {
                    &&& reason == RejectReason::ReportCapacity
                    &&& old(self).fills@.len() >= old(self).capacity
                    &&& final(self).fills@ == old(self).fills@
                },
            },
    {
        if self.fills.len() >= self.capacity {
            return Err(RejectReason::ReportCapacity);
        }
        self.fills.push(fill);
        Ok(())
    }
}

impl<const LEVELS: usize, const ORDERS_PER_LEVEL: usize> OrderBook<LEVELS, ORDERS_PER_LEVEL> {
    /// The makers of `entries` rest where the entries say, each at a place of
    /// its own.
    pub(crate) closed spec fn makers_rest(&self, entries: Seq<FillEntry>, side: Side) -> bool {
        &&& forall|j: int|
            0 <= j < entries.len() ==> {
                &&& self.live((#[trigger] entries[j]).location(side))
                &&& self.order_at(entries[j].location(side)).id == entries[j].order_id
            }
        &&& forall|i: int, j: int|
            0 <= i < j < entries.len() ==> (#[trigger] entries[i]).location(side) != (
            #[trigger] entries[j]).location(side)
    }

    /// Every entry is placed before position `k` of level `p`.
    spec fn placed_before(&self, entries: Seq<FillEntry>, side: Side, p: int, k: int) -> bool {
        forall|j: int|
            0 <= j < entries.len() ==> self.comes_before(#[trigger] entries[j], side, p, k)
    }

    spec fn comes_before(&self, entry: FillEntry, side: Side, p: int, k: int) -> bool {
        exists|i: int, m: int|
            {
                &&& #[trigger] self.book_side(side).placed(
                    entry.level_index as int,
                    entry.slot as int,
                    i,
                    m,
                )
                &&& (i < p || (i == p && m < k))
            }
    }

    /// Walks the crossing levels once, best price and oldest order first.
    fn walk<const REPORTS: usize>(
        &self,
        order: NewOrder,
        plan: &mut MatchPlan<REPORTS>,
    ) -> (walked: Result<u64, RejectReason>)
        requires
            self.wf(),
            old(plan).fills@.len() == 0,
            old(plan).maker_side == order.side.opposing(),
        ensures
            final(plan).capacity == old(plan).capacity,
            final(plan).maker_side == old(plan).maker_side,
            match walked {
                Ok(left) => {
                    &&& left == self@.order_left(order)
                    &&& final(plan).logical() == self@.order_fills(order)
                    &&& final(plan).fills@.len() <= old(plan).capacity
                    &&& self.makers_rest(final(plan).fills@, order.side.opposing())
                },
                Err(reason) => {
                    &&& reason == RejectReason::ReportCapacity
                    &&& self@.order_fills(order).len() > old(plan).capacity
                },
            },
    {
        let maker_side = order.side.opposite();
        let book = self.side_ref(maker_side);
        let ghost levels = book.view_levels();
        let ghost wanted = order.quantity.0 as nat;
        let ghost all = fills(levels, order.side, order.price, wanted);
        let count: usize = book.level_count();
        let mut remaining: u64 = order.quantity.0;
        let mut p: usize = 0;
        proof {
            book.lemma_view();
            assert(levels == self@.side(maker_side));
            assert(ordered(levels, maker_side));
            lemma_suffix_whole(levels, 0);
            assert(levels.skip(0) =~= levels);
            assert(all =~= plan.logical() + fills(
                suffix(levels, 0, 0),
                order.side,
                order.price,
                remaining as nat,
            ));
        }
        while p < count
            invariant
                self.wf(),
                *book == self.book_side(maker_side),
                book.wf(),
                maker_side == order.side.opposing(),
                levels == book.view_levels(),
                levels == self@.side(maker_side),
                ordered(levels, maker_side),
                count == levels.len(),
                p <= count,
                wanted == order.quantity.0,
                plan.capacity == old(plan).capacity,
                plan.maker_side == old(plan).maker_side,
                plan.fills@.len() <= plan.capacity,
                fills(levels, order.side, order.price, wanted) == plan.logical() + fills(
                    suffix(levels, p as int, 0),
                    order.side,
                    order.price,
                    remaining as nat,
                ),
                unfilled(levels, order.side, order.price, wanted) == unfilled(
                    suffix(levels, p as int, 0),
                    order.side,
                    order.price,
                    remaining as nat,
                ),
                self.makers_rest(plan.fills@, maker_side),
                self.placed_before(plan.fills@, maker_side, p as int, 0),
            ensures
                fills(levels, order.side, order.price, wanted) == plan.logical(),
                unfilled(levels, order.side, order.price, wanted) == remaining,
                plan.capacity == old(plan).capacity,
                plan.maker_side == old(plan).maker_side,
                plan.fills@.len() <= plan.capacity,
                self.makers_rest(plan.fills@, maker_side),
            decreases count - p,
        {
            if remaining == 0 {
                assert(plan.logical() + Seq::<FillView>::empty() =~= plan.logical());
                break ;
            }
            let (price, level_index) = book.entry(p);
            let crossing = match order.side {
                Side::Buy => price.0 <= order.price.0,
                Side::Sell => price.0 >= order.price.0,
            };
            // Levels are visited best to worst, so the first non-crossing
            // level ends the walk.
            if !crossing {
                proof {
                    lemma_suffix_whole(levels, p as int);
                    assert(!tradable(suffix(levels, p as int, 0), order.side, order.price));
                }
                assert(plan.logical() + Seq::<FillView>::empty() =~= plan.logical());
                break ;
            }
            let level = book.level(level_index);
            let mut cursor: usize = level.head();
            let ghost mut k: int = 0;
            proof {
                level.lemma_chain();
            }
            while cursor != NIL && remaining > 0
                invariant
                    self.wf(),
                    *book == self.book_side(maker_side),
                    book.wf(),
                    maker_side == order.side.opposing(),
                    levels == book.view_levels(),
                    levels == self@.side(maker_side),
                    ordered(levels, maker_side),
                    count == levels.len(),
                    p < count,
                    wanted == order.quantity.0,
                    book.entries()[p as int] == (price, level_index),
                    *level == book.level_at(level_index as int),
                    level.wf(),
                    level.chain().len() == levels[p as int].orders.len(),
                    levels[p as int].price == price,
                    crosses(order.side, order.price, price),
                    0 <= k <= level.chain().len(),
                    cursor == (if k < level.chain().len() {
                        level.chain()[k]
                    } else {
                        NIL
                    }),
                    plan.capacity == old(plan).capacity,
                    plan.maker_side == old(plan).maker_side,
                    plan.fills@.len() <= plan.capacity,
                    fills(levels, order.side, order.price, wanted) == plan.logical() + fills(
                        suffix(levels, p as int, k),
                        order.side,
                        order.price,
                        remaining as nat,
                    ),
                    unfilled(levels, order.side, order.price, wanted) == unfilled(
                        suffix(levels, p as int, k),
                        order.side,
                        order.price,
                        remaining as nat,
                    ),
                    self.makers_rest(plan.fills@, maker_side),
                    self.placed_before(plan.fills@, maker_side, p as int, k),
                decreases level.chain().len() - k,
            {
                proof {
                    level.lemma_chain();
                    book.lemma_view_live(p as int, k);
                    assert(positive(levels[p as int].orders));
                }
                let maker = match level.get_live(cursor) {
                    Some(maker) => maker,
                    None => {
                        assert(false);
                        vstd::pervasive::unreached()
                    },
                };
                let ghost front = levels[p as int].orders[k];
                assert(maker.logical() == front);
                let traded: u64 = if remaining < maker.quantity.0 {
                    remaining
                } else {
                    maker.quantity.0
                };
                let fill = FillEntry {
                    level_index,
                    slot: cursor,
                    order_id: maker.id,
                    price,
                    quantity: Quantity(traded),
                };
                let ghost now = suffix(levels, p as int, k);
                let ghost earlier = plan.logical();
                proof {
                    lemma_suffix_step(levels, p as int, k);
                    assert(tradable(now, order.side, order.price));
                    assert(front_trade(now, remaining as nat) == traded);
                    let rest = fills(
                        front_left(now, traded as nat),
                        order.side,
                        order.price,
                        (remaining - traded) as nat,
                    );
                    assert(fills(now, order.side, order.price, remaining as nat) == seq![
                        fill.logical(),
                    ] + rest);
                    assert(rest == fills(
                        suffix(levels, p as int, k + 1),
                        order.side,
                        order.price,
                        (remaining - traded) as nat,
                    ));
                    assert(unfilled(
                        front_left(now, traded as nat),
                        order.side,
                        order.price,
                        (remaining - traded) as nat,
                    ) == unfilled(
                        suffix(levels, p as int, k + 1),
                        order.side,
                        order.price,
                        (remaining - traded) as nat,
                    ));
                    self.lemma_new_maker(plan.fills@, fill, maker_side, p as int, k);
                }
                match plan.push_fill(fill) {
                    Ok(()) => {},
                    Err(reason) => {
                        return Err(reason);
                    },
                }
                proof {
                    let rest = fills(
                        suffix(levels, p as int, k + 1),
                        order.side,
                        order.price,
                        (remaining - traded) as nat,
                    );
                    assert(plan.logical() =~= earlier.push(fill.logical()));
                    assert(earlier + (seq![fill.logical()] + rest) =~= plan.logical() + rest);
                }
                remaining = remaining - traded;
                cursor = level.next(cursor);
                proof {
                    k = k + 1;
                }
            }
            proof {
                self.lemma_level_done(plan.fills@, maker_side, p as int, k);
                if cursor == NIL {
                    lemma_suffix_whole(levels, p + 1);
                    assert(suffix(levels, p as int, k) =~= levels.skip(p + 1));
                } else {
                    assert(remaining == 0);
                }
            }
            p = p + 1;
        }
        proof {
            assert(plan.logical() =~= self@.order_fills(order));
        }
        Ok(remaining)
    }

    /// A fill at position `k` of level `p` names a place that no earlier entry
    /// names.
    proof fn lemma_new_maker(
        &self,
        entries: Seq<FillEntry>,
        fill: FillEntry,
        side: Side,
        p: int,
        k: int,
    )
        requires
            self.wf(),
            self.makers_rest(entries, side),
            self.placed_before(entries, side, p, k),
            self.book_side(side).placed(fill.level_index as int, fill.slot as int, p, k),
            self.live(fill.location(side)),
            self.order_at(fill.location(side)).id == fill.order_id,
        ensures
            self.makers_rest(entries.push(fill), side),
            self.placed_before(entries.push(fill), side, p, k + 1),
    {
        let next = entries.push(fill);
        let book = self.book_side(side);
        assert forall|j: int| 0 <= j < entries.len() implies (#[trigger] entries[j]).location(side)
            != fill.location(side) by {
            assert(self.comes_before(entries[j], side, p, k));
            let (i, m) = choose|i: int, m: int|
                {
                    &&& #[trigger] book.placed(
                        entries[j].level_index as int,
                        entries[j].slot as int,
                        i,
                        m,
                    )
                    &&& (i < p || (i == p && m < k))
                };
            if entries[j].location(side) == fill.location(side) {
                book.lemma_placed_unique(
                    fill.level_index as int,
                    fill.slot as int,
                    p,
                    k,
                    i,
                    m,
                );
            }
        }
        assert forall|j: int| 0 <= j < next.len() implies self.comes_before(
            #[trigger] next[j],
            side,
            p,
            k + 1,
        ) by {
            if j < entries.len() {
                assert(self.comes_before(entries[j], side, p, k));
            }
        }
        assert forall|j: int| 0 <= j < next.len() implies {
            &&& self.live((#[trigger] next[j]).location(side))
            &&& self.order_at(next[j].location(side)).id == next[j].order_id
        } by {
            if j < entries.len() {
                assert(next[j] == entries[j]);
            }
        }
        assert forall|i: int, j: int| 0 <= i < j < next.len() implies (#[trigger] next[i]).location(
            side,
        ) != (#[trigger] next[j]).location(side) by {
            assert(next[i] == entries[i]);
            if j < entries.len() {
                assert(next[j] == entries[j]);
            }
        }
    }

    proof fn lemma_level_done(&self, entries: Seq<FillEntry>, side: Side, p: int, k: int)
        requires
            self.placed_before(entries, side, p, k),
        ensures
            self.placed_before(entries, side, p + 1, 0),
    {
        assert forall|j: int| 0 <= j < entries.len() implies self.comes_before(
            #[trigger] entries[j],
            side,
            p + 1,
            0,
        ) by {
            assert(self.comes_before(entries[j], side, p, k));
        }
    }

    /// The plan carries out `order` against this book.
    pub(crate) closed spec fn plans<const REPORTS: usize>(
        &self,
        order: NewOrder,
        plan: MatchPlan<REPORTS>,
    ) -> bool {
        &&& plan.maker_side == order.side.opposing()
        &&& plan.logical() == self@.order_fills(order)
        &&& plan.resting_quantity.0 == self@.order_rests(order)
        &&& plan.discarded == self@.order_discards(order)
        &&& self.makers_rest(plan.fills@, plan.maker_side)
        &&& plan.resting_quantity.0 > 0 && Self::can_rest() ==> self.book_side(
            order.side,
        ).has_room(order.price)
    }

    /// Walks the crossing levels once to build a match plan, checking
    /// validity, duplicates, report capacity, and resting capacity against the
    /// unchanged book, so that applying the plan cannot fail.
    fn build_plan<const REPORTS: usize>(
        &self,
        order: NewOrder,
        report_capacity: usize,
    ) -> (planned: Result<MatchPlan<REPORTS>, RejectReason>)
        requires
            self.wf(),
        ensures
            match self@.refusal(
                order,
                if report_capacity < REPORTS {
                    report_capacity as nat
                } else {
                    REPORTS as nat
                },
                LEVELS as nat,
                ORDERS_PER_LEVEL as nat,
            ) {
                Some(reason) => planned is Err && planned->Err_0 == reason,
                None => planned is Ok && self.plans(order, planned->Ok_0),
            },
    {
        if order.instrument_id.0 != self.instrument.0 {
            return Err(RejectReason::InvalidInstrument);
        }
        if order.price.0 <= 0 {
            return Err(RejectReason::InvalidPrice);
        }
        if order.quantity.0 == 0 {
            return Err(RejectReason::InvalidQuantity);
        }
        if self.contains_order(order.order_id) {
            return Err(RejectReason::DuplicateOrderId);
        }
        let maker_side = order.side.opposite();
        if order.time_in_force == TimeInForce::PostOnly {
            // The best level comes first, so if it does not cross, nothing
            // does.
            if let Some(best) = self.best_price(maker_side) {
                let crossing = match order.side {
                    Side::Buy => best.0 <= order.price.0,
                    Side::Sell => best.0 >= order.price.0,
                };
                if crossing {
                    return Err(RejectReason::PostOnlyWouldTrade);
                }
            }
        }
        let mut plan: MatchPlan<REPORTS> = MatchPlan::new(maker_side, report_capacity);
        let remaining = match self.walk(order, &mut plan) {
            Ok(remaining) => remaining,
            Err(reason) => {
                return Err(reason);
            },
        };
        assert(plan.fills@.len() == self@.order_fills(order).len()) by {
            assert(plan.logical().len() == plan.fills@.len());
        }
        let mut resting: u64 = 0;
        let mut discarded: u64 = 0;
        match order.time_in_force {
            TimeInForce::Fok => {
                // Fill everything within the price limit or touch nothing.
                if remaining > 0 {
                    return Err(RejectReason::InsufficientLiquidity);
                }
            },
            TimeInForce::Ioc => {
                // Execute what crossed and discard the remainder.
                discarded = remaining;
            },
            TimeInForce::Gtc | TimeInForce::PostOnly => {
                if remaining > 0 {
                    if let Some(reason) = self.room(order.side, order.price) {
                        return Err(reason);
                    }
                }
                resting = remaining;
            },
        }
        plan.resting_quantity = Quantity(resting);
        plan.discarded = discarded;
        assert(plan.logical() =~= self@.order_fills(order));
        Ok(plan)
    }

    /// Carries out one fill: the maker at the front of its side trades.
    fn apply_fill(&mut self, order: NewOrder, fill: FillEntry, Ghost(quantity): Ghost<nat>)
        requires
            old(self).consistent(),
            ordered(old(self)@.side(order.side.opposing()), order.side.opposing()),
            old(self).live(fill.location(order.side.opposing())),
            old(self).order_at(fill.location(order.side.opposing())).id == fill.order_id,
            quantity > 0,
            tradable(old(self)@.side(order.side.opposing()), order.side, order.price),
            fill.order_id == old(self)@.side(order.side.opposing())[0].orders[0].id,
            fill.quantity.0 == front_trade(old(self)@.side(order.side.opposing()), quantity),
        ensures
            final(self).consistent(),
            final(self)@ == old(self)@.with_side(
                order.side.opposing(),
                front_left(old(self)@.side(order.side.opposing()), fill.quantity.0 as nat),
            ),
            kept_ids(*old(self), *final(self), fill.location(order.side.opposing())),
            forall|id: u64| #[trigger]
                final(self).index@.contains_key(id) ==> old(self).index@.contains_key(id),
    {
        let maker_side = order.side.opposite();
        let location = OrderLocation {
            side: maker_side,
            level_index: fill.level_index,
            slot: fill.slot,
        };
        proof {
            let place = self.lemma_located_place(location);
            self.lemma_unique_ids();
            assert(self@.rests_at(fill.order_id, maker_side, 0, 0));
            assert(self@.rests_at(fill.order_id, maker_side, place.0, place.1));
        }
        let maker = match self.side_ref(maker_side).get_live(fill.level_index, fill.slot) {
            Some(maker) => maker,
            None => {
                assert(false);
                vstd::pervasive::unreached()
            },
        };
        if maker.quantity.0 == fill.quantity.0 {
            let removed = self.take(location);
        } else {
            self.shrink(location, fill.quantity);
        }
    }

    /// Applies a plan: one execution report per fill, then the remainder
    /// rests.
    fn apply_plan<const REPORTS: usize>(
        &mut self,
        order: NewOrder,
        plan: &MatchPlan<REPORTS>,
        reports: &mut ReportBuffer<REPORTS>,
    )
        requires
            old(self).wf(),
            old(self).plans(order, *plan),
            !old(self)@.contains(order.order_id),
            order.price.0 > 0,
            plan.resting_quantity.0 > 0 ==> Self::can_rest(),
            plan.fills@.len() <= REPORTS - old(reports)@.len(),
        ensures
            final(self).wf(),
            final(self)@ == old(self)@.submitted(order),
            final(reports)@ == old(reports)@ + reports_of(order, old(self)@.order_fills(order)),
    {
        let ghost before = *self;
        let ghost side = order.side.opposing();
        let ghost trades = before@.order_fills(order);
        let ghost mut left = order.quantity.0 as nat;
        let ghost end = swept(before@.side(side), order.side, order.price, left);
        let maker_side = order.side.opposite();
        let mut j: usize = 0;
        proof {
            before.lemma_contains(order.order_id);
            assert(trades.skip(0) =~= trades);
            assert(reports@ =~= old(reports)@ + reports_of(order, trades.take(0)));
            assert(before@.with_side(side, before@.side(side)) =~= before@);
            assert(plan.logical().len() == plan.fills@.len());
        }
        while j < plan.fills.len()
            invariant
                j <= plan.fills@.len(),
                plan.maker_side == side,
                maker_side == side,
                side == order.side.opposing(),
                before.wf(),
                plan.logical() == trades,
                trades.len() == plan.fills@.len(),
                trades == before@.order_fills(order),
                plan.fills@.len() <= REPORTS - old(reports)@.len(),
                self.consistent(),
                self@ == before@.with_side(side, self@.side(side)),
                ordered(self@.side(side), side),
                fills(self@.side(side), order.side, order.price, left) == trades.skip(j as int),
                swept(self@.side(side), order.side, order.price, left) == end,
                self.makers_rest(plan.fills@.skip(j as int), side),
                reports@ == old(reports)@ + reports_of(order, trades.take(j as int)),
                !self.index@.contains_key(order.order_id.0),
            decreases plan.fills.len() - j,
        {
            let fill = plan.fills[j];
            let ghost levels = self@.side(side);
            let ghost current = *self;
            proof {
                assert(trades.skip(j as int)[0] == trades[j as int]);
                assert(plan.logical()[j as int] == fill.logical());
                assert(plan.fills@.skip(j as int)[0] == fill);
                assert(left > 0 && tradable(levels, order.side, order.price));
                assert(fills(levels, order.side, order.price, left)[0] == FillView {
                    maker: levels[0].orders[0].id,
                    price: levels[0].price,
                    quantity: front_trade(levels, left),
                });
            }
            let pushed = reports.push(
                ExecutionReport {
                    maker_order_id: fill.order_id,
                    taker_order_id: order.order_id,
                    instrument_id: order.instrument_id,
                    price: fill.price,
                    quantity: fill.quantity,
                    sequence: order.sequence,
                },
            );
            self.apply_fill(order, fill, Ghost(left));
            proof {
                let traded = fill.quantity.0 as nat;
                let rest = fills(
                    front_left(levels, traded),
                    order.side,
                    order.price,
                    (left - traded) as nat,
                );
                assert(trades.skip(j as int) == seq![fill.logical()] + rest);
                assert(trades.skip(j + 1) =~= rest) by {
                    assert(trades.skip(j + 1) =~= trades.skip(j as int).skip(1));
                    assert((seq![fill.logical()] + rest).skip(1) =~= rest);
                }
                assert(trades.take(j + 1) =~= trades.take(j as int).push(fill.logical()));
                assert(reports@ =~= old(reports)@ + reports_of(order, trades.take(j + 1)));
                lemma_front_left(levels, side, traded);
                current.lemma_makers_kept(*self, plan.fills@.skip(j as int), side);
                assert(plan.fills@.skip(j as int).skip(1) =~= plan.fills@.skip(j + 1));
                assert(self@ =~= before@.with_side(side, self@.side(side)));
                left = (left - traded) as nat;
            }
            j = j + 1;
        }
        proof {
            assert(trades.skip(j as int) =~= Seq::empty());
            assert(self@.side(side) == end) by {
                if left > 0 && tradable(self@.side(side), order.side, order.price) {
                    assert(fills(self@.side(side), order.side, order.price, left).len() > 0);
                }
            }
            assert(trades.take(j as int) =~= trades);
            lemma_swept(before@.side(side), order.side, order.price, order.quantity.0 as nat);
            self.lemma_contains(order.order_id);
        }
        if plan.resting_quantity.0 > 0 {
            let resting = RestingOrder {
                id: order.order_id,
                account_id: order.account_id,
                index_slot: 0,
                quantity: plan.resting_quantity,
                sequence: order.sequence,
            };
            assert(self@.side(order.side) == before@.side(order.side));
            self.file(order.side, order.price, resting);
            proof {
                lemma_rested_ordered(
                    before@.side(order.side),
                    order.side,
                    order.price,
                    resting.logical(),
                );
                assert(self@ =~= before@.submitted(order));
                lemma_posted(before@, order);
            }
        } else {
            proof {
                assert(self@ =~= before@.submitted(order));
            }
        }
    }

    /// Submits a new order. It trades with the crossing levels of the other
    /// side, best price and oldest order first, one report per fill; its time
    /// in force decides what becomes of the rest. A refusal leaves the book
    /// and the report buffer untouched.
    pub fn submit<const REPORTS: usize>(
        &mut self,
        order: NewOrder,
        reports: &mut ReportBuffer<REPORTS>,
    ) -> (outcome: Result<MatchSummary, RejectReason>)
        requires
            old(self).wf(),
            !Self::can_rest() ==> old(self)@.order_rests(order) == 0 || old(self)@.refusal(
                order,
                (REPORTS - old(reports)@.len()) as nat,
                LEVELS as nat,
                ORDERS_PER_LEVEL as nat,
            ) is Some,
        ensures
            final(self).wf(),
            match old(self)@.refusal(
                order,
                (REPORTS - old(reports)@.len()) as nat,
                LEVELS as nat,
                ORDERS_PER_LEVEL as nat,
            ) {
                Some(reason) => {
                    &&& outcome == Err::<MatchSummary, _>(reason)
                    &&& *final(self) == *old(self)
                    &&& final(reports)@ == old(reports)@
                },
                None => {
                    &&& outcome == Ok::<_, RejectReason>(old(self)@.summary(order))
                    &&& final(self)@ == old(self)@.submitted(order)
                    &&& final(reports)@ == old(reports)@ + reports_of(
                        order,
                        old(self)@.order_fills(order),
                    )
                },
            },
            outcome is Ok ==> {
                let makers = queue(other_levels(old(self)@, order.side));
                let start = old(reports)@.len() as int;
                &&& final(reports)@.len() - start <= makers.len()
                &&& forall|j: int|
                    start <= j < final(reports)@.len() ==> {
                        let report = #[trigger] final(reports)@[j];
                        &&& report.price == makers[j - start].0
                        &&& report.maker_order_id == makers[j - start].1.id
                        &&& 0 < report.quantity.0 <= makers[j - start].1.quantity.0
                    }
                &&& reported_total(final(reports)@.skip(start))
                    == outcome->Ok_0.filled_quantity.0
            },
    {
        let initial: usize = reports.len();
        let plan: MatchPlan<REPORTS> = match self.build_plan(order, reports.remaining_capacity()) {
            Ok(plan) => plan,
            Err(reason) => {
                return Err(reason);
            },
        };
        let ghost view = self@;
        proof {
            lemma_swept(
                view.side(order.side.opposing()),
                order.side,
                order.price,
                order.quantity.0 as nat,
            );
            assert(plan.fills@.len() == plan.logical().len());
            self.law_sound();
            law_reports_follow_the_queue(view, order);
            law_summary_adds_up(
                view,
                order,
                (REPORTS - initial) as nat,
                LEVELS as nat,
                ORDERS_PER_LEVEL as nat,
            );
            assert((reports@ + reports_of(order, view.order_fills(order))).skip(initial as int)
                =~= reports_of(order, view.order_fills(order)));
        }
        self.apply_plan(order, &plan, reports);
        let filled: u64 = order.quantity.0 - plan.resting_quantity.0 - plan.discarded;
        let state = if filled == order.quantity.0 {
            OrderState::Filled
        } else if filled == 0 {
            OrderState::Accepted
        } else {
            OrderState::PartiallyFilled
        };
        Ok(
            MatchSummary {
                state,
                filled_quantity: Quantity(filled),
                resting_quantity: plan.resting_quantity,
                discarded_quantity: Quantity(plan.discarded),
                report_count: reports.len() - initial,
            },
        )
    }

    proof fn lemma_makers_kept(&self, after: Self, entries: Seq<FillEntry>, side: Side)
        requires
            entries.len() > 0,
            self.makers_rest(entries, side),
            kept_ids(*self, after, entries[0].location(side)),
        ensures
            after.makers_rest(entries.skip(1), side),
    {
        let rest = entries.skip(1);
        assert forall|j: int| 0 <= j < rest.len() implies {
            &&& after.live((#[trigger] rest[j]).location(side))
            &&& after.order_at(rest[j].location(side)).id == rest[j].order_id
        } by {
            assert(rest[j] == entries[j + 1]);
            assert(entries[0].location(side) != entries[j + 1].location(side));
            assert(self.live(entries[j + 1].location(side)));
        }
        assert forall|i: int, j: int| 0 <= i < j < rest.len() implies (#[trigger] rest[i]).location(
            side,
        ) != (#[trigger] rest[j]).location(side) by {
            assert(rest[i] == entries[i + 1] && rest[j] == entries[j + 1]);
        }
    }
}

/// Every location but one still holds an order with the same identifier.
pub(crate) closed spec fn kept_ids<const LEVELS: usize, const ORDERS: usize>(
    before: OrderBook<LEVELS, ORDERS>,
    after: OrderBook<LEVELS, ORDERS>,
    location: OrderLocation,
) -> bool {
    forall|other: OrderLocation|
        other != location && before.live(other) ==> {
            &&& #[trigger] after.live(other)
            &&& after.order_at(other).id == before.order_at(other).id
        }
}

/// An order that rests after its trades does not cross the book.
proof fn lemma_posted(view: BookView, order: NewOrder)
    requires
        ordered(view.bids, Side::Buy),
        ordered(view.asks, Side::Sell),
        view.uncrossed(),
        view.order_rests(order) > 0,
        order.price.0 > 0,
    ensures
        view.submitted(order).uncrossed(),
{
    let makers = order.side.opposing();
    let resting = OrderView {
        id: order.order_id,
        account_id: order.account_id,
        quantity: Quantity(view.order_rests(order) as u64),
        sequence: order.sequence,
    };
    lemma_swept(view.side(makers), order.side, order.price, order.quantity.0 as nat);
    lemma_rested_ordered(view.side(order.side), order.side, order.price, resting);
}

} // verus!
