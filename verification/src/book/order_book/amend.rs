//! Cancelling and replacing resting orders.

use vstd::prelude::*;

use crate::book::level::RestingOrder;
use crate::book::model::{
    crosses, has_level, lemma_rank_splits, lemma_reduced_ordered, lemma_removed_level,
    lemma_removed_ordered, lemma_rested_ordered, ordered, reduced_at, removed_at, LevelView,
};
use crate::book::order_book::OrderBook;
use crate::book::{CancelledOrder, ReplacedOrder};
use crate::types::{CancelOrder, PriceTicks, Quantity, RejectReason, ReplaceOrder, Side};

verus! {

impl<const LEVELS: usize, const ORDERS_PER_LEVEL: usize> OrderBook<LEVELS, ORDERS_PER_LEVEL> {
    /// Removes an owned resting order while retaining FIFO order for all peers.
    /// A refusal changes nothing.
    pub fn cancel(&mut self, cancel: CancelOrder) -> (outcome: Result<
        CancelledOrder,
        RejectReason,
    >)
        requires
            old(self).wf(),
        ensures
            final(self).wf(),
            match old(self)@.cancel_refusal(cancel) {
                Some(reason) => {
                    &&& outcome == Err::<CancelledOrder, _>(reason)
                    &&& *final(self) == *old(self)
                },
                None => {
                    &&& outcome == Ok::<_, RejectReason>(old(self)@.cancel_answer(cancel))
                    &&& final(self)@ == old(self)@.without(cancel.order_id)
                },
            },
    {
        if cancel.instrument_id.0 != self.instrument.0 {
            return Err(RejectReason::InvalidInstrument);
        }
        let (location, order) = match self.locate(cancel.order_id) {
            Some(found) => found,
            None => {
                return Err(RejectReason::UnknownOrder);
            },
        };
        let ghost place = self.lemma_located_place(location);
        if order.account_id.0 != cancel.account_id.0 {
            return Err(RejectReason::NotOrderOwner);
        }
        let ghost before = self@;
        let removed = self.take(location);
        proof {
            lemma_removed_ordered(before.side(location.side), location.side, place.0, place.1);
        }
        Ok(
            CancelledOrder {
                order_id: removed.id,
                account_id: removed.account_id,
                quantity: removed.quantity,
            },
        )
    }

    /// Amends an owned resting order. A pure quantity reduction keeps its
    /// slot and FIFO priority; any price change or quantity increase loses
    /// priority and re-enters at the destination level tail. Repricing never
    /// executes against the book, so a replace whose new price would cross
    /// the opposing best price is refused. A refusal changes nothing.
    pub fn replace(&mut self, replace: ReplaceOrder) -> (outcome: Result<
        ReplacedOrder,
        RejectReason,
    >)
        requires
            old(self).wf(),
        ensures
            final(self).wf(),
            match old(self)@.replace_refusal(replace, LEVELS as nat, ORDERS_PER_LEVEL as nat) {
                Some(reason) => {
                    &&& outcome == Err::<ReplacedOrder, _>(reason)
                    &&& *final(self) == *old(self)
                },
                None => {
                    &&& outcome == Ok::<_, RejectReason>(old(self)@.replace_answer(replace))
                    &&& final(self)@ == old(self)@.replaced(replace)
                },
            },
            outcome is Ok ==> outcome->Ok_0.priority_lost == !(replace.price == old(self)@.price_of(
                replace.order_id,
            ) && replace.quantity.0 < old(self)@.order(replace.order_id).quantity.0),
    {
        if replace.instrument_id.0 != self.instrument.0 {
            return Err(RejectReason::InvalidInstrument);
        }
        let (location, order) = match self.locate(replace.order_id) {
            Some(found) => found,
            None => {
                return Err(RejectReason::UnknownOrder);
            },
        };
        let ghost place = self.lemma_located_place(location);
        if order.account_id.0 != replace.account_id.0 {
            return Err(RejectReason::NotOrderOwner);
        }
        if replace.price.0 <= 0 {
            return Err(RejectReason::InvalidPrice);
        }
        if replace.quantity.0 == 0 {
            return Err(RejectReason::InvalidQuantity);
        }
        let ghost before = self@;
        let ghost side = location.side;
        let ghost levels = before.side(side);
        let ghost i = place.0;
        let ghost k = place.1;
        let (old_price, old_count) = self.level_of(location);
        let same_price = replace.price.0 == old_price.0;
        if same_price && replace.quantity.0 < order.quantity.0 {
            // In-place reduction: slot handle, index entry, and FIFO position
            // all stay untouched.
            let reduction = Quantity(order.quantity.0 - replace.quantity.0);
            self.shrink(location, reduction);
            proof {
                lemma_reduced_ordered(levels, side, i, k, reduction.0 as int);
                if levels.len() > 0 {
                    assert(reduced_at(levels, i, k, reduction.0 as int)[0].price
                        == levels[0].price);
                }
            }
            return Ok(
                ReplacedOrder {
                    order_id: replace.order_id,
                    account_id: replace.account_id,
                    old_quantity: order.quantity,
                    new_quantity: replace.quantity,
                    price: replace.price,
                    priority_lost: false,
                },
            );
        }
        if !same_price {
            // A repriced order must not cross: check the opposing best.
            if let Some(best) = self.best_price(location.side.opposite()) {
                let crossing = match location.side {
                    Side::Buy => replace.price.0 >= best.0,
                    Side::Sell => replace.price.0 <= best.0,
                };
                if crossing {
                    return Err(RejectReason::ReplaceWouldCross);
                }
            }
            // Destination capacity preflight against the unchanged book.
            let opens = self.side_ref(location.side).find(replace.price).is_none();
            if !(opens && old_count == 1) {
                if let Some(reason) = self.room(location.side, replace.price) {
                    return Err(reason);
                }
            }
        }
        // Priority lost: take the order out and rest it at the destination
        // tail.
        proof {
            self.book_side(side).lemma_view();
            assert(levels[i].orders.len() <= ORDERS_PER_LEVEL);
        }
        let removed = self.take(location);
        proof {
            let gone = self@;
            let left = gone.side(side);
            lemma_removed_ordered(levels, side, i, k);
            lemma_removed_level(levels, side, i, k, replace.price);
            assert(left == removed_at(levels, i, k));
            assert(self.book_side(side).has_room(replace.price)) by {
                if has_level(left, replace.price) {
                    lemma_rank_splits(left, side, replace.price);
                }
            }
        }
        let resting = RestingOrder {
            id: replace.order_id,
            account_id: replace.account_id,
            index_slot: 0,
            quantity: replace.quantity,
            sequence: replace.sequence,
        };
        let ghost left = self@.side(side);
        self.file(location.side, replace.price, resting);
        proof {
            lemma_rested_ordered(left, side, replace.price, resting.logical());
            lemma_requoted(before, side, i, k, replace.price, self@.side(side));
        }
        Ok(
            ReplacedOrder {
                order_id: replace.order_id,
                account_id: replace.account_id,
                old_quantity: order.quantity,
                new_quantity: replace.quantity,
                price: replace.price,
                priority_lost: true,
            },
        )
    }
}

/// A side whose best price is one of its old levels or a price that does not
/// cross leaves the book uncrossed.
proof fn lemma_requoted(
    before: crate::book::model::BookView,
    side: Side,
    i: int,
    k: int,
    price: PriceTicks,
    after: Seq<LevelView>,
)
    requires
        ordered(before.bids, Side::Buy),
        ordered(before.asks, Side::Sell),
        before.uncrossed(),
        0 <= i < before.side(side).len(),
        0 <= k < before.side(side)[i].orders.len(),
        after.len() > 0,
        after[0].price == price || (removed_at(before.side(side), i, k).len() > 0
            && after[0].price == removed_at(before.side(side), i, k)[0].price),
        price == before.side(side)[i].price || before.side(side.opposing()).len() == 0 || !crosses(
            side,
            price,
            before.side(side.opposing())[0].price,
        ),
    ensures
        before.with_side(side, after).uncrossed(),
{
    lemma_removed_ordered(before.side(side), side, i, k);
    if before.side(side.opposing()).len() > 0 {
        match side {
            Side::Buy => crate::book::model::lemma_uncrossed(before, i, 0),
            Side::Sell => crate::book::model::lemma_uncrossed(before, 0, i),
        }
    }
}

} // verus!
