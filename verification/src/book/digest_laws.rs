//! What the digest of a book depends on.

use vstd::prelude::*;

use crate::book::model::{
    digest_levels, digest_order, digest_orders, BookView, LevelView, OrderView,
};
use crate::digest::{folded, lemma_folded_join, lemma_folded_one, mixed, DIGEST_SEED};

verus! {

/// The words of an order: number, account, quantity and sequence.
pub open spec fn order_words(order: OrderView) -> Seq<u64> {
    seq![order.id.0, order.account_id.0 as u64, order.quantity.0, order.sequence.0]
}

/// The words of orders, oldest first.
pub open spec fn orders_words(orders: Seq<OrderView>) -> Seq<u64>
    decreases orders.len(),
{
    if orders.len() == 0 {
        Seq::empty()
    } else {
        orders_words(orders.drop_last()) + order_words(orders.last())
    }
}

/// The words of levels, best first: each level's price, then its orders.
pub open spec fn levels_words(levels: Seq<LevelView>) -> Seq<u64>
    decreases levels.len(),
{
    if levels.len() == 0 {
        Seq::empty()
    } else {
        levels_words(levels.drop_last()) + (seq![levels.last().price.0 as u64] + orders_words(
            levels.last().orders,
        ))
    }
}

/// The words of a book: its instrument, zero and the bids, one and the asks.
pub open spec fn book_words(view: BookView) -> Seq<u64> {
    seq![view.instrument.0 as u64] + (seq![0u64] + levels_words(view.bids)) + (seq![1u64]
        + levels_words(view.asks))
}

proof fn lemma_order(digest: u64, order: OrderView)
    ensures
        digest_order(digest, order) == folded(digest, order_words(order)),
{
    let words = order_words(order);
    lemma_folded_one(digest, words[0]);
    assert(words.take(1) =~= seq![words[0]]);
    assert(words.take(2).drop_last() =~= words.take(1));
    assert(words.take(3).drop_last() =~= words.take(2));
    assert(words.drop_last() =~= words.take(3));
    assert(folded(digest, words.take(2)) == mixed(folded(digest, words.take(1)), words[1]));
    assert(folded(digest, words.take(3)) == mixed(folded(digest, words.take(2)), words[2]));
    assert(folded(digest, words) == mixed(folded(digest, words.take(3)), words[3]));
}

proof fn lemma_orders(digest: u64, orders: Seq<OrderView>)
    ensures
        digest_orders(digest, orders) == folded(digest, orders_words(orders)),
    decreases orders.len(),
{
    if orders.len() > 0 {
        let init = orders.drop_last();
        lemma_orders(digest, init);
        lemma_order(digest_orders(digest, init), orders.last());
        lemma_folded_join(digest, orders_words(init), order_words(orders.last()));
    }
}

proof fn lemma_levels(digest: u64, levels: Seq<LevelView>)
    ensures
        digest_levels(digest, levels) == folded(digest, levels_words(levels)),
    decreases levels.len(),
{
    if levels.len() > 0 {
        let init = levels.drop_last();
        let level = levels.last();
        let price = level.price.0 as u64;
        let before = digest_levels(digest, init);
        lemma_levels(digest, init);
        lemma_folded_join(
            digest,
            levels_words(init),
            seq![price] + orders_words(level.orders),
        );
        lemma_folded_join(before, seq![price], orders_words(level.orders));
        lemma_folded_one(before, price);
        lemma_orders(mixed(before, price), level.orders);
    }
}

/// The digest of a book is that of its words: of all that a reader sees of it, each
/// field once and in its order, and of nothing else.
pub proof fn law_digest_covers_the_book(view: BookView)
    ensures
        view.digest() == folded(0xcbf2_9ce4_8422_2325, book_words(view)),
{
    let instrument = view.instrument.0 as u64;
    let start = mixed(DIGEST_SEED, instrument);
    let bids = seq![0u64] + levels_words(view.bids);
    let asks = seq![1u64] + levels_words(view.asks);
    lemma_folded_one(DIGEST_SEED, instrument);
    lemma_folded_join(DIGEST_SEED, seq![instrument], bids);
    lemma_folded_join(DIGEST_SEED, seq![instrument] + bids, asks);
    lemma_folded_join(start, seq![0u64], levels_words(view.bids));
    lemma_folded_one(start, 0);
    lemma_levels(mixed(start, 0), view.bids);
    let middle = folded(start, bids);
    lemma_folded_join(middle, seq![1u64], levels_words(view.asks));
    lemma_folded_one(middle, 1);
    lemma_levels(mixed(middle, 1), view.asks);
}

} // verus!
