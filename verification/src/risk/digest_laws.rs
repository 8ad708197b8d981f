//! What the digest of a risk state depends on.

use vstd::prelude::*;

use crate::digest::{folded, lemma_folded_join, lemma_folded_one, mixed, DIGEST_SEED};
use crate::risk::model::{
    digest_account, digest_accounts, digest_slots, high_lane, low_lane, RiskView,
};
use crate::risk::{AccountRiskState, ReservationRiskState};

verus! {

/// The upper half of a number of 128 bits.
pub open spec fn upper(value: u128) -> u64 {
    (value / 0x1_0000_0000_0000_0000) as u64
}

/// The lower half of a number of 128 bits.
pub open spec fn lower(value: u128) -> u64 {
    (value % 0x1_0000_0000_0000_0000) as u64
}

proof fn lemma_lanes(value: u128)
    ensures
        high_lane(value) == upper(value),
        low_lane(value) == lower(value),
{
    assert((value >> 64) as u64 == (value / 0x1_0000_0000_0000_0000) as u64) by (bit_vector);
    assert(value as u64 == (value % 0x1_0000_0000_0000_0000) as u64) by (bit_vector);
}

/// The words of an account: its number, its position and its exposures by halves, the
/// position's halves around those of the exposures, its open orders and its switch.
pub open spec fn account_words(account: AccountRiskState) -> Seq<u64> {
    let position = account.settled_position as u128;
    seq![
        account.id.0 as u64,
        upper(position),
        upper(account.reserved_buys),
        lower(account.reserved_buys),
        upper(account.reserved_sells),
        lower(account.reserved_sells),
        lower(position),
        account.open_orders as u64,
        if account.killed {
            1u64
        } else {
            0u64
        },
    ]
}

/// The words of accounts, in registration order.
pub open spec fn accounts_words(accounts: Seq<AccountRiskState>) -> Seq<u64>
    decreases accounts.len(),
{
    if accounts.len() == 0 {
        Seq::empty()
    } else {
        accounts_words(accounts.drop_last()) + account_words(accounts.last())
    }
}

/// The words of reservations, in slot order: number and quantity of each.
pub open spec fn slots_words(slots: Seq<Option<ReservationRiskState>>) -> Seq<u64>
    decreases slots.len(),
{
    if slots.len() == 0 {
        Seq::empty()
    } else {
        slots_words(slots.drop_last()) + match slots.last() {
            Some(reservation) => seq![reservation.order_id.0, reservation.quantity.0],
            None => Seq::empty(),
        }
    }
}

/// The words of a risk state: its switch, its watermark, its accounts and its
/// reservations.
pub open spec fn risk_words(view: RiskView) -> Seq<u64> {
    let watermark = match view.maximum_order_id {
        Some(id) => id.0,
        None => 0,
    };
    seq![
        if view.killed {
            1u64
        } else {
            0u64
        },
        watermark,
    ] + accounts_words(view.accounts) + slots_words(view.slots)
}

proof fn lemma_account(digest: u64, account: AccountRiskState)
    ensures
        digest_account(digest, account) == folded(digest, account_words(account)),
{
    let words = account_words(account);
    lemma_lanes(account.settled_position as u128);
    lemma_lanes(account.reserved_buys);
    lemma_lanes(account.reserved_sells);
    lemma_folded_one(digest, words[0]);
    assert(words.take(1) =~= seq![words[0]]);
    assert(words.take(2).drop_last() =~= words.take(1));
    assert(words.take(3).drop_last() =~= words.take(2));
    assert(words.take(4).drop_last() =~= words.take(3));
    assert(words.take(5).drop_last() =~= words.take(4));
    assert(words.take(6).drop_last() =~= words.take(5));
    assert(words.take(7).drop_last() =~= words.take(6));
    assert(words.take(8).drop_last() =~= words.take(7));
    assert(words.drop_last() =~= words.take(8));
    assert(folded(digest, words.take(2)) == mixed(folded(digest, words.take(1)), words[1]));
    assert(folded(digest, words.take(3)) == mixed(folded(digest, words.take(2)), words[2]));
    assert(folded(digest, words.take(4)) == mixed(folded(digest, words.take(3)), words[3]));
    assert(folded(digest, words.take(5)) == mixed(folded(digest, words.take(4)), words[4]));
    assert(folded(digest, words.take(6)) == mixed(folded(digest, words.take(5)), words[5]));
    assert(folded(digest, words.take(7)) == mixed(folded(digest, words.take(6)), words[6]));
    assert(folded(digest, words.take(8)) == mixed(folded(digest, words.take(7)), words[7]));
}

proof fn lemma_accounts(digest: u64, accounts: Seq<AccountRiskState>)
    ensures
        digest_accounts(digest, accounts) == folded(digest, accounts_words(accounts)),
    decreases accounts.len(),
{
    if accounts.len() > 0 {
        let init = accounts.drop_last();
        lemma_accounts(digest, init);
        lemma_account(digest_accounts(digest, init), accounts.last());
        lemma_folded_join(digest, accounts_words(init), account_words(accounts.last()));
    }
}

proof fn lemma_slots(digest: u64, slots: Seq<Option<ReservationRiskState>>)
    ensures
        digest_slots(digest, slots) == folded(digest, slots_words(slots)),
    decreases slots.len(),
{
    if slots.len() > 0 {
        let init = slots.drop_last();
        lemma_slots(digest, init);
        match slots.last() {
            Some(reservation) => {
                let pair = seq![reservation.order_id.0, reservation.quantity.0];
                let before = folded(digest, slots_words(init));
                lemma_folded_join(digest, slots_words(init), pair);
                lemma_folded_one(before, reservation.order_id.0);
                assert(pair.drop_last() =~= seq![reservation.order_id.0]);
            },
            None => {
                assert(slots_words(slots) =~= slots_words(init));
            },
        }
    }
}

/// The digest of a risk state is that of its words, each once and in its order.
pub proof fn law_digest_covers_the_state(view: RiskView)
    ensures
        view.digest() == folded(0xcbf2_9ce4_8422_2325, risk_words(view)),
{
    let watermark = match view.maximum_order_id {
        Some(id) => id.0,
        None => 0,
    };
    let switch = if view.killed {
        1u64
    } else {
        0u64
    };
    let pair = seq![switch, watermark];
    let accounts = accounts_words(view.accounts);
    lemma_folded_one(DIGEST_SEED, switch);
    assert(pair.drop_last() =~= seq![switch]);
    lemma_folded_join(DIGEST_SEED, pair, accounts);
    lemma_folded_join(DIGEST_SEED, pair + accounts, slots_words(view.slots));
    lemma_accounts(folded(DIGEST_SEED, pair), view.accounts);
    lemma_slots(folded(DIGEST_SEED, pair + accounts), view.slots);
}

} // verus!
