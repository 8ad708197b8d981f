//! The digest of a risk engine.

use vstd::prelude::*;

use crate::digest::{mix, DIGEST_SEED};
use crate::risk::engine::RiskEngine;
use crate::risk::model::{
    digest_account, digest_accounts, digest_slots, flag, high_lane, low_lane,
};
use crate::risk::AccountRiskState;

verus! {

fn be_high(value: u128) -> (lane: u64)
    ensures
        lane == high_lane(value),
{
    (value >> 64) as u64
}

fn be_low(value: u128) -> (lane: u64)
    ensures
        lane == low_lane(value),
{
    #[verifier::truncate]
    (value as u64)
}

fn bit(value: bool) -> (number: u64)
    ensures
        number == flag(value),
{
    if value {
        1
    } else {
        0
    }
}

fn fold_account(digest: u64, account: &AccountRiskState) -> (next: u64)
    ensures
        next == digest_account(digest, *account),
{
    let position: u128 = #[verifier::truncate]
    (account.settled_position as u128);
    let mut next: u64 = mix(digest, account.id.0 as u64);
    next = mix(next, be_high(position));
    next = mix(next, be_high(account.reserved_buys));
    next = mix(next, be_low(account.reserved_buys));
    next = mix(next, be_high(account.reserved_sells));
    next = mix(next, be_low(account.reserved_sells));
    next = mix(next, be_low(position));
    next = mix(next, account.open_orders as u64);
    mix(next, bit(account.killed))
}

impl<const ACCOUNTS: usize, const ORDERS: usize> RiskEngine<ACCOUNTS, ORDERS> {
    /// A digest that two engines share when they were given the same requests.
    #[must_use]
    pub fn stable_digest(&self) -> (digest: u64)
        requires
            self.wf(),
        ensures
            digest == self@.digest(),
    {
        let mut digest: u64 = mix(DIGEST_SEED, bit(self.killed));
        digest = mix(
            digest,
            match self.maximum_order_id {
                Some(id) => id.0,
                None => 0,
            },
        );
        let ghost start = digest;
        let ghost accounts = self@.accounts;
        let ghost slots = self@.slots;
        let mut i: usize = 0;
        proof {
            self.law_sound();
            assert(accounts.take(0) =~= Seq::empty());
            assert(slots.take(0) =~= Seq::empty());
        }
        while i < self.accounts.len()
            invariant
                accounts == self.accounts@,
                i <= accounts.len(),
                digest == digest_accounts(start, accounts.take(i as int)),
            decreases accounts.len() - i,
        {
            assert(accounts.take(i + 1).drop_last() =~= accounts.take(i as int));
            assert(accounts.take(i + 1).last() == accounts[i as int]);
            digest = fold_account(digest, &self.accounts[i]);
            i = i + 1;
        }
        assert(accounts.take(i as int) =~= accounts);
        let ghost middle = digest;
        let mut s: usize = 0;
        while s < ORDERS
            invariant
                self.wf(),
                self.pool.wf(),
                slots == self.pool.slots(),
                slots.len() == ORDERS,
                s <= ORDERS,
                digest == digest_slots(middle, slots.take(s as int)),
            decreases ORDERS - s,
        {
            assert(slots.take(s + 1).drop_last() =~= slots.take(s as int));
            assert(slots.take(s + 1).last() == slots[s as int]);
            if let Some(reservation) = self.pool.get(s) {
                digest = mix(digest, reservation.order_id.0);
                digest = mix(digest, reservation.quantity.0);
            }
            s = s + 1;
        }
        assert(slots.take(s as int) =~= slots);
        digest
    }
}

} // verus!
