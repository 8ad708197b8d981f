//! Exporting a risk engine as canonical state and restoring it.

use vstd::prelude::*;

use crate::risk::engine::RiskEngine;
use crate::risk::model::{account_balanced, exposure, limits_valid, open_count, RiskView};
use crate::risk::probe_index::{planes_fit, INDEX_PLANES};
use crate::risk::state::{
    as_slots, knows, lemma_accounts_ascend, lemma_reservations_ascend, lemma_totals_sound,
};
use crate::risk::{AccountRiskState, ReservationRiskState, RiskEngineState, RiskStateError};
use crate::types::{AccountId, Side};

verus! {

/// How many slots hold a reservation.
pub open spec fn live_total(slots: Seq<Option<ReservationRiskState>>) -> nat
    decreases slots.len(),
{
    if slots.len() == 0 {
        0
    } else {
        live_total(slots.drop_last()) + if slots.last() is Some {
            1nat
        } else {
            0
        }
    }
}

/// Some slot holds `reservation`.
pub open spec fn held(
    slots: Seq<Option<ReservationRiskState>>,
    reservation: ReservationRiskState,
) -> bool {
    exists|s: int| 0 <= s < slots.len() && #[trigger] slots[s] == Some(reservation)
}

pub open spec fn accounts_ascend(accounts: Seq<AccountRiskState>) -> bool {
    forall|i: int, j: int|
        0 <= i < j < accounts.len() ==> (#[trigger] accounts[i]).id.0 < (
        #[trigger] accounts[j]).id.0
}

pub open spec fn reservations_ascend(reservations: Seq<ReservationRiskState>) -> bool {
    forall|i: int, j: int|
        0 <= i < j < reservations.len() ==> (#[trigger] reservations[i]).order_id.0 < (
        #[trigger] reservations[j]).order_id.0
}

/// `state` is the canonical record of `view`: the accounts in strictly
/// ascending order, the live reservations in strictly ascending order, and
/// nothing else.
pub open spec fn exports(state: RiskEngineState, view: RiskView) -> bool {
    &&& accounts_ascend(state.accounts@)
    &&& state.accounts@.len() == view.accounts.len()
    &&& forall|account: AccountRiskState| #[trigger]
        state.accounts@.contains(account) <==> view.accounts.contains(account)
    &&& reservations_ascend(state.reservations@)
    &&& state.reservations@.len() == live_total(view.slots)
    &&& forall|reservation: ReservationRiskState| #[trigger]
        state.reservations@.contains(reservation) <==> held(view.slots, reservation)
    &&& state.maximum_order_id == view.maximum_order_id
    &&& state.killed == view.killed
}

/// Inserts an account at its place in ascending order.
fn insert_account(sorted: &mut Vec<AccountRiskState>, account: AccountRiskState)
    requires
        accounts_ascend(old(sorted)@),
        forall|i: int| 0 <= i < old(sorted)@.len() ==> (#[trigger] old(sorted)@[i]).id != account.id,
    ensures
        accounts_ascend(final(sorted)@),
        final(sorted)@.len() == old(sorted)@.len() + 1,
        forall|other: AccountRiskState| #[trigger]
            final(sorted)@.contains(other) <==> old(sorted)@.contains(other) || other == account,
{
    let ghost before = sorted@;
    let mut position: usize = 0;
    while position < sorted.len() && sorted[position].id.0 < account.id.0
        invariant
            sorted@ == before,
            position <= sorted@.len(),
            forall|i: int| 0 <= i < position ==> (#[trigger] sorted@[i]).id.0 < account.id.0,
        decreases sorted.len() - position,
    {
        position = position + 1;
    }
    sorted.insert(position, account);
    proof {
        let p = position as int;
        let after = sorted@;
        assert(after =~= before.insert(p, account));
        assert(forall|i: int|
            0 <= i < after.len() ==> #[trigger] after[i] == if i < p {
                before[i]
            } else if i == p {
                account
            } else {
                before[i - 1]
            });
        assert forall|i: int, j: int| 0 <= i < j < after.len() implies (#[trigger] after[i]).id.0 < (
        #[trigger] after[j]).id.0 by {
            if i == p {
                assert(before[p].id.0 > account.id.0);
                if j - 1 > p {
                    assert(before[p].id.0 < before[j - 1].id.0);
                }
            }
        }
        assert forall|other: AccountRiskState| #[trigger] after.contains(other) <==> before.contains(
            other,
        ) || other == account by {
            if before.contains(other) {
                let i = choose|i: int| 0 <= i < before.len() && before[i] == other;
                assert(after[if i < p {
                    i
                } else {
                    i + 1
                }] == other);
            }
            if other == account {
                assert(after[p] == other);
            }
            if after.contains(other) && other != account {
                let i = choose|i: int| 0 <= i < after.len() && after[i] == other;
                assert(before[if i < p {
                    i
                } else {
                    i - 1
                }] == other);
            }
        }
    }
}

/// Inserts a reservation at its place in ascending order.
fn insert_reservation(sorted: &mut Vec<ReservationRiskState>, reservation: ReservationRiskState)
    requires
        reservations_ascend(old(sorted)@),
        forall|i: int|
            0 <= i < old(sorted)@.len() ==> (#[trigger] old(sorted)@[i]).order_id
                != reservation.order_id,
    ensures
        reservations_ascend(final(sorted)@),
        final(sorted)@.len() == old(sorted)@.len() + 1,
        forall|other: ReservationRiskState| #[trigger]
            final(sorted)@.contains(other) <==> old(sorted)@.contains(other) || other
                == reservation,
{
    let ghost before = sorted@;
    let mut position: usize = 0;
    while position < sorted.len() && sorted[position].order_id.0 < reservation.order_id.0
        invariant
            sorted@ == before,
            position <= sorted@.len(),
            forall|i: int|
                0 <= i < position ==> (#[trigger] sorted@[i]).order_id.0 < reservation.order_id.0,
        decreases sorted.len() - position,
    {
        position = position + 1;
    }
    sorted.insert(position, reservation);
    proof {
        let p = position as int;
        let after = sorted@;
        assert(after =~= before.insert(p, reservation));
        assert(forall|i: int|
            0 <= i < after.len() ==> #[trigger] after[i] == if i < p {
                before[i]
            } else if i == p {
                reservation
            } else {
                before[i - 1]
            });
        assert forall|i: int, j: int| 0 <= i < j < after.len() implies (
        #[trigger] after[i]).order_id.0 < (#[trigger] after[j]).order_id.0 by {
            if i == p {
                assert(before[p].order_id.0 > reservation.order_id.0);
                if j - 1 > p {
                    assert(before[p].order_id.0 < before[j - 1].order_id.0);
                }
            }
        }
        assert forall|other: ReservationRiskState| #[trigger] after.contains(other)
            <==> before.contains(other) || other == reservation by {
            if before.contains(other) {
                let i = choose|i: int| 0 <= i < before.len() && before[i] == other;
                assert(after[if i < p {
                    i
                } else {
                    i + 1
                }] == other);
            }
            if other == reservation {
                assert(after[p] == other);
            }
            if after.contains(other) && other != reservation {
                let i = choose|i: int| 0 <= i < after.len() && after[i] == other;
                assert(before[if i < p {
                    i
                } else {
                    i - 1
                }] == other);
            }
        }
    }
}

/// Filler behind the reservations adds nothing to the totals.
pub proof fn lemma_padding(
    reservations: Seq<ReservationRiskState>,
    slots: Seq<Option<ReservationRiskState>>,
    account: AccountId,
    side: Side,
)
    requires
        reservations.len() <= slots.len(),
        forall|s: int|
            0 <= s < slots.len() ==> #[trigger] slots[s] == if s < reservations.len() {
                Some(reservations[s])
            } else {
                None
            },
    ensures
        exposure(slots, account, side) == exposure(as_slots(reservations), account, side),
        open_count(slots, account) == open_count(as_slots(reservations), account),
    decreases slots.len(),
{
    if slots.len() == reservations.len() {
        assert(slots =~= as_slots(reservations));
    } else {
        lemma_padding(reservations, slots.drop_last(), account, side);
    }
}

/// A valid record describes a sound state.
pub proof fn lemma_restored_sound(state: RiskEngineState, max_accounts: nat, max_orders: nat)
    requires
        state.fault(max_accounts, max_orders) is None,
    ensures
        state.restored(max_orders).sound(),
{
    let view = state.restored(max_orders);
    let accounts = state.accounts@;
    let reservations = state.reservations@;
    assert forall|i: int, j: int|
        0 <= i < accounts.len() && 0 <= j < accounts.len() && (#[trigger] accounts[i]).id == (
        #[trigger] accounts[j]).id implies i == j by {
        if i < j {
            lemma_accounts_ascend(accounts, accounts.len() as int, i, j);
        } else if j < i {
            lemma_accounts_ascend(accounts, accounts.len() as int, j, i);
        }
    }
    assert forall|a: int, b: int|
        0 <= a < view.slots.len() && 0 <= b < view.slots.len() && (#[trigger] view.slots[a]) is Some
            && (#[trigger] view.slots[b]) is Some && view.slots[a]->0.order_id
            == view.slots[b]->0.order_id implies a == b by {
        if a < b {
            lemma_reservations_ascend(reservations, reservations.len() as int, a, b);
        } else if b < a {
            lemma_reservations_ascend(reservations, reservations.len() as int, b, a);
        }
    }
    assert forall|s: int| 0 <= s < view.slots.len() && (#[trigger] view.slots[s]) is Some implies {
        &&& view.has_account(view.slots[s]->0.account_id)
        &&& view.maximum_order_id is Some
        &&& view.slots[s]->0.order_id.0 <= (view.maximum_order_id->0).0
    } by {
        let owner = reservations[s].account_id;
        assert(knows(accounts, owner));
        let i = choose|i: int| 0 <= i < accounts.len() && (#[trigger] accounts[i]).id == owner;
        assert(view.is_account(owner, i));
        if s < reservations.len() - 1 {
            lemma_reservations_ascend(
                reservations,
                reservations.len() as int,
                s,
                reservations.len() - 1,
            );
        }
    }
    assert forall|i: int| 0 <= i < view.accounts.len() implies account_balanced(
        #[trigger] view.accounts[i],
        view.slots,
    ) && limits_valid(view.accounts[i].limits) by {
        lemma_totals_sound(accounts, reservations, accounts.len() as int, i);
        lemma_padding(reservations, view.slots, accounts[i].id, Side::Buy);
        lemma_padding(reservations, view.slots, accounts[i].id, Side::Sell);
    }
}

impl<const ACCOUNTS: usize, const ORDERS: usize> RiskEngine<ACCOUNTS, ORDERS> {
    /// The canonical logical state of the engine.
    #[must_use]
    pub fn export_state(&self) -> (state: RiskEngineState)
        requires
            self.wf(),
        ensures
            exports(state, self@),
    {
        let mut accounts: Vec<AccountRiskState> = Vec::new();
        let mut i: usize = 0;
        while i < self.accounts.len()
            invariant
                self.wf(),
                i <= self.accounts@.len(),
                accounts_ascend(accounts@),
                accounts@.len() == i,
                forall|account: AccountRiskState| #[trigger]
                    accounts@.contains(account) <==> self.accounts@.take(i as int).contains(
                        account,
                    ),
            decreases self.accounts.len() - i,
        {
            let account = self.accounts[i];
            let ghost done = self.accounts@.take(i as int);
            assert forall|j: int| 0 <= j < accounts@.len() implies (#[trigger] accounts@[j]).id
                != account.id by {
                assert(accounts@.contains(accounts@[j]));
                assert(done.contains(accounts@[j]));
                let m = choose|m: int| 0 <= m < done.len() && done[m] == accounts@[j];
                assert(self@.accounts[m] == done[m]);
                assert(self@.accounts[i as int] == account);
            }
            insert_account(&mut accounts, account);
            assert forall|other: AccountRiskState| #[trigger] accounts@.contains(other)
                <==> self.accounts@.take(i + 1).contains(other) by {
                let next = self.accounts@.take(i + 1);
                assert(next =~= done.push(account));
                if done.contains(other) {
                    let m = choose|m: int| 0 <= m < done.len() && done[m] == other;
                    assert(next[m] == other);
                }
                if other == account {
                    assert(next[i as int] == other);
                }
                if next.contains(other) && other != account {
                    let m = choose|m: int| 0 <= m < next.len() && next[m] == other;
                    assert(done[m] == other);
                }
            }
            i = i + 1;
        }
        assert(self.accounts@.take(i as int) =~= self.accounts@);
        let mut reservations: Vec<ReservationRiskState> = Vec::new();
        let mut s: usize = 0;
        let ghost slots = self.pool.slots();
        proof {
            self.law_sound();
            assert(slots.take(0) =~= Seq::empty());
        }
        while s < ORDERS
            invariant
                self.wf(),
                self.pool.wf(),
                slots == self.pool.slots(),
                slots == self@.slots,
                slots.len() == ORDERS,
                s <= ORDERS,
                reservations_ascend(reservations@),
                reservations@.len() == live_total(slots.take(s as int)),
                forall|reservation: ReservationRiskState| #[trigger]
                    reservations@.contains(reservation) <==> held(
                        slots.take(s as int),
                        reservation,
                    ),
            decreases ORDERS - s,
        {
            let ghost done = slots.take(s as int);
            let ghost next = slots.take(s + 1);
            proof {
                assert(next.drop_last() =~= done);
                assert(next.last() == slots[s as int]);
                assert forall|other: ReservationRiskState| #[trigger] held(next, other) <==> held(
                    done,
                    other,
                ) || slots[s as int] == Some(other) by {
                    if held(done, other) {
                        let m = choose|m: int| 0 <= m < done.len() && #[trigger] done[m] == Some(
                            other,
                        );
                        assert(next[m] == Some(other));
                    }
                    if slots[s as int] == Some(other) {
                        assert(next[s as int] == Some(other));
                    }
                    if held(next, other) {
                        let m = choose|m: int| 0 <= m < next.len() && #[trigger] next[m] == Some(
                            other,
                        );
                        if m < s {
                            assert(done[m] == Some(other));
                        }
                    }
                }
            }
            if let Some(reservation) = self.pool.get(s) {
                assert forall|j: int| 0 <= j < reservations@.len() implies (
                #[trigger] reservations@[j]).order_id != reservation.order_id by {
                    assert(reservations@.contains(reservations@[j]));
                    assert(held(done, reservations@[j]));
                    let m = choose|m: int| 0 <= m < done.len() && #[trigger] done[m] == Some(
                        reservations@[j],
                    );
                    assert(self@.slots[m] is Some && self@.slots[s as int] is Some);
                }
                insert_reservation(&mut reservations, reservation);
            }
            s = s + 1;
        }
        assert(slots.take(s as int) =~= slots);
        RiskEngineState {
            accounts,
            reservations,
            maximum_order_id: self.maximum_order_id,
            killed: self.killed,
        }
    }

    /// Rebuilds risk state from logical records without retaining storage
    /// slots or index positions from the source engine. A faulty state builds
    /// nothing and reports its first fault.
    pub fn from_state(state: &RiskEngineState) -> (outcome: Result<Self, RiskStateError>)
        requires
            planes_fit(ACCOUNTS, INDEX_PLANES),
            planes_fit(ORDERS, INDEX_PLANES),
        ensures
            match state.fault(ACCOUNTS as nat, ORDERS as nat) {
                Some(error) => outcome is Err && outcome->Err_0 == error,
                None => {
                    &&& outcome is Ok
                    &&& outcome->Ok_0.wf()
                    &&& outcome->Ok_0@ == state.restored(ORDERS as nat)
                },
            },
    {
        if let Some(error) = state.validate(ACCOUNTS, ORDERS) {
            return Err(error);
        }
        let ghost records = state.accounts@;
        let ghost reserved = state.reservations@;
        let mut engine: RiskEngine<ACCOUNTS, ORDERS> = RiskEngine::new();
        engine.killed = state.killed;
        engine.maximum_order_id = state.maximum_order_id;
        let mut i: usize = 0;
        while i < state.accounts.len()
            invariant
                records == state.accounts@,
                state.fault(ACCOUNTS as nat, ORDERS as nat) is None,
                i <= records.len(),
                engine.accounts_wf(),
                engine.accounts@ == records.take(i as int),
                engine.pool.wf(),
                engine.pool.slots() == Seq::new(
                    ORDERS as nat,
                    |s: int| None::<ReservationRiskState>,
                ),
                engine.pool.free() == Seq::new(ORDERS as nat, |s: int| s as usize),
                engine.killed == state.killed,
                engine.maximum_order_id == state.maximum_order_id,
            decreases state.accounts.len() - i,
        {
            let account = state.accounts[i];
            let key: u64 = account.id.0 as u64;
            let ghost before = engine;
            proof {
                before.lemma_account_spare();
                if before.account_index@.contains_key(key) {
                    assert(before.account_found(key));
                    let j = before.account_index@[key] as int;
                    lemma_accounts_ascend(records, records.len() as int, j, i as int);
                }
            }
            match engine.account_index.insert(key, i) {
                Ok(index_slot) => {},
                Err(error) => {
                    assert(false);
                },
            }
            engine.accounts.push(account);
            proof {
                assert(engine.accounts@ =~= records.take(i + 1));
                assert forall|k: u64| #[trigger] engine.account_index@.contains_key(k) implies engine.account_found(
                k) by {
                    if k != key {
                        assert(before.account_index@.contains_key(k));
                        assert(before.account_found(k));
                    }
                }
                assert forall|j: int| 0 <= j < engine.accounts@.len() implies {
                    let held_account = #[trigger] engine.accounts@[j];
                    engine.account_filed(j)
                } by {
                    if j < i {
                        let earlier = before.accounts@[j];
                        assert(before.account_filed(j));
                        lemma_accounts_ascend(records, records.len() as int, j, i as int);
                    }
                }
            }
            i = i + 1;
        }
        let ghost target = state.restored(ORDERS as nat);
        let mut n: usize = 0;
        while n < state.reservations.len()
            invariant
                records == state.accounts@,
                reserved == state.reservations@,
                state.fault(ACCOUNTS as nat, ORDERS as nat) is None,
                engine.accounts_wf(),
                i == records.len(),
                engine.accounts@ == records.take(i as int),
                n <= reserved.len() <= ORDERS,
                engine.pool.wf(),
                engine.pool.slots() == Seq::new(
                    ORDERS as nat,
                    |s: int|
                        if s < n {
                            Some(reserved[s])
                        } else {
                            None
                        },
                ),
                engine.pool.free() == Seq::new((ORDERS - n) as nat, |j: int| (n + j) as usize),
                engine.killed == state.killed,
                engine.maximum_order_id == state.maximum_order_id,
            decreases state.reservations.len() - n,
        {
            let reservation = state.reservations[n];
            let ghost before = engine;
            proof {
                assert(!engine.pool.has_order(reservation.order_id)) by {
                    if engine.pool.has_order(reservation.order_id) {
                        let s = choose|s: int|
                            0 <= s < engine.pool.slots().len() && (
                            #[trigger] engine.pool.slots()[s]) is Some
                                && engine.pool.slots()[s]->0.order_id == reservation.order_id;
                        lemma_reservations_ascend(
                            reserved,
                            reserved.len() as int,
                            s,
                            n as int,
                        );
                    }
                }
            }
            let slot: usize = engine.pool.allocate(reservation);
            proof {
                assert(engine.pool.slots() =~= Seq::new(
                    ORDERS as nat,
                    |s: int|
                        if s < n + 1 {
                            Some(reserved[s])
                        } else {
                            None
                        },
                ));
                assert(engine.pool.free() =~= Seq::new(
                    (ORDERS - (n + 1)) as nat,
                    |j: int| (n + 1 + j) as usize,
                ));
                engine.lemma_same_accounts(before);
            }
            n = n + 1;
        }
        proof {
            assert(records.take(i as int) =~= records);
            assert(engine@ =~= target);
            lemma_restored_sound(*state, ACCOUNTS as nat, ORDERS as nat);
        }
        Ok(engine)
    }
}

} // verus!
