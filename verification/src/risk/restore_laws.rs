//! Which states describe a risk engine, and which engine they describe.

use vstd::prelude::*;

use crate::risk::model::{exposure, limits_valid, open_count};
use crate::risk::state::{
    account_fault, account_order_fault, as_slots, knows, lemma_accounts_ascend,
    lemma_reservations_ascend, reservation_order_fault, totals_fault,
};
use crate::risk::{AccountRiskState, ReservationRiskState, RiskEngineState, RiskStateError};
use crate::types::{AccountId, Side};

verus! {

/// What the reservations hold for an account on one side.
pub open spec fn reserved_sum(
    reservations: Seq<ReservationRiskState>,
    account: AccountId,
    side: Side,
) -> nat
    decreases reservations.len(),
{
    if reservations.len() == 0 {
        0
    } else {
        let last = reservations[reservations.len() - 1];
        reserved_sum(reservations.take(reservations.len() - 1), account, side) + if last.account_id
            == account && last.side == side {
            last.quantity.0 as nat
        } else {
            0
        }
    }
}

/// How many of the reservations are those of an account.
pub open spec fn reserved_orders(
    reservations: Seq<ReservationRiskState>,
    account: AccountId,
) -> nat
    decreases reservations.len(),
{
    if reservations.len() == 0 {
        0
    } else {
        let last = reservations[reservations.len() - 1];
        reserved_orders(reservations.take(reservations.len() - 1), account) + if last.account_id
            == account {
            1nat
        } else {
            0
        }
    }
}

proof fn lemma_sums(reservations: Seq<ReservationRiskState>, account: AccountId)
    ensures
        exposure(as_slots(reservations), account, Side::Buy) == reserved_sum(
            reservations,
            account,
            Side::Buy,
        ),
        exposure(as_slots(reservations), account, Side::Sell) == reserved_sum(
            reservations,
            account,
            Side::Sell,
        ),
        open_count(as_slots(reservations), account) == reserved_orders(reservations, account),
    decreases reservations.len(),
{
    if reservations.len() > 0 {
        let init = reservations.take(reservations.len() - 1);
        lemma_sums(init, account);
        assert(as_slots(reservations).drop_last() =~= as_slots(init));
    }
}

/// The totals of an account are those of its reservations, it has no more open orders
/// than it may have, and it keeps within its position limit whichever of them trade.
pub open spec fn account_fits(
    account: AccountRiskState,
    reservations: Seq<ReservationRiskState>,
) -> bool {
    let limit = account.limits.max_abs_position.0 as int;
    &&& account.reserved_buys == reserved_sum(reservations, account.id, Side::Buy)
    &&& account.reserved_sells == reserved_sum(reservations, account.id, Side::Sell)
    &&& account.open_orders == reserved_orders(reservations, account.id)
    &&& account.open_orders <= account.limits.max_open_orders
    &&& account.settled_position + account.reserved_buys <= limit
    &&& account.settled_position - account.reserved_sells >= -limit
}

/// What is wrong with an account's totals, each fault with its cause: the first of the
/// causes that holds.
pub proof fn law_account_faults(
    account: AccountRiskState,
    reservations: Seq<ReservationRiskState>,
)
    ensures
        ({
            let fault = account_fault(account, reservations);
            let balanced = account.reserved_buys == reserved_sum(
                reservations,
                account.id,
                Side::Buy,
            ) && account.reserved_sells == reserved_sum(reservations, account.id, Side::Sell);
            let counted = balanced && account.open_orders == reserved_orders(
                reservations,
                account.id,
            ) && account.open_orders <= account.limits.max_open_orders;
            let longest = account.settled_position + account.reserved_buys;
            let shortest = account.settled_position - account.reserved_sells;
            let computed = longest <= i128::MAX && shortest >= i128::MIN;
            let held = longest <= account.limits.max_abs_position.0 && shortest >= -(
            account.limits.max_abs_position.0 as int);
            &&& !balanced <==> fault == Some(RiskStateError::ExposureMismatch)
            &&& balanced && !counted <==> fault == Some(RiskStateError::OpenOrderMismatch)
            &&& counted && !computed <==> fault == Some(RiskStateError::ArithmeticOverflow)
            &&& counted && computed && !held <==> fault == Some(RiskStateError::PositionLimit)
            &&& counted && computed && held <==> fault is None
        }),
{
    lemma_sums(reservations, account.id);
}

proof fn lemma_totals(
    accounts: Seq<AccountRiskState>,
    reservations: Seq<ReservationRiskState>,
    n: int,
)
    requires
        0 <= n <= accounts.len(),
    ensures
        totals_fault(accounts, reservations, n) is None <==> forall|i: int|
            0 <= i < n ==> account_fits(#[trigger] accounts[i], reservations),
    decreases n,
{
    if n > 0 {
        lemma_totals(accounts, reservations, n - 1);
        law_account_faults(accounts[n - 1], reservations);
        if forall|i: int| 0 <= i < n ==> account_fits(#[trigger] accounts[i], reservations) {
            assert(account_fits(accounts[n - 1], reservations));
        }
    }
}

proof fn lemma_accounts(accounts: Seq<AccountRiskState>, n: int)
    requires
        0 <= n <= accounts.len(),
    ensures
        account_order_fault(accounts, n) is None <==> forall|i: int, j: int|
            0 <= i < j < n ==> (#[trigger] accounts[i]).id.0 < (#[trigger] accounts[j]).id.0,
    decreases n,
{
    if account_order_fault(accounts, n) is None {
        assert forall|i: int, j: int| 0 <= i < j < n implies (#[trigger] accounts[i]).id.0 < (
        #[trigger] accounts[j]).id.0 by {
            lemma_accounts_ascend(accounts, n, i, j);
        }
    }
    if n > 1 {
        lemma_accounts(accounts, n - 1);
        if forall|i: int, j: int|
            0 <= i < j < n ==> (#[trigger] accounts[i]).id.0 < (#[trigger] accounts[j]).id.0 {
            assert(accounts[n - 2].id.0 < accounts[n - 1].id.0);
        }
    }
}

proof fn lemma_reservations(reservations: Seq<ReservationRiskState>, n: int)
    requires
        0 <= n <= reservations.len(),
    ensures
        reservation_order_fault(reservations, n) is None <==> forall|i: int, j: int|
            0 <= i < j < n ==> (#[trigger] reservations[i]).order_id.0 < (
            #[trigger] reservations[j]).order_id.0,
    decreases n,
{
    if reservation_order_fault(reservations, n) is None {
        assert forall|i: int, j: int| 0 <= i < j < n implies (
        #[trigger] reservations[i]).order_id.0 < (#[trigger] reservations[j]).order_id.0 by {
            lemma_reservations_ascend(reservations, n, i, j);
        }
    }
    if n > 1 {
        lemma_reservations(reservations, n - 1);
        if forall|i: int, j: int|
            0 <= i < j < n ==> (#[trigger] reservations[i]).order_id.0 < (
            #[trigger] reservations[j]).order_id.0 {
            assert(reservations[n - 2].order_id.0 < reservations[n - 1].order_id.0);
        }
    }
}

/// A state is accepted exactly when it is that of an engine: accounts and reservations
/// fit the capacities and ascend by identifier; every limit admits some order; every
/// reservation has something left, an account, and a number up to the watermark; and
/// every account's totals fit its reservations and its limits.
pub proof fn law_accepted_states(state: RiskEngineState, max_accounts: nat, max_orders: nat)
    ensures
        state.fault(max_accounts, max_orders) is None <==> {
            let accounts = state.accounts@;
            let reservations = state.reservations@;
            &&& accounts.len() <= max_accounts
            &&& reservations.len() <= max_orders
            &&& forall|i: int, j: int|
                0 <= i < j < accounts.len() ==> (#[trigger] accounts[i]).id.0 < (
                #[trigger] accounts[j]).id.0
            &&& forall|i: int|
                0 <= i < accounts.len() ==> {
                    let limits = (#[trigger] accounts[i]).limits;
                    &&& limits.max_quantity.0 > 0
                    &&& limits.max_open_orders > 0
                    &&& limits.minimum_price.0 <= limits.maximum_price.0
                }
            &&& forall|i: int, j: int|
                0 <= i < j < reservations.len() ==> (#[trigger] reservations[i]).order_id.0 < (
                #[trigger] reservations[j]).order_id.0
            &&& forall|i: int|
                0 <= i < reservations.len() ==> {
                    let reservation = #[trigger] reservations[i];
                    &&& reservation.quantity.0 > 0
                    &&& state.maximum_order_id is Some
                    &&& reservation.order_id.0 <= (state.maximum_order_id->0).0
                    &&& exists|a: int|
                        0 <= a < accounts.len() && (#[trigger] accounts[a]).id
                            == reservation.account_id
                }
            &&& forall|i: int|
                0 <= i < accounts.len() ==> account_fits(#[trigger] accounts[i], reservations)
        },
{
    let accounts = state.accounts@;
    let reservations = state.reservations@;
    lemma_accounts(accounts, accounts.len() as int);
    lemma_reservations(reservations, reservations.len() as int);
    lemma_totals(accounts, reservations, accounts.len() as int);
    if state.fault(max_accounts, max_orders) is None {
        assert forall|i: int| 0 <= i < accounts.len() implies {
            let limits = (#[trigger] accounts[i]).limits;
            &&& limits.max_quantity.0 > 0
            &&& limits.max_open_orders > 0
            &&& limits.minimum_price.0 <= limits.maximum_price.0
        } by {
            assert(limits_valid(accounts[i].limits));
        }
        assert forall|i: int| 0 <= i < reservations.len() implies {
            let reservation = #[trigger] reservations[i];
            &&& reservation.quantity.0 > 0
            &&& state.maximum_order_id is Some
            &&& reservation.order_id.0 <= (state.maximum_order_id->0).0
            &&& exists|a: int|
                0 <= a < accounts.len() && (#[trigger] accounts[a]).id == reservation.account_id
        } by {
            assert(knows(accounts, reservations[i].account_id));
            let last = reservations.len() - 1;
            if i < last {
                assert(reservations[i].order_id.0 < reservations[last].order_id.0);
            }
        }
    } else if reservations.len() > 0 {
        assert(reservations[reservations.len() - 1] == reservations.last());
    }
}

/// The engine that a state describes: its accounts, its reservations in the first
/// slots and nothing in the others, which are free in their order, its watermark and
/// its switch.
pub proof fn law_restored_engine(state: RiskEngineState, max_orders: nat, s: int)
    requires
        state.reservations@.len() <= max_orders <= usize::MAX,
        0 <= s < max_orders,
    ensures
        ({
            let view = state.restored(max_orders);
            let live = state.reservations@.len();
            &&& view.accounts == state.accounts@
            &&& view.slots.len() == max_orders
            &&& s < live ==> view.slots[s] == Some(state.reservations@[s])
            &&& s >= live ==> view.slots[s] is None
            &&& view.free.len() == max_orders - live
            &&& s >= live ==> view.free[s - live] == s
            &&& view.maximum_order_id == state.maximum_order_id
            &&& view.killed == state.killed
        }),
{
}

proof fn lemma_first_account(accounts: Seq<AccountRiskState>, p: int, n: int)
    requires
        1 <= p < n <= accounts.len(),
        forall|i: int, j: int|
            0 <= i < j < p ==> (#[trigger] accounts[i]).id.0 < (#[trigger] accounts[j]).id.0,
        accounts[p - 1].id.0 >= accounts[p].id.0,
    ensures
        account_order_fault(accounts, n) == Some(
            if accounts[p - 1].id.0 == accounts[p].id.0 {
                RiskStateError::DuplicateAccount
            } else {
                RiskStateError::NonCanonical
            },
        ),
    decreases n,
{
    if n > p + 1 {
        lemma_first_account(accounts, p, n - 1);
    } else {
        lemma_accounts(accounts, p);
    }
}

proof fn lemma_first_reservation(reservations: Seq<ReservationRiskState>, p: int, n: int)
    requires
        1 <= p < n <= reservations.len(),
        forall|i: int, j: int|
            0 <= i < j < p ==> (#[trigger] reservations[i]).order_id.0 < (
            #[trigger] reservations[j]).order_id.0,
        reservations[p - 1].order_id.0 >= reservations[p].order_id.0,
    ensures
        reservation_order_fault(reservations, n) == Some(
            if reservations[p - 1].order_id.0 == reservations[p].order_id.0 {
                RiskStateError::DuplicateOrder
            } else {
                RiskStateError::NonCanonical
            },
        ),
    decreases n,
{
    if n > p + 1 {
        lemma_first_reservation(reservations, p, n - 1);
    } else {
        lemma_reservations(reservations, p);
    }
}

proof fn lemma_first_total(
    accounts: Seq<AccountRiskState>,
    reservations: Seq<ReservationRiskState>,
    p: int,
    n: int,
)
    requires
        0 <= p < n <= accounts.len(),
        forall|i: int| 0 <= i < p ==> account_fits(#[trigger] accounts[i], reservations),
        !account_fits(accounts[p], reservations),
    ensures
        totals_fault(accounts, reservations, n) == account_fault(accounts[p], reservations),
    decreases n,
{
    law_account_faults(accounts[p], reservations);
    if n > p + 1 {
        lemma_first_total(accounts, reservations, p, n - 1);
    } else {
        lemma_totals(accounts, reservations, p);
    }
}

/// No fault of the order or of the totals is one of capacity.
proof fn lemma_order_reasons(
    accounts: Seq<AccountRiskState>,
    reservations: Seq<ReservationRiskState>,
    n: int,
)
    requires
        0 <= n <= accounts.len(),
    ensures
        account_order_fault(accounts, n) != Some(RiskStateError::AccountCapacity),
        account_order_fault(accounts, n) != Some(RiskStateError::ReservationCapacity),
        totals_fault(accounts, reservations, n) != Some(RiskStateError::AccountCapacity),
        totals_fault(accounts, reservations, n) != Some(RiskStateError::ReservationCapacity),
    decreases n,
{
    if n > 0 {
        lemma_order_reasons(accounts, reservations, n - 1);
    }
}

proof fn lemma_reservation_reasons(reservations: Seq<ReservationRiskState>, n: int)
    ensures
        reservation_order_fault(reservations, n) != Some(RiskStateError::AccountCapacity),
        reservation_order_fault(reservations, n) != Some(RiskStateError::ReservationCapacity),
    decreases n,
{
    if n > 1 {
        lemma_reservation_reasons(reservations, n - 1);
    }
}

/// Why a state is refused, each reason with its cause. The causes are looked at in
/// turn: the two capacities; the order of the accounts, at the first place `p` where
/// they do not ascend; their limits; the order of the reservations, in the same way;
/// what they have left; the watermark; their accounts; and the totals of the first
/// account `p` that do not fit.
pub proof fn law_state_faults(state: RiskEngineState, max_accounts: nat, max_orders: nat, p: int)
    ensures
        ({
            let accounts = state.accounts@;
            let reservations = state.reservations@;
            let fault = state.fault(max_accounts, max_orders);
            let roomy = accounts.len() <= max_accounts && reservations.len() <= max_orders;
            let sorted_to = |n: int|
                forall|i: int, j: int|
                    0 <= i < j < n ==> (#[trigger] accounts[i]).id.0 < (#[trigger] accounts[j]).id.0;
            let reserved_to = |n: int|
                forall|i: int, j: int|
                    0 <= i < j < n ==> (#[trigger] reservations[i]).order_id.0 < (
                    #[trigger] reservations[j]).order_id.0;
            let limited = forall|i: int|
                0 <= i < accounts.len() ==> {
                    let limits = (#[trigger] accounts[i]).limits;
                    &&& limits.max_quantity.0 > 0
                    &&& limits.max_open_orders > 0
                    &&& limits.minimum_price.0 <= limits.maximum_price.0
                };
            let listed = roomy && sorted_to(accounts.len() as int);
            let lawful = listed && limited;
            let filed = lawful && reserved_to(reservations.len() as int);
            let open = filed && forall|i: int|
                0 <= i < reservations.len() ==> (#[trigger] reservations[i]).quantity.0 > 0;
            let known_to = open && (reservations.len() > 0 ==> state.maximum_order_id is Some && (
            state.maximum_order_id->0).0 >= reservations.last().order_id.0);
            let owned = known_to && forall|i: int|
                0 <= i < reservations.len() ==> exists|a: int|
                    0 <= a < accounts.len() && (#[trigger] accounts[a]).id == (
                    #[trigger] reservations[i]).account_id;
            &&& accounts.len() > max_accounts <==> fault == Some(RiskStateError::AccountCapacity)
            &&& accounts.len() <= max_accounts && reservations.len() > max_orders <==> fault
                == Some(RiskStateError::ReservationCapacity)
            &&& roomy && 1 <= p < accounts.len() && sorted_to(p) && accounts[p - 1].id.0
                == accounts[p].id.0 ==> fault == Some(RiskStateError::DuplicateAccount)
            &&& roomy && 1 <= p < accounts.len() && sorted_to(p) && accounts[p - 1].id.0
                > accounts[p].id.0 ==> fault == Some(RiskStateError::NonCanonical)
            &&& listed && !limited ==> fault == Some(RiskStateError::InvalidLimits)
            &&& lawful && 1 <= p < reservations.len() && reserved_to(p) && reservations[p
                - 1].order_id.0 == reservations[p].order_id.0 ==> fault == Some(
                RiskStateError::DuplicateOrder,
            )
            &&& lawful && 1 <= p < reservations.len() && reserved_to(p) && reservations[p
                - 1].order_id.0 > reservations[p].order_id.0 ==> fault == Some(
                RiskStateError::NonCanonical,
            )
            &&& filed && !open ==> fault == Some(RiskStateError::InvalidQuantity)
            &&& open && !known_to ==> fault == Some(RiskStateError::InvalidWatermark)
            &&& known_to && !owned ==> fault == Some(RiskStateError::UnknownAccount)
            &&& owned && 0 <= p < accounts.len() && (forall|i: int|
                0 <= i < p ==> account_fits(#[trigger] accounts[i], reservations)) && !account_fits(
                accounts[p],
                reservations,
            ) ==> fault == account_fault(accounts[p], reservations)
        }),
{
    let accounts = state.accounts@;
    let reservations = state.reservations@;
    lemma_accounts(accounts, accounts.len() as int);
    lemma_reservations(reservations, reservations.len() as int);
    lemma_order_reasons(accounts, reservations, accounts.len() as int);
    lemma_reservation_reasons(reservations, reservations.len() as int);
    if 1 <= p < accounts.len() && accounts[p - 1].id.0 >= accounts[p].id.0 && (forall|
        i: int,
        j: int,
    |
        0 <= i < j < p ==> (#[trigger] accounts[i]).id.0 < (#[trigger] accounts[j]).id.0) {
        lemma_first_account(accounts, p, accounts.len() as int);
    }
    if 1 <= p < reservations.len() && reservations[p - 1].order_id.0 >= reservations[p].order_id.0
        && (forall|i: int, j: int|
        0 <= i < j < p ==> (#[trigger] reservations[i]).order_id.0 < (
        #[trigger] reservations[j]).order_id.0) {
        lemma_first_reservation(reservations, p, reservations.len() as int);
    }
    if 0 <= p < accounts.len() && (forall|i: int|
        0 <= i < p ==> account_fits(#[trigger] accounts[i], reservations)) && !account_fits(
        accounts[p],
        reservations,
    ) {
        lemma_first_total(accounts, reservations, p, accounts.len() as int);
    }
    assert forall|i: int| 0 <= i < reservations.len() implies (knows(
        accounts,
        (#[trigger] reservations[i]).account_id,
    ) <==> exists|a: int|
        0 <= a < accounts.len() && (#[trigger] accounts[a]).id == reservations[i].account_id) by {}
    assert forall|i: int| 0 <= i < accounts.len() implies (limits_valid(
        (#[trigger] accounts[i]).limits,
    ) <==> {
        let limits = accounts[i].limits;
        &&& limits.max_quantity.0 > 0
        &&& limits.max_open_orders > 0
        &&& limits.minimum_price.0 <= limits.maximum_price.0
    }) by {}
}

} // verus!
