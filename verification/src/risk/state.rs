//! What makes an exported risk state valid, and what it describes.

use vstd::prelude::*;

use crate::risk::engine::check_position;
use crate::risk::model::{exposure, limits_valid, open_count, position_fault, RiskView};
use crate::risk::{
    AccountRiskState, ReservationRiskState, RiskEngineState, RiskLimits, RiskStateError,
};
use crate::types::{AccountId, RejectReason, Side};

verus! {

/// Reservations one after the other, as slots.
pub open spec fn as_slots(reservations: Seq<ReservationRiskState>) -> Seq<
    Option<ReservationRiskState>,
> {
    Seq::new(reservations.len(), |i: int| Some(reservations[i]))
}

/// What is wrong with the order of the first `n` accounts.
pub open spec fn account_order_fault(accounts: Seq<AccountRiskState>, n: int) -> Option<
    RiskStateError,
>
    decreases n,
{
    if n <= 1 {
        None
    } else {
        match account_order_fault(accounts, n - 1) {
            Some(error) => Some(error),
            None => if accounts[n - 2].id == accounts[n - 1].id {
                Some(RiskStateError::DuplicateAccount)
            } else if accounts[n - 2].id.0 > accounts[n - 1].id.0 {
                Some(RiskStateError::NonCanonical)
            } else {
                None
            },
        }
    }
}

/// What is wrong with the order of the first `n` reservations.
pub open spec fn reservation_order_fault(reservations: Seq<ReservationRiskState>, n: int) -> Option<
    RiskStateError,
>
    decreases n,
{
    if n <= 1 {
        None
    } else {
        match reservation_order_fault(reservations, n - 1) {
            Some(error) => Some(error),
            None => if reservations[n - 2].order_id == reservations[n - 1].order_id {
                Some(RiskStateError::DuplicateOrder)
            } else if reservations[n - 2].order_id.0 > reservations[n - 1].order_id.0 {
                Some(RiskStateError::NonCanonical)
            } else {
                None
            },
        }
    }
}

/// What is wrong with the totals of one account.
pub open spec fn account_fault(
    account: AccountRiskState,
    reservations: Seq<ReservationRiskState>,
) -> Option<RiskStateError> {
    let slots = as_slots(reservations);
    if account.reserved_buys != exposure(slots, account.id, Side::Buy) || account.reserved_sells
        != exposure(slots, account.id, Side::Sell) {
        Some(RiskStateError::ExposureMismatch)
    } else if account.open_orders != open_count(slots, account.id) || account.open_orders
        > account.limits.max_open_orders {
        Some(RiskStateError::OpenOrderMismatch)
    } else {
        match position_fault(
            account.settled_position as int,
            account.reserved_buys as int,
            account.reserved_sells as int,
            account.limits.max_abs_position.0 as int,
        ) {
            Some(RejectReason::ArithmeticOverflow) => Some(RiskStateError::ArithmeticOverflow),
            Some(_) => Some(RiskStateError::PositionLimit),
            None => None,
        }
    }
}

/// What is wrong with the totals of the first faulty one of the first `n`
/// accounts.
pub open spec fn totals_fault(
    accounts: Seq<AccountRiskState>,
    reservations: Seq<ReservationRiskState>,
    n: int,
) -> Option<RiskStateError>
    decreases n,
{
    if n <= 0 {
        None
    } else {
        match totals_fault(accounts, reservations, n - 1) {
            Some(error) => Some(error),
            None => account_fault(accounts[n - 1], reservations),
        }
    }
}

pub open spec fn knows(accounts: Seq<AccountRiskState>, id: AccountId) -> bool {
    exists|i: int| 0 <= i < accounts.len() && (#[trigger] accounts[i]).id == id
}

impl RiskEngineState {
    /// The first capacity, identity, limit, ownership, watermark or exposure
    /// fault of the state.
    pub open spec fn fault(self, max_accounts: nat, max_orders: nat) -> Option<RiskStateError> {
        let accounts = self.accounts@;
        let reservations = self.reservations@;
        let account_order = account_order_fault(accounts, accounts.len() as int);
        let reservation_order = reservation_order_fault(reservations, reservations.len() as int);
        if accounts.len() > max_accounts {
            Some(RiskStateError::AccountCapacity)
        } else if reservations.len() > max_orders {
            Some(RiskStateError::ReservationCapacity)
        } else if account_order is Some {
            account_order
        } else if exists|i: int|
            0 <= i < accounts.len() && !limits_valid((#[trigger] accounts[i]).limits) {
            Some(RiskStateError::InvalidLimits)
        } else if reservation_order is Some {
            reservation_order
        } else if exists|i: int|
            0 <= i < reservations.len() && (#[trigger] reservations[i]).quantity.0 == 0 {
            Some(RiskStateError::InvalidQuantity)
        } else if reservations.len() > 0 && (self.maximum_order_id is None || (
        self.maximum_order_id->0).0 < reservations.last().order_id.0) {
            Some(RiskStateError::InvalidWatermark)
        } else if exists|i: int|
            0 <= i < reservations.len() && !knows(
                accounts,
                (#[trigger] reservations[i]).account_id,
            ) {
            Some(RiskStateError::UnknownAccount)
        } else {
            totals_fault(accounts, reservations, accounts.len() as int)
        }
    }

    /// The engine state that the record describes: accounts and reservations in
    /// their canonical order, then the free slots.
    pub open spec fn restored(self, max_orders: nat) -> RiskView {
        let n = self.reservations@.len();
        RiskView {
            accounts: self.accounts@,
            slots: Seq::new(
                max_orders,
                |s: int|
                    if s < n {
                        Some(self.reservations@[s])
                    } else {
                        None
                    },
            ),
            free: Seq::new((max_orders - n) as nat, |i: int| (n + i) as usize),
            maximum_order_id: self.maximum_order_id,
            killed: self.killed,
        }
    }
}

/// Accounts without order fault ascend strictly.
pub proof fn lemma_accounts_ascend(accounts: Seq<AccountRiskState>, n: int, i: int, j: int)
    requires
        account_order_fault(accounts, n) is None,
        0 <= i < j < n,
    ensures
        accounts[i].id.0 < accounts[j].id.0,
    decreases n,
{
    if j < n - 1 {
        lemma_accounts_ascend(accounts, n - 1, i, j);
    } else if i < j - 1 {
        lemma_accounts_ascend(accounts, n - 1, i, j - 1);
    }
}

/// Reservations without order fault ascend strictly.
pub proof fn lemma_reservations_ascend(
    reservations: Seq<ReservationRiskState>,
    n: int,
    i: int,
    j: int,
)
    requires
        reservation_order_fault(reservations, n) is None,
        0 <= i < j < n,
    ensures
        reservations[i].order_id.0 < reservations[j].order_id.0,
    decreases n,
{
    if j < n - 1 {
        lemma_reservations_ascend(reservations, n - 1, i, j);
    } else if i < j - 1 {
        lemma_reservations_ascend(reservations, n - 1, i, j - 1);
    }
}

proof fn lemma_account_order_prefix(accounts: Seq<AccountRiskState>, n: int, m: int)
    requires
        n <= m,
        account_order_fault(accounts, n) is Some,
    ensures
        account_order_fault(accounts, m) == account_order_fault(accounts, n),
    decreases m - n,
{
    if n < m {
        lemma_account_order_prefix(accounts, n, m - 1);
    }
}

proof fn lemma_reservation_order_prefix(reservations: Seq<ReservationRiskState>, n: int, m: int)
    requires
        n <= m,
        reservation_order_fault(reservations, n) is Some,
    ensures
        reservation_order_fault(reservations, m) == reservation_order_fault(reservations, n),
    decreases m - n,
{
    if n < m {
        lemma_reservation_order_prefix(reservations, n, m - 1);
    }
}

proof fn lemma_totals_prefix(
    accounts: Seq<AccountRiskState>,
    reservations: Seq<ReservationRiskState>,
    n: int,
    m: int,
)
    requires
        n <= m,
        totals_fault(accounts, reservations, n) is Some,
    ensures
        totals_fault(accounts, reservations, m) == totals_fault(accounts, reservations, n),
    decreases m - n,
{
    if n < m {
        lemma_totals_prefix(accounts, reservations, n, m - 1);
    }
}

/// Totals without fault are each without fault.
pub proof fn lemma_totals_sound(
    accounts: Seq<AccountRiskState>,
    reservations: Seq<ReservationRiskState>,
    n: int,
    i: int,
)
    requires
        totals_fault(accounts, reservations, n) is None,
        0 <= i < n,
    ensures
        account_fault(accounts[i], reservations) is None,
    decreases n,
{
    if i < n - 1 {
        lemma_totals_sound(accounts, reservations, n - 1, i);
    }
}

fn check_account_order(accounts: &Vec<AccountRiskState>) -> (fault: Option<RiskStateError>)
    ensures
        fault == account_order_fault(accounts@, accounts@.len() as int),
{
    let mut n: usize = 1;
    while n < accounts.len()
        invariant
            1 <= n,
            n <= accounts@.len() || accounts@.len() == 0,
            account_order_fault(accounts@, n as int) is None,
        decreases accounts.len() - n,
    {
        let earlier = accounts[n - 1].id;
        let later = accounts[n].id;
        if earlier.0 == later.0 {
            proof {
                assert(accounts@[n - 1].id == accounts@[n as int].id);
                lemma_account_order_prefix(accounts@, n + 1, accounts@.len() as int);
            }
            return Some(RiskStateError::DuplicateAccount);
        }
        if earlier.0 > later.0 {
            proof {
                lemma_account_order_prefix(accounts@, n + 1, accounts@.len() as int);
            }
            return Some(RiskStateError::NonCanonical);
        }
        n = n + 1;
    }
    None
}

fn check_reservation_order(reservations: &Vec<ReservationRiskState>) -> (fault: Option<
    RiskStateError,
>)
    ensures
        fault == reservation_order_fault(reservations@, reservations@.len() as int),
{
    let mut n: usize = 1;
    while n < reservations.len()
        invariant
            1 <= n,
            n <= reservations@.len() || reservations@.len() == 0,
            reservation_order_fault(reservations@, n as int) is None,
        decreases reservations.len() - n,
    {
        let earlier = reservations[n - 1].order_id;
        let later = reservations[n].order_id;
        if earlier.0 == later.0 {
            proof {
                assert(reservations@[n - 1].order_id == reservations@[n as int].order_id);
                lemma_reservation_order_prefix(reservations@, n + 1, reservations@.len() as int);
            }
            return Some(RiskStateError::DuplicateOrder);
        }
        if earlier.0 > later.0 {
            proof {
                lemma_reservation_order_prefix(reservations@, n + 1, reservations@.len() as int);
            }
            return Some(RiskStateError::NonCanonical);
        }
        n = n + 1;
    }
    None
}

fn admissible(limits: &RiskLimits) -> (valid: bool)
    ensures
        valid == limits_valid(*limits),
{
    limits.max_quantity.0 > 0 && limits.max_open_orders > 0 && limits.minimum_price.0
        <= limits.maximum_price.0
}

fn check_limits(accounts: &Vec<AccountRiskState>) -> (valid: bool)
    ensures
        valid == !exists|i: int|
            0 <= i < accounts@.len() && !limits_valid((#[trigger] accounts@[i]).limits),
{
    let mut i: usize = 0;
    while i < accounts.len()
        invariant
            i <= accounts@.len(),
            forall|j: int| 0 <= j < i ==> limits_valid((#[trigger] accounts@[j]).limits),
        decreases accounts.len() - i,
    {
        if !admissible(&accounts[i].limits) {
            assert(!limits_valid(accounts@[i as int].limits));
            return false;
        }
        i = i + 1;
    }
    true
}

fn check_quantities(reservations: &Vec<ReservationRiskState>) -> (valid: bool)
    ensures
        valid == !exists|i: int|
            0 <= i < reservations@.len() && (#[trigger] reservations@[i]).quantity.0 == 0,
{
    let mut i: usize = 0;
    while i < reservations.len()
        invariant
            i <= reservations@.len(),
            forall|j: int| 0 <= j < i ==> (#[trigger] reservations@[j]).quantity.0 != 0,
        decreases reservations.len() - i,
    {
        if reservations[i].quantity.0 == 0 {
            assert(reservations@[i as int].quantity.0 == 0);
            return false;
        }
        i = i + 1;
    }
    true
}

fn is_known(accounts: &Vec<AccountRiskState>, id: AccountId) -> (known: bool)
    ensures
        known == knows(accounts@, id),
{
    let mut i: usize = 0;
    while i < accounts.len()
        invariant
            i <= accounts@.len(),
            forall|j: int| 0 <= j < i ==> (#[trigger] accounts@[j]).id != id,
        decreases accounts.len() - i,
    {
        if accounts[i].id.0 == id.0 {
            assert(accounts@[i as int].id == id);
            return true;
        }
        i = i + 1;
    }
    false
}

fn check_owners(
    accounts: &Vec<AccountRiskState>,
    reservations: &Vec<ReservationRiskState>,
) -> (valid: bool)
    ensures
        valid == !exists|i: int|
            0 <= i < reservations@.len() && !knows(
                accounts@,
                (#[trigger] reservations@[i]).account_id,
            ),
{
    let mut i: usize = 0;
    while i < reservations.len()
        invariant
            i <= reservations@.len(),
            forall|j: int|
                0 <= j < i ==> knows(accounts@, (#[trigger] reservations@[j]).account_id),
        decreases reservations.len() - i,
    {
        if !is_known(accounts, reservations[i].account_id) {
            assert(!knows(accounts@, reservations@[i as int].account_id));
            return false;
        }
        i = i + 1;
    }
    true
}

/// Holds one account's totals to the reservations.
fn validate_account_state(
    account: &AccountRiskState,
    reservations: &Vec<ReservationRiskState>,
) -> (fault: Option<RiskStateError>)
    requires
        reservations@.len() * 2 <= u32::MAX,
    ensures
        fault == account_fault(*account, reservations@),
{
    let ghost slots = as_slots(reservations@);
    let mut buys: u128 = 0;
    let mut sells: u128 = 0;
    let mut open: u32 = 0;
    let mut i: usize = 0;
    assert(slots.take(0) =~= Seq::empty());
    while i < reservations.len()
        invariant
            i <= reservations@.len(),
            reservations@.len() * 2 <= u32::MAX,
            slots == as_slots(reservations@),
            buys == exposure(slots.take(i as int), account.id, Side::Buy),
            sells == exposure(slots.take(i as int), account.id, Side::Sell),
            open == open_count(slots.take(i as int), account.id),
            buys <= i * u64::MAX,
            sells <= i * u64::MAX,
            open <= i,
        decreases reservations.len() - i,
    {
        let reservation = reservations[i];
        proof {
            assert(slots.take(i + 1).drop_last() =~= slots.take(i as int));
            assert(slots.take(i + 1).last() == Some(reservation));
            assert((i + 1) * u64::MAX == i * u64::MAX + u64::MAX) by (nonlinear_arith);
            assert(i * u64::MAX + u64::MAX <= i128::MAX) by (nonlinear_arith)
                requires
                    i <= u32::MAX,
            ;
        }
        if reservation.account_id.0 == account.id.0 {
            match reservation.side {
                Side::Buy => {
                    buys = buys + reservation.quantity.0 as u128;
                },
                Side::Sell => {
                    sells = sells + reservation.quantity.0 as u128;
                },
            }
            open = open + 1;
        }
        i = i + 1;
    }
    proof {
        assert(slots.take(i as int) =~= slots);
        assert(i * u64::MAX <= i128::MAX) by (nonlinear_arith)
            requires
                i <= u32::MAX,
        ;
    }
    if buys != account.reserved_buys || sells != account.reserved_sells {
        return Some(RiskStateError::ExposureMismatch);
    }
    if open != account.open_orders || open > account.limits.max_open_orders {
        return Some(RiskStateError::OpenOrderMismatch);
    }
    match check_position(
        account.settled_position,
        buys,
        sells,
        account.limits.max_abs_position.0,
    ) {
        Some(RejectReason::ArithmeticOverflow) => Some(RiskStateError::ArithmeticOverflow),
        Some(reason) => Some(RiskStateError::PositionLimit),
        None => None,
    }
}

impl RiskEngineState {
    /// The first capacity, identity, limit, ownership, watermark or exposure
    /// fault of the state.
    pub fn validate(&self, max_accounts: usize, max_orders: usize) -> (fault: Option<
        RiskStateError,
    >)
        requires
            max_orders * 2 <= u32::MAX,
        ensures
            fault == self.fault(max_accounts as nat, max_orders as nat),
    {
        if self.accounts.len() > max_accounts {
            return Some(RiskStateError::AccountCapacity);
        }
        if self.reservations.len() > max_orders {
            return Some(RiskStateError::ReservationCapacity);
        }
        if let Some(error) = check_account_order(&self.accounts) {
            return Some(error);
        }
        if !check_limits(&self.accounts) {
            return Some(RiskStateError::InvalidLimits);
        }
        if let Some(error) = check_reservation_order(&self.reservations) {
            return Some(error);
        }
        if !check_quantities(&self.reservations) {
            return Some(RiskStateError::InvalidQuantity);
        }
        if self.reservations.len() > 0 {
            let last = self.reservations[self.reservations.len() - 1].order_id;
            match self.maximum_order_id {
                None => {
                    return Some(RiskStateError::InvalidWatermark);
                },
                Some(maximum) => {
                    if maximum.0 < last.0 {
                        return Some(RiskStateError::InvalidWatermark);
                    }
                },
            }
        }
        if !check_owners(&self.accounts, &self.reservations) {
            return Some(RiskStateError::UnknownAccount);
        }
        let ghost sound_so_far = self.fault(max_accounts as nat, max_orders as nat)
            == totals_fault(self.accounts@, self.reservations@, self.accounts@.len() as int);
        assert(sound_so_far);
        let mut n: usize = 0;
        while n < self.accounts.len()
            invariant
                n <= self.accounts@.len(),
                self.reservations@.len() * 2 <= u32::MAX,
                totals_fault(self.accounts@, self.reservations@, n as int) is None,
                self.fault(max_accounts as nat, max_orders as nat) == totals_fault(
                    self.accounts@,
                    self.reservations@,
                    self.accounts@.len() as int,
                ),
            decreases self.accounts.len() - n,
        {
            if let Some(error) = validate_account_state(&self.accounts[n], &self.reservations) {
                proof {
                    lemma_totals_prefix(
                        self.accounts@,
                        self.reservations@,
                        n + 1,
                        self.accounts@.len() as int,
                    );
                }
                return Some(error);
            }
            n = n + 1;
        }
        None
    }
}

} // verus!
