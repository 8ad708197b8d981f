//! The risk state as a mathematical value, and what each request does to it.

use vstd::prelude::*;

use crate::digest::{mixed, DIGEST_SEED};
use crate::risk::{AccountRiskState, RegistrationError, ReservationRiskState, RiskLimits};
use crate::types::{AccountId, NewOrder, OrderId, PriceTicks, Quantity, RejectReason, Side};

verus! {

/// Accounts in registration order, reservations by storage slot, and the free
/// slots, next to be taken first.
#[verifier::ext_equal]
pub struct RiskView {
    pub accounts: Seq<AccountRiskState>,
    pub slots: Seq<Option<ReservationRiskState>>,
    pub free: Seq<usize>,
    pub maximum_order_id: Option<OrderId>,
    pub killed: bool,
}

/// What a slot adds to the exposure of `account` on `side`.
pub open spec fn slot_exposure(
    slot: Option<ReservationRiskState>,
    account: AccountId,
    side: Side,
) -> nat {
    match slot {
        Some(reservation) => if reservation.account_id == account && reservation.side == side {
            reservation.quantity.0 as nat
        } else {
            0
        },
        None => 0,
    }
}

/// What a slot adds to the open orders of `account`.
pub open spec fn slot_count(slot: Option<ReservationRiskState>, account: AccountId) -> nat {
    match slot {
        Some(reservation) => if reservation.account_id == account {
            1
        } else {
            0
        },
        None => 0,
    }
}

/// The reserved quantity of `account` on `side`.
pub open spec fn exposure(
    slots: Seq<Option<ReservationRiskState>>,
    account: AccountId,
    side: Side,
) -> nat
    decreases slots.len(),
{
    if slots.len() == 0 {
        0
    } else {
        exposure(slots.drop_last(), account, side) + slot_exposure(slots.last(), account, side)
    }
}

/// How many reservations `account` has.
pub open spec fn open_count(slots: Seq<Option<ReservationRiskState>>, account: AccountId) -> nat
    decreases slots.len(),
{
    if slots.len() == 0 {
        0
    } else {
        open_count(slots.drop_last(), account) + slot_count(slots.last(), account)
    }
}

/// Positions beyond which the account may not go, as the first fault of the
/// worst cases: every buy fills, or every sell does.
pub open spec fn position_fault(settled: int, buys: int, sells: int, maximum: int) -> Option<
    RejectReason,
> {
    if settled + buys > i128::MAX || settled - sells < i128::MIN {
        Some(RejectReason::ArithmeticOverflow)
    } else if settled + buys > maximum || settled - sells < -maximum {
        Some(RejectReason::PositionLimit)
    } else {
        None
    }
}

/// The worth of `quantity` at `price`, whatever the sign of the price.
pub open spec fn notional(price: PriceTicks, quantity: Quantity) -> int {
    if price.0 < 0 {
        -price.0 * quantity.0
    } else {
        price.0 * quantity.0
    }
}

/// The account's totals with `quantity` more reserved on `side`.
pub open spec fn add_reserved(account: AccountRiskState, side: Side, quantity: int) -> (int, int) {
    match side {
        Side::Buy => (account.reserved_buys + quantity, account.reserved_sells as int),
        Side::Sell => (account.reserved_buys as int, account.reserved_sells + quantity),
    }
}

/// The account with `quantity` more (or, negative, less) reserved on `side`.
pub open spec fn reserve_more(
    account: AccountRiskState,
    side: Side,
    quantity: int,
) -> AccountRiskState {
    let (buys, sells) = add_reserved(account, side, quantity);
    AccountRiskState {
        reserved_buys: buys as u128,
        reserved_sells: sells as u128,
        ..account
    }
}

/// The account's settled position once `filled` has traded on `side`.
pub open spec fn settled_after(account: AccountRiskState, side: Side, filled: int) -> int {
    match side {
        Side::Buy => account.settled_position + filled,
        Side::Sell => account.settled_position - filled,
    }
}

/// Why an account may not take on `order`, if it may not: the first limit that
/// it breaks.
pub open spec fn limit_refusal(account: AccountRiskState, order: NewOrder) -> Option<
    RejectReason,
> {
    let (buys, sells) = add_reserved(account, order.side, order.quantity.0 as int);
    let position = position_fault(
        account.settled_position as int,
        buys,
        sells,
        account.limits.max_abs_position.0 as int,
    );
    if account.killed {
        Some(RejectReason::KillSwitch)
    } else if order.quantity.0 > account.limits.max_quantity.0 {
        Some(RejectReason::QuantityLimit)
    } else if order.price.0 < account.limits.minimum_price.0 || order.price.0
        > account.limits.maximum_price.0 {
        Some(RejectReason::PriceCollar)
    } else if order.price.0 == i64::MIN {
        Some(RejectReason::ArithmeticOverflow)
    } else if notional(order.price, order.quantity) > account.limits.max_notional {
        Some(RejectReason::NotionalLimit)
    } else if position is Some {
        position
    } else if account.open_orders + 1 > account.limits.max_open_orders {
        Some(RejectReason::OpenOrderLimit)
    } else {
        None
    }
}

/// Limits that can never admit an order are refused.
pub open spec fn limits_valid(limits: RiskLimits) -> bool {
    &&& limits.max_quantity.0 > 0
    &&& limits.max_open_orders > 0
    &&& limits.minimum_price.0 <= limits.maximum_price.0
}

impl RiskView {
    pub open spec fn is_account(self, id: AccountId, i: int) -> bool {
        0 <= i < self.accounts.len() && self.accounts[i].id == id
    }

    pub open spec fn has_account(self, id: AccountId) -> bool {
        exists|i: int| self.is_account(id, i)
    }

    /// The position of an account in registration order.
    pub open spec fn account_index(self, id: AccountId) -> int {
        choose|i: int| self.is_account(id, i)
    }

    pub open spec fn account(self, id: AccountId) -> AccountRiskState {
        self.accounts[self.account_index(id)]
    }

    pub open spec fn is_order(self, id: OrderId, slot: int) -> bool {
        &&& 0 <= slot < self.slots.len()
        &&& self.slots[slot] is Some
        &&& self.slots[slot]->0.order_id == id
    }

    pub open spec fn has_order(self, id: OrderId) -> bool {
        exists|slot: int| self.is_order(id, slot)
    }

    /// The storage slot of an order's reservation.
    pub open spec fn slot_of(self, id: OrderId) -> int {
        choose|slot: int| self.is_order(id, slot)
    }

    pub open spec fn reservation(self, id: OrderId) -> ReservationRiskState {
        self.slots[self.slot_of(id)]->0
    }

    pub open spec fn with_account(self, account: AccountRiskState) -> RiskView {
        RiskView {
            accounts: self.accounts.update(self.account_index(account.id), account),
            ..self
        }
    }

    /// Accounts and reservations have one record each, every reservation has an
    /// account and an identifier up to the watermark, and each account's totals
    /// are those of its live reservations.
    pub open spec fn sound(self) -> bool {
        &&& forall|i: int, j: int|
            0 <= i < self.accounts.len() && 0 <= j < self.accounts.len() && (
            #[trigger] self.accounts[i]).id == (#[trigger] self.accounts[j]).id ==> i == j
        &&& forall|a: int, b: int|
            0 <= a < self.slots.len() && 0 <= b < self.slots.len() && (
            #[trigger] self.slots[a]) is Some && (#[trigger] self.slots[b]) is Some
                && self.slots[a]->0.order_id == self.slots[b]->0.order_id ==> a == b
        &&& forall|s: int|
            0 <= s < self.slots.len() && (#[trigger] self.slots[s]) is Some ==> {
                &&& self.has_account(self.slots[s]->0.account_id)
                &&& self.maximum_order_id is Some
                &&& self.slots[s]->0.order_id.0 <= (self.maximum_order_id->0).0
            }
        &&& forall|i: int|
            0 <= i < self.accounts.len() ==> account_balanced(
                #[trigger] self.accounts[i],
                self.slots,
            )
        &&& forall|i: int|
            0 <= i < self.accounts.len() ==> limits_valid((#[trigger] self.accounts[i]).limits)
    }

    /// Why an account is not registered, if it is not.
    pub open spec fn register_refusal(
        self,
        id: AccountId,
        limits: RiskLimits,
        max_accounts: nat,
    ) -> Option<RegistrationError> {
        if !limits_valid(limits) {
            Some(RegistrationError::InvalidLimits)
        } else if self.has_account(id) {
            Some(RegistrationError::DuplicateAccount)
        } else if self.accounts.len() == max_accounts {
            Some(RegistrationError::AccountCapacity)
        } else {
            None
        }
    }

    pub open spec fn registered(self, id: AccountId, limits: RiskLimits) -> RiskView {
        RiskView {
            accounts: self.accounts.push(
                AccountRiskState {
                    id,
                    limits,
                    settled_position: 0,
                    reserved_buys: 0,
                    reserved_sells: 0,
                    open_orders: 0,
                    killed: false,
                },
            ),
            ..self
        }
    }

    /// Why an order is refused, if it is: the first check that fails.
    pub open spec fn reserve_refusal(self, order: NewOrder) -> Option<RejectReason> {
        if self.killed {
            Some(RejectReason::KillSwitch)
        } else if order.quantity.0 == 0 {
            Some(RejectReason::InvalidQuantity)
        } else if self.maximum_order_id is Some && order.order_id.0 <= (self.maximum_order_id->0).0 {
            Some(RejectReason::DuplicateOrderId)
        } else if self.free.len() == 0 {
            Some(RejectReason::OrderCapacity)
        } else if !self.has_account(order.account_id) {
            Some(RejectReason::UnknownAccount)
        } else {
            limit_refusal(self.account(order.account_id), order)
        }
    }

    /// The state with the order's exposure reserved.
    pub open spec fn reserved(self, order: NewOrder) -> RiskView {
        let account = self.account(order.account_id);
        let more = reserve_more(account, order.side, order.quantity.0 as int);
        RiskView {
            accounts: self.with_account(
                AccountRiskState { open_orders: (account.open_orders + 1) as u32, ..more },
            ).accounts,
            slots: self.slots.update(
                self.free[0] as int,
                Some(
                    ReservationRiskState {
                        order_id: order.order_id,
                        account_id: order.account_id,
                        side: order.side,
                        quantity: order.quantity,
                    },
                ),
            ),
            free: self.free.skip(1),
            maximum_order_id: Some(order.order_id),
            killed: self.killed,
        }
    }

    /// The settled position leaves its machine range when `filled` of the
    /// order trades.
    pub open spec fn fill_overflows(self, id: OrderId, filled: Quantity) -> bool {
        let reservation = self.reservation(id);
        let position = settled_after(
            self.account(reservation.account_id),
            reservation.side,
            filled.0 as int,
        );
        position > i128::MAX || position < i128::MIN
    }

    pub open spec fn settle_refusal(self, id: OrderId, filled: Quantity) -> Option<RejectReason> {
        if !self.has_order(id) {
            Some(RejectReason::UnknownOrder)
        } else if filled.0 > self.reservation(id).quantity.0 {
            Some(RejectReason::InvalidQuantity)
        } else if self.fill_overflows(id, filled) {
            Some(RejectReason::ArithmeticOverflow)
        } else {
            None
        }
    }

    /// The state with the order closed: `filled` of it is position, the rest
    /// is released.
    pub open spec fn settled(self, id: OrderId, filled: Quantity) -> RiskView {
        let slot = self.slot_of(id);
        let reservation = self.reservation(id);
        let account = self.account(reservation.account_id);
        let less = reserve_more(account, reservation.side, -(reservation.quantity.0 as int));
        RiskView {
            accounts: self.with_account(
                AccountRiskState {
                    settled_position: settled_after(
                        account,
                        reservation.side,
                        filled.0 as int,
                    ) as i128,
                    open_orders: (account.open_orders - 1) as u32,
                    ..less
                },
            ).accounts,
            slots: self.slots.update(slot, None),
            free: seq![slot as usize] + self.free,
            ..self
        }
    }

    pub open spec fn fill_refusal(self, id: OrderId, filled: Quantity) -> Option<RejectReason> {
        if filled.0 == 0 {
            Some(RejectReason::InvalidQuantity)
        } else {
            self.settle_refusal(id, filled)
        }
    }

    /// The state after a fill: what has traded is position. A fill of all that
    /// is left closes the order.
    pub open spec fn filled(self, id: OrderId, filled: Quantity) -> RiskView {
        let reservation = self.reservation(id);
        let account = self.account(reservation.account_id);
        let less = reserve_more(account, reservation.side, -(filled.0 as int));
        if filled == reservation.quantity {
            self.settled(id, filled)
        } else {
            RiskView {
                accounts: self.with_account(
                    AccountRiskState {
                        settled_position: settled_after(
                            account,
                            reservation.side,
                            filled.0 as int,
                        ) as i128,
                        ..less
                    },
                ).accounts,
                slots: self.slots.update(
                    self.slot_of(id),
                    Some(
                        ReservationRiskState {
                            quantity: Quantity((reservation.quantity.0 - filled.0) as u64),
                            ..reservation
                        },
                    ),
                ),
                ..self
            }
        }
    }

    pub open spec fn owner_refusal(self, id: OrderId, account_id: AccountId) -> Option<
        RejectReason,
    > {
        if !self.has_order(id) {
            Some(RejectReason::UnknownOrder)
        } else if self.reservation(id).account_id != account_id {
            Some(RejectReason::NotOrderOwner)
        } else {
            None
        }
    }

    /// Why an amendment is refused, if it is. Only an increase is held to the
    /// limits, at the new total.
    pub open spec fn adjust_refusal(
        self,
        id: OrderId,
        account_id: AccountId,
        price: PriceTicks,
        quantity: Quantity,
    ) -> Option<RejectReason> {
        let reservation = self.reservation(id);
        let account = self.account(account_id);
        let (buys, sells) = add_reserved(
            account,
            reservation.side,
            quantity.0 - reservation.quantity.0,
        );
        if self.owner_refusal(id, account_id) is Some {
            self.owner_refusal(id, account_id)
        } else if quantity.0 <= reservation.quantity.0 {
            None
        } else if price.0 == i64::MIN {
            Some(RejectReason::ArithmeticOverflow)
        } else if notional(price, quantity) > account.limits.max_notional {
            Some(RejectReason::NotionalLimit)
        } else {
            position_fault(
                account.settled_position as int,
                buys,
                sells,
                account.limits.max_abs_position.0 as int,
            )
        }
    }

    /// What an accepted amendment answers: what it released, and the prior quantity.
    pub open spec fn adjust_answer(self, id: OrderId, quantity: Quantity) -> (Quantity, Quantity) {
        let prior = self.reservation(id).quantity;
        let released = if quantity.0 < prior.0 {
            (prior.0 - quantity.0) as u64
        } else {
            0
        };
        (Quantity(released), prior)
    }

    /// The state with the order's reservation changed to `quantity`.
    pub open spec fn adjusted(self, id: OrderId, quantity: Quantity) -> RiskView {
        let reservation = self.reservation(id);
        let account = self.account(reservation.account_id);
        RiskView {
            accounts: self.with_account(
                reserve_more(
                    account,
                    reservation.side,
                    quantity.0 - reservation.quantity.0,
                ),
            ).accounts,
            slots: self.slots.update(
                self.slot_of(id),
                Some(ReservationRiskState { quantity, ..reservation }),
            ),
            ..self
        }
    }

    /// Projected position and open orders of an account, where the projection
    /// stays in its machine range.
    pub open spec fn snapshot(self, id: AccountId) -> Option<(i128, u32)> {
        let account = self.account(id);
        let long = account.settled_position + account.reserved_buys;
        let projected = long - account.reserved_sells;
        if !self.has_account(id) || long > i128::MAX || projected < i128::MIN {
            None
        } else {
            Some((projected as i128, account.open_orders))
        }
    }
}

/// The account's totals are those of its live reservations.
pub open spec fn account_balanced(
    account: AccountRiskState,
    slots: Seq<Option<ReservationRiskState>>,
) -> bool {
    &&& account.reserved_buys == exposure(slots, account.id, Side::Buy)
    &&& account.reserved_sells == exposure(slots, account.id, Side::Sell)
    &&& account.open_orders == open_count(slots, account.id)
}

pub proof fn lemma_exposure_update(
    slots: Seq<Option<ReservationRiskState>>,
    s: int,
    slot: Option<ReservationRiskState>,
    account: AccountId,
    side: Side,
)
    requires
        0 <= s < slots.len(),
    ensures
        exposure(slots.update(s, slot), account, side) == exposure(slots, account, side)
            - slot_exposure(slots[s], account, side) + slot_exposure(slot, account, side),
        exposure(slots, account, side) >= slot_exposure(slots[s], account, side),
    decreases slots.len(),
{
    if s == slots.len() - 1 {
        assert(slots.update(s, slot).drop_last() =~= slots.drop_last());
    } else {
        assert(slots.update(s, slot).drop_last() =~= slots.drop_last().update(s, slot));
        lemma_exposure_update(slots.drop_last(), s, slot, account, side);
    }
}

pub proof fn lemma_count_update(
    slots: Seq<Option<ReservationRiskState>>,
    s: int,
    slot: Option<ReservationRiskState>,
    account: AccountId,
)
    requires
        0 <= s < slots.len(),
    ensures
        open_count(slots.update(s, slot), account) == open_count(slots, account) - slot_count(
            slots[s],
            account,
        ) + slot_count(slot, account),
        open_count(slots, account) >= slot_count(slots[s], account),
    decreases slots.len(),
{
    if s == slots.len() - 1 {
        assert(slots.update(s, slot).drop_last() =~= slots.drop_last());
    } else {
        assert(slots.update(s, slot).drop_last() =~= slots.drop_last().update(s, slot));
        lemma_count_update(slots.drop_last(), s, slot, account);
    }
}

pub proof fn lemma_exposure_bound(
    slots: Seq<Option<ReservationRiskState>>,
    account: AccountId,
    side: Side,
)
    ensures
        exposure(slots, account, side) <= slots.len() * u64::MAX,
        open_count(slots, account) <= slots.len(),
    decreases slots.len(),
{
    if slots.len() > 0 {
        lemma_exposure_bound(slots.drop_last(), account, side);
        assert(slots.len() * u64::MAX == (slots.len() - 1) * u64::MAX + u64::MAX)
            by (nonlinear_arith);
    }
}

/// The upper 64 bits of a 128-bit value.
pub open spec fn high_lane(value: u128) -> u64 {
    (value >> 64) as u64
}

/// The lower 64 bits of a 128-bit value.
pub open spec fn low_lane(value: u128) -> u64 {
    value as u64
}

pub open spec fn flag(value: bool) -> u64 {
    if value {
        1
    } else {
        0
    }
}

/// An account's part of the digest. 128-bit values fold in as upper and lower
/// lanes; the settled position's lanes enclose the exposures.
pub open spec fn digest_account(digest: u64, account: AccountRiskState) -> u64 {
    let position = account.settled_position as u128;
    let d0 = mixed(digest, account.id.0 as u64);
    let d1 = mixed(d0, high_lane(position));
    let d2 = mixed(d1, high_lane(account.reserved_buys));
    let d3 = mixed(d2, low_lane(account.reserved_buys));
    let d4 = mixed(d3, high_lane(account.reserved_sells));
    let d5 = mixed(d4, low_lane(account.reserved_sells));
    let d6 = mixed(d5, low_lane(position));
    let d7 = mixed(d6, account.open_orders as u64);
    mixed(d7, flag(account.killed))
}

pub open spec fn digest_accounts(digest: u64, accounts: Seq<AccountRiskState>) -> u64
    decreases accounts.len(),
{
    if accounts.len() == 0 {
        digest
    } else {
        digest_account(digest_accounts(digest, accounts.drop_last()), accounts.last())
    }
}

pub open spec fn digest_slots(digest: u64, slots: Seq<Option<ReservationRiskState>>) -> u64
    decreases slots.len(),
{
    if slots.len() == 0 {
        digest
    } else {
        let before = digest_slots(digest, slots.drop_last());
        match slots.last() {
            Some(reservation) => mixed(
                mixed(before, reservation.order_id.0),
                reservation.quantity.0,
            ),
            None => before,
        }
    }
}

impl RiskView {
    /// The digest of the state: switch, watermark, accounts in registration
    /// order, reservations in slot order.
    pub open spec fn digest(self) -> u64 {
        let watermark = match self.maximum_order_id {
            Some(id) => id.0,
            None => 0,
        };
        let start = mixed(mixed(DIGEST_SEED, flag(self.killed)), watermark);
        digest_slots(digest_accounts(start, self.accounts), self.slots)
    }
}

} // verus!
