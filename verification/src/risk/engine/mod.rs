//! The risk engine: reserving, settling and amending exposure.

pub mod digest;
pub mod snapshot;

use vstd::prelude::*;

use crate::risk::limit_laws::{lemma_worth, worth_exceeds};
use crate::risk::model::{
    account_balanced, exposure, lemma_count_update, lemma_exposure_bound, lemma_exposure_update,
    limit_refusal, limits_valid, notional, open_count, position_fault, reserve_more, settled_after,
    slot_count, slot_exposure, RiskView,
};
use crate::risk::pool::ReservationPool;
use crate::risk::probe_index::{planes_fit, ProbeIndex, INDEX_PLANES};
use crate::risk::{AccountRiskState, RegistrationError, ReservationRiskState, RiskLimits};
use crate::types::{AccountId, NewOrder, OrderId, PriceTicks, Quantity, RejectReason, Side};

verus! {

/// Deterministic, fixed-capacity pre-trade risk state.
///
/// Position is conservative: buy and sell reservations are tracked separately
/// so opposing open orders cannot cancel worst-case exposure. Order IDs must
/// increase monotonically within a session, preventing reuse without an
/// unbounded historical set. `settle` converts a reservation to its filled
/// quantity when an order is terminal. Account and reservation lookups use
/// fixed-capacity open-addressed indices at load <= 1/2; reservations live in
/// stable slots drawn from a bounded free-list.
pub struct RiskEngine<const ACCOUNTS: usize, const ORDERS: usize> {
    pub(crate) accounts: Vec<AccountRiskState>,
    pub(crate) account_index: ProbeIndex<ACCOUNTS, INDEX_PLANES>,
    pub(crate) pool: ReservationPool<ORDERS>,
    pub(crate) maximum_order_id: Option<OrderId>,
    pub(crate) killed: bool,
}

impl<const ACCOUNTS: usize, const ORDERS: usize> View for RiskEngine<ACCOUNTS, ORDERS> {
    type V = RiskView;

    closed spec fn view(&self) -> RiskView {
        RiskView {
            accounts: self.accounts@,
            slots: self.pool.slots(),
            free: self.pool.free(),
            maximum_order_id: self.maximum_order_id,
            killed: self.killed,
        }
    }
}

/// Changing one account and one of its slots, with the totals to match, keeps
/// the state sound.
pub proof fn lemma_post(
    view: RiskView,
    s: int,
    slot: Option<ReservationRiskState>,
    account: AccountRiskState,
    maximum: Option<OrderId>,
    free: Seq<usize>,
)
    requires
        view.sound(),
        0 <= s < view.slots.len(),
        view.has_account(account.id),
        limits_valid(account.limits),
        account.reserved_buys == view.account(account.id).reserved_buys - slot_exposure(
            view.slots[s],
            account.id,
            Side::Buy,
        ) + slot_exposure(slot, account.id, Side::Buy),
        account.reserved_sells == view.account(account.id).reserved_sells - slot_exposure(
            view.slots[s],
            account.id,
            Side::Sell,
        ) + slot_exposure(slot, account.id, Side::Sell),
        account.open_orders == view.account(account.id).open_orders - slot_count(
            view.slots[s],
            account.id,
        ) + slot_count(slot, account.id),
        view.slots[s] is Some ==> view.slots[s]->0.account_id == account.id,
        slot is Some ==> slot->0.account_id == account.id && maximum is Some
            && slot->0.order_id.0 <= (maximum->0).0,
        slot is Some ==> forall|b: int|
            0 <= b < view.slots.len() && b != s && (#[trigger] view.slots[b]) is Some
                ==> view.slots[b]->0.order_id != slot->0.order_id,
        view.maximum_order_id is Some ==> maximum is Some && (view.maximum_order_id->0).0 <= (
        maximum->0).0,
    ensures
        ({
            let after = RiskView {
                accounts: view.with_account(account).accounts,
                slots: view.slots.update(s, slot),
                free,
                maximum_order_id: maximum,
                killed: view.killed,
            };
            &&& after.sound()
            &&& forall|id: AccountId| #[trigger] after.has_account(id) == view.has_account(id)
        }),
{
    let after = RiskView {
        accounts: view.with_account(account).accounts,
        slots: view.slots.update(s, slot),
        free,
        maximum_order_id: maximum,
        killed: view.killed,
    };
    let n = view.account_index(account.id);
    assert(view.is_account(account.id, n));
    assert forall|i: int| 0 <= i < view.accounts.len() implies (#[trigger] after.accounts[i]).id
        == view.accounts[i].id by {}
    assert forall|id: AccountId, i: int| #[trigger] after.is_account(id, i) == view.is_account(
        id,
        i,
    ) by {}
    assert forall|id: AccountId| #[trigger] after.has_account(id) == view.has_account(id) by {
        if view.has_account(id) {
            let i = view.account_index(id);
            assert(view.is_account(id, i));
            assert(after.is_account(id, i));
        }
        if after.has_account(id) {
            let i = after.account_index(id);
            assert(after.is_account(id, i));
            assert(view.is_account(id, i));
        }
    }
    assert forall|i: int| 0 <= i < after.accounts.len() implies account_balanced(
        #[trigger] after.accounts[i],
        after.slots,
    ) && limits_valid(after.accounts[i].limits) by {
        let id = view.accounts[i].id;
        assert(account_balanced(view.accounts[i], view.slots));
        lemma_exposure_update(view.slots, s, slot, id, Side::Buy);
        lemma_exposure_update(view.slots, s, slot, id, Side::Sell);
        lemma_count_update(view.slots, s, slot, id);
        if i != n {
            assert(view.accounts[i].id != view.accounts[n].id);
        }
    }
    assert forall|b: int| 0 <= b < after.slots.len() && (#[trigger] after.slots[b]) is Some implies {
        &&& after.has_account(after.slots[b]->0.account_id)
        &&& after.maximum_order_id is Some
        &&& after.slots[b]->0.order_id.0 <= (after.maximum_order_id->0).0
    } by {
        if b != s {
            assert(view.slots[b] is Some);
            assert(view.has_account(view.slots[b]->0.account_id));
            assert(after.has_account(view.slots[b]->0.account_id));
        } else {
            assert(after.has_account(account.id));
        }
    }
}

/// The first fault of the worst-case positions.
pub(crate) fn check_position(settled: i128, buys: u128, sells: u128, maximum: u64) -> (fault: Option<
    RejectReason,
>)
    requires
        buys <= i128::MAX,
        sells <= i128::MAX,
    ensures
        fault == position_fault(settled as int, buys as int, sells as int, maximum as int),
{
    let worst_long = match settled.checked_add(buys as i128) {
        Some(worst_long) => worst_long,
        None => {
            return Some(RejectReason::ArithmeticOverflow);
        },
    };
    let worst_short = match settled.checked_sub(sells as i128) {
        Some(worst_short) => worst_short,
        None => {
            return Some(RejectReason::ArithmeticOverflow);
        },
    };
    let limit: i128 = maximum as i128;
    if worst_long > limit || worst_short < -limit {
        return Some(RejectReason::PositionLimit);
    }
    None
}

/// The worth of `quantity` at `price`.
fn worth(price: PriceTicks, quantity: Quantity) -> (value: u128)
    requires
        price.0 > i64::MIN,
    ensures
        value == notional(price, quantity),
{
    let absolute: u64 = if price.0 < 0 {
        (-price.0) as u64
    } else {
        price.0 as u64
    };
    proof {
        let a = absolute as int;
        let q = quantity.0 as int;
        assert(0 <= a * q <= u128::MAX) by (nonlinear_arith)
            requires
                0 <= a <= i64::MAX,
                0 <= q <= u64::MAX,
        ;
    }
    (absolute as u128) * (quantity.0 as u128)
}

/// Pure limit evaluation for one order against one account.
fn evaluate_limits(account: &AccountRiskState, order: &NewOrder) -> (refusal: Option<RejectReason>)
    requires
        account.reserved_buys + order.quantity.0 <= i128::MAX,
        account.reserved_sells + order.quantity.0 <= i128::MAX,
        account.open_orders < u32::MAX,
    ensures
        refusal == limit_refusal(*account, *order),
{
    if account.killed {
        return Some(RejectReason::KillSwitch);
    }
    if order.quantity.0 > account.limits.max_quantity.0 {
        return Some(RejectReason::QuantityLimit);
    }
    if order.price.0 < account.limits.minimum_price.0 || order.price.0
        > account.limits.maximum_price.0 {
        return Some(RejectReason::PriceCollar);
    }
    if order.price.0 == i64::MIN {
        return Some(RejectReason::ArithmeticOverflow);
    }
    if worth(order.price, order.quantity) > account.limits.max_notional {
        return Some(RejectReason::NotionalLimit);
    }
    let (buys, sells) = match order.side {
        Side::Buy => (account.reserved_buys + order.quantity.0 as u128, account.reserved_sells),
        Side::Sell => (account.reserved_buys, account.reserved_sells + order.quantity.0 as u128),
    };
    if let Some(reason) = check_position(
        account.settled_position,
        buys,
        sells,
        account.limits.max_abs_position.0,
    ) {
        return Some(reason);
    }
    if account.open_orders + 1 > account.limits.max_open_orders {
        return Some(RejectReason::OpenOrderLimit);
    }
    None
}

impl<const ACCOUNTS: usize, const ORDERS: usize> RiskEngine<ACCOUNTS, ORDERS> {
    spec fn account_filed(&self, i: int) -> bool {
        let key = self.accounts@[i].id.0 as u64;
        &&& self.account_index@.contains_key(key)
        &&& self.account_index@[key] == i
    }

    spec fn account_found(&self, key: u64) -> bool {
        let i = self.account_index@[key] as int;
        &&& 0 <= i < self.accounts@.len()
        &&& self.accounts@[i].id.0 as u64 == key
    }

    pub(crate) closed spec fn accounts_wf(&self) -> bool {
        &&& self.accounts@.len() <= ACCOUNTS
        &&& self.account_index.wf()
        &&& forall|i: int|
            0 <= i < self.accounts@.len() ==> {
                let account = #[trigger] self.accounts@[i];
                self.account_filed(i)
            }
        &&& forall|key: u64| #[trigger]
            self.account_index@.contains_key(key) ==> self.account_found(key)
    }

    pub closed spec fn wf(&self) -> bool {
        &&& self.accounts_wf()
        &&& self.pool.wf()
        &&& self@.sound()
    }

    /// Every engine's state is sound and within its capacities: accounts'
    /// totals are those of their live reservations, and slots are live or free.
    pub proof fn law_sound(&self)
        requires
            self.wf(),
        ensures
            self@.sound(),
            self@.accounts.len() <= ACCOUNTS,
            self@.slots.len() == ORDERS,
            self@.free.no_duplicates(),
            forall|i: int|
                0 <= i < self@.free.len() ==> (#[trigger] self@.free[i]) < ORDERS
                    && self@.slots[self@.free[i] as int] is None,
            forall|s: usize|
                s < ORDERS && (#[trigger] self@.slots[s as int]) is None ==> self@.free.contains(s),
    {
        self.pool.lemma_pool();
    }

    /// What the totals of an account can amount to.
    proof fn lemma_bounds(&self, id: AccountId)
        requires
            self.wf(),
            self@.has_account(id),
        ensures
            self@.account(id).reserved_buys <= ORDERS * u64::MAX,
            self@.account(id).reserved_sells <= ORDERS * u64::MAX,
            self@.account(id).open_orders <= ORDERS,
            ORDERS * 2 <= u32::MAX,
            (ORDERS + 1) * u64::MAX <= i128::MAX,
            self@.account(id).id == id,
    {
        let i = self@.account_index(id);
        assert(self@.is_account(id, i));
        assert(account_balanced(self@.accounts[i], self@.slots));
        self.pool.lemma_pool();
        lemma_exposure_bound(self@.slots, id, Side::Buy);
        lemma_exposure_bound(self@.slots, id, Side::Sell);
        assert((ORDERS + 1) * u64::MAX <= i128::MAX) by (nonlinear_arith)
            requires
                ORDERS * 2 <= u32::MAX,
        ;
    }

    /// The account of a reservation, and what the slot adds to its totals.
    proof fn lemma_reservation(&self, slot: int)
        requires
            self.wf(),
            0 <= slot < self@.slots.len(),
            self@.slots[slot] is Some,
        ensures
            ({
                let reservation = self@.slots[slot]->0;
                let account = self@.account(reservation.account_id);
                &&& self@.has_account(reservation.account_id)
                &&& account.id == reservation.account_id
                &&& reservation.side == Side::Buy ==> account.reserved_buys
                    >= reservation.quantity.0
                &&& reservation.side == Side::Sell ==> account.reserved_sells
                    >= reservation.quantity.0
                &&& account.open_orders >= 1
                &&& self@.has_order(reservation.order_id)
                &&& self@.slot_of(reservation.order_id) == slot
                &&& limits_valid(account.limits)
            }),
    {
        let reservation = self@.slots[slot]->0;
        let id = reservation.account_id;
        assert(self@.has_account(id));
        let i = self@.account_index(id);
        assert(self@.is_account(id, i));
        assert(account_balanced(self@.accounts[i], self@.slots));
        lemma_exposure_update(self@.slots, slot, None, id, Side::Buy);
        lemma_exposure_update(self@.slots, slot, None, id, Side::Sell);
        lemma_count_update(self@.slots, slot, None, id);
        assert(self@.is_order(reservation.order_id, slot));
        let found = self@.slot_of(reservation.order_id);
        assert(self@.is_order(reservation.order_id, found));
    }

    #[must_use]
    pub fn new() -> (engine: Self)
        requires
            planes_fit(ACCOUNTS, INDEX_PLANES),
            planes_fit(ORDERS, INDEX_PLANES),
        ensures
            engine.wf(),
            engine@ == (RiskView {
                accounts: Seq::empty(),
                slots: Seq::new(ORDERS as nat, |s: int| None::<ReservationRiskState>),
                free: Seq::new(ORDERS as nat, |s: int| s as usize),
                maximum_order_id: None,
                killed: false,
            }),
    {
        RiskEngine {
            accounts: Vec::new(),
            account_index: ProbeIndex::new(),
            pool: ReservationPool::new(),
            maximum_order_id: None,
            killed: false,
        }
    }

    pub(crate) fn account_slot(&self, id: AccountId) -> (slot: Option<usize>)
        requires
            self.wf(),
        ensures
            slot is Some <==> self@.has_account(id),
            slot is Some ==> slot->0 == self@.account_index(id) && slot->0 < self.accounts@.len()
                && self.accounts@[slot->0 as int] == self@.account(id)
                && self@.account(id).id == id,
    {
        let key: u64 = id.0 as u64;
        proof {
            if self@.has_account(id) {
                let i = self@.account_index(id);
                assert(self@.is_account(id, i));
                assert(self.accounts@[i].id == id);
                assert(self.account_filed(i));
            }
            if self.account_index@.contains_key(key) {
                assert(self.account_found(key));
                let i = self.account_index@[key] as int;
                assert(self@.is_account(id, i));
            }
        }
        self.account_index.lookup(key)
    }

    /// Registers an account with its limits.
    pub fn register_account(&mut self, id: AccountId, limits: RiskLimits) -> (outcome: Result<
        (),
        RegistrationError,
    >)
        requires
            old(self).wf(),
        ensures
            final(self).wf(),
            match old(self)@.register_refusal(id, limits, ACCOUNTS as nat) {
                Some(reason) => outcome == Err::<(), _>(reason) && *final(self) == *old(self),
                None => outcome == Ok::<_, RegistrationError>(()) && final(self)@ == old(
                    self)@.registered(id, limits),
            },
    {
        if limits.max_quantity.0 == 0 || limits.max_open_orders == 0 || limits.minimum_price.0
            > limits.maximum_price.0 {
            return Err(RegistrationError::InvalidLimits);
        }
        if self.account_slot(id).is_some() {
            return Err(RegistrationError::DuplicateAccount);
        }
        let slot: usize = self.accounts.len();
        if slot == ACCOUNTS {
            return Err(RegistrationError::AccountCapacity);
        }
        let ghost before = *self;
        let key: u64 = id.0 as u64;
        proof {
            self.lemma_account_spare();
            if self.account_index@.contains_key(key) {
                assert(self.account_found(key));
                assert(self@.is_account(id, self.account_index@[key] as int));
            }
        }
        match self.account_index.insert(key, slot) {
            Ok(index_slot) => {},
            Err(error) => {
                assert(false);
                return Err(RegistrationError::AccountCapacity);
            },
        }
        self.accounts.push(
            AccountRiskState {
                id,
                limits,
                settled_position: 0,
                reserved_buys: 0,
                reserved_sells: 0,
                open_orders: 0,
                killed: false,
            },
        );
        proof {
            assert forall|k: u64| #[trigger] self.account_index@.contains_key(k) implies self.account_found(
            k) by {
                if k != key {
                    assert(before.account_index@.contains_key(k));
                    assert(before.account_found(k));
                }
            }
            assert forall|i: int| 0 <= i < self.accounts@.len() implies {
                let account = #[trigger] self.accounts@[i];
                self.account_filed(i)
            } by {
                if i < before.accounts@.len() {
                    let account = before.accounts@[i];
                    assert(before.account_filed(i));
                    assert(before@.is_account(account.id, i));
                    assert(account.id != id);
                }
            }
            lemma_registered(before@, id, limits);
            assert(self@ =~= before@.registered(id, limits));
        }
        Ok(())
    }

    /// Accounts have distinct positions below the account capacity, so the
    /// index has an empty slot.
    proof fn lemma_account_spare(&self)
        requires
            self.accounts_wf(),
            ACCOUNTS > 0,
        ensures
            !self.account_index.full(),
    {
        assert forall|a: u64, b: u64|
            #![trigger self.account_index@[a], self.account_index@[b]]
            self.account_index@.contains_key(a) && self.account_index@.contains_key(b)
                && self.account_index@[a] == self.account_index@[b] implies a == b by {
            assert(self.account_found(a) && self.account_found(b));
        }
        assert forall|key: u64|
            #![trigger self.account_index@[key]]
            self.account_index@.contains_key(key) implies self.account_index@[key] < ACCOUNTS by {
            assert(self.account_found(key));
        }
        self.account_index.lemma_spare(ACCOUNTS as int);
    }

    pub fn set_kill_switch(&mut self, killed: bool)
        requires
            old(self).wf(),
        ensures
            final(self).wf(),
            final(self)@ == (RiskView { killed, ..old(self)@ }),
    {
        let ghost before = *self;
        self.killed = killed;
        proof {
            assert(self@ =~= RiskView { killed, ..before@ });
            lemma_killed(before@, killed);
            self.lemma_same_accounts(before);
        }
    }

    proof fn lemma_same_accounts(&self, before: Self)
        requires
            before.accounts_wf(),
            self.account_index == before.account_index,
            self.accounts@.len() == before.accounts@.len(),
            forall|i: int|
                0 <= i < before.accounts@.len() ==> (#[trigger] self.accounts@[i]).id
                    == before.accounts@[i].id,
        ensures
            self.accounts_wf(),
    {
        assert forall|i: int| 0 <= i < self.accounts@.len() implies {
            let account = #[trigger] self.accounts@[i];
            self.account_filed(i)
        } by {
            let account = before.accounts@[i];
            assert(before.account_filed(i));
        }
        assert forall|key: u64| #[trigger] self.account_index@.contains_key(key) implies self.account_found(
        key) by {
            assert(before.account_found(key));
            let i = before.account_index@[key] as int;
            assert(self.accounts@[i].id == before.accounts@[i].id);
        }
    }

    /// Stops or resumes one account.
    pub fn set_account_kill_switch(&mut self, account_id: AccountId, killed: bool) -> (outcome:
        Result<(), RejectReason>)
        requires
            old(self).wf(),
        ensures
            final(self).wf(),
            if old(self)@.has_account(account_id) {
                &&& outcome == Ok::<_, RejectReason>(())
                &&& final(self)@ == old(self)@.with_account(
                    AccountRiskState { killed, ..old(self)@.account(account_id) },
                )
            } else {
                &&& outcome == Err::<(), _>(RejectReason::UnknownAccount)
                &&& *final(self) == *old(self)
            },
    {
        let ghost before = *self;
        match self.account_slot(account_id) {
            None => Err(RejectReason::UnknownAccount),
            Some(slot) => {
                let account = self.accounts[slot];
                self.accounts.set(slot, AccountRiskState { killed, ..account });
                proof {
                    self.lemma_same_accounts(before);
                    lemma_account_killed(before@, account_id, killed);
                    assert(self@ =~= before@.with_account(AccountRiskState { killed, ..account }));
                }
                Ok(())
            },
        }
    }

    /// Checks a new order against every limit and reserves its exposure. A
    /// refusal changes nothing.
    pub fn check_and_reserve(&mut self, order: NewOrder) -> (outcome: Result<(), RejectReason>)
        requires
            old(self).wf(),
        ensures
            final(self).wf(),
            match old(self)@.reserve_refusal(order) {
                Some(reason) => outcome == Err::<(), _>(reason) && *final(self) == *old(self),
                None => outcome == Ok::<_, RejectReason>(()) && final(self)@ == old(self)@.reserved(
                    order,
                ),
            },
            outcome is Ok ==> {
                let limits = old(self)@.account(order.account_id).limits;
                &&& limits.minimum_price.0 <= order.price.0 <= limits.maximum_price.0
                &&& order.quantity.0 <= limits.max_quantity.0
                &&& !worth_exceeds(order.price, order.quantity, limits.max_notional)
            },
    {
        if self.killed {
            return Err(RejectReason::KillSwitch);
        }
        if order.quantity.0 == 0 {
            return Err(RejectReason::InvalidQuantity);
        }
        if let Some(maximum) = self.maximum_order_id {
            if order.order_id.0 <= maximum.0 {
                return Err(RejectReason::DuplicateOrderId);
            }
        }
        if self.pool.is_full() {
            return Err(RejectReason::OrderCapacity);
        }
        let account_slot = match self.account_slot(order.account_id) {
            Some(slot) => slot,
            None => {
                return Err(RejectReason::UnknownAccount);
            },
        };
        let account = self.accounts[account_slot];
        proof {
            self.lemma_bounds(order.account_id);
        }
        if let Some(reason) = evaluate_limits(&account, &order) {
            return Err(reason);
        }
        proof {
            lemma_worth(order.price, order.quantity, account.limits.max_notional);
        }
        let ghost before = *self;
        let reservation = ReservationRiskState {
            order_id: order.order_id,
            account_id: order.account_id,
            side: order.side,
            quantity: order.quantity,
        };
        proof {
            assert(!self.pool.has_order(order.order_id)) by {
                if self.pool.has_order(order.order_id) {
                    let s = choose|s: int|
                        0 <= s < self.pool.slots().len() && (#[trigger] self.pool.slots()[s]) is Some
                            && self.pool.slots()[s]->0.order_id == order.order_id;
                    assert(self@.slots[s] is Some);
                }
            }
        }
        let slot: usize = self.pool.allocate(reservation);
        let (buys, sells) = match order.side {
            Side::Buy => (account.reserved_buys + order.quantity.0 as u128, account.reserved_sells),
            Side::Sell => (
                account.reserved_buys,
                account.reserved_sells + order.quantity.0 as u128,
            ),
        };
        let next = AccountRiskState {
            reserved_buys: buys,
            reserved_sells: sells,
            open_orders: account.open_orders + 1,
            ..account
        };
        self.accounts.set(account_slot, next);
        self.maximum_order_id = Some(order.order_id);
        proof {
            before.pool.lemma_pool();
            assert(before@.slots[slot as int] is None);
            self.lemma_same_accounts(before);
            assert(limits_valid(before@.accounts[account_slot as int].limits));
            lemma_post(
                before@,
                slot as int,
                Some(reservation),
                next,
                Some(order.order_id),
                self.pool.free(),
            );
            assert(self@ =~= before@.reserved(order));
        }
        Ok(())
    }

    /// The slot and the reservation of an order.
    fn live_reservation(&self, order_id: OrderId) -> (found: Option<
        (usize, ReservationRiskState),
    >)
        requires
            self.wf(),
        ensures
            found is Some <==> self@.has_order(order_id),
            found is Some ==> {
                let (slot, reservation) = found->0;
                &&& slot == self@.slot_of(order_id)
                &&& slot < ORDERS
                &&& self@.slots[slot as int] == Some(reservation)
                &&& self@.reservation(order_id) == reservation
                &&& reservation.order_id == order_id
            },
    {
        proof {
            self.pool.lemma_pool();
            if self@.has_order(order_id) {
                let slot = self@.slot_of(order_id);
                assert(self@.is_order(order_id, slot));
                assert(self.pool.slots()[slot] is Some);
            }
        }
        let found = self.pool.find(order_id);
        proof {
            if found is Some {
                let (slot, reservation) = found->0;
                assert(self@.is_order(order_id, slot as int));
                self.lemma_reservation(slot as int);
            }
        }
        found
    }

    /// The account with `released` taken off its reserved total on `side`, and
    /// the given settled position and open orders.
    fn post_fill(
        account: AccountRiskState,
        side: Side,
        settled_position: i128,
        released: u64,
        open_orders: u32,
    ) -> (next: AccountRiskState)
        requires
            side == Side::Buy ==> account.reserved_buys >= released,
            side == Side::Sell ==> account.reserved_sells >= released,
        ensures
            next == (AccountRiskState {
                settled_position,
                open_orders,
                ..reserve_more(account, side, -(released as int))
            }),
    {
        let (buys, sells) = match side {
            Side::Buy => (account.reserved_buys - released as u128, account.reserved_sells),
            Side::Sell => (account.reserved_buys, account.reserved_sells - released as u128),
        };
        AccountRiskState {
            settled_position,
            reserved_buys: buys,
            reserved_sells: sells,
            open_orders,
            ..account
        }
    }

    /// The settled position once `filled` has traded, or `None` beyond its
    /// machine range.
    fn settle_position(account: &AccountRiskState, side: Side, filled: u64) -> (position: Option<
        i128,
    >)
        ensures
            ({
                let exact = settled_after(*account, side, filled as int);
                if exact > i128::MAX || exact < i128::MIN {
                    position is None
                } else {
                    position is Some && position->0 == exact
                }
            }),
    {
        match side {
            Side::Buy => account.settled_position.checked_add(filled as i128),
            Side::Sell => account.settled_position.checked_sub(filled as i128),
        }
    }

    /// Closes a located reservation: the filled quantity becomes settled
    /// position and the full remaining reservation is released.
    fn settle_reservation(
        &mut self,
        slot: usize,
        reservation: ReservationRiskState,
        filled: Quantity,
    ) -> (outcome: Result<(), RejectReason>)
        requires
            old(self).wf(),
            slot < ORDERS,
            old(self)@.slots[slot as int] == Some(reservation),
        ensures
            final(self).wf(),
            if old(self)@.fill_overflows(reservation.order_id, filled) {
                &&& outcome == Err::<(), _>(RejectReason::ArithmeticOverflow)
                &&& *final(self) == *old(self)
            } else {
                &&& outcome == Ok::<_, RejectReason>(())
                &&& final(self)@ == old(self)@.settled(reservation.order_id, filled)
            },
    {
        proof {
            self.pool.lemma_pool();
            self.lemma_reservation(slot as int);
        }
        let account_slot = match self.account_slot(reservation.account_id) {
            Some(account_slot) => account_slot,
            None => {
                assert(false);
                return Err(RejectReason::UnknownAccount);
            },
        };
        let account = self.accounts[account_slot];
        let position = match Self::settle_position(&account, reservation.side, filled.0) {
            Some(position) => position,
            None => {
                return Err(RejectReason::ArithmeticOverflow);
            },
        };
        let ghost before = *self;
        let next = Self::post_fill(
            account,
            reservation.side,
            position,
            reservation.quantity.0,
            account.open_orders - 1,
        );
        self.accounts.set(account_slot, next);
        self.pool.release(slot);
        proof {
            self.lemma_same_accounts(before);
            lemma_post(
                before@,
                slot as int,
                None,
                next,
                before.maximum_order_id,
                self.pool.free(),
            );
            assert(self@ =~= before@.settled(reservation.order_id, filled));
        }
        Ok(())
    }

    /// Releases unfilled exposure and retains filled exposure as position. A
    /// refusal changes nothing.
    pub fn settle(&mut self, order_id: OrderId, filled_quantity: Quantity) -> (outcome: Result<
        (),
        RejectReason,
    >)
        requires
            old(self).wf(),
        ensures
            final(self).wf(),
            match old(self)@.settle_refusal(order_id, filled_quantity) {
                Some(reason) => outcome == Err::<(), _>(reason) && *final(self) == *old(self),
                None => outcome == Ok::<_, RejectReason>(()) && final(self)@ == old(self)@.settled(
                    order_id,
                    filled_quantity,
                ),
            },
    {
        let (slot, reservation) = match self.live_reservation(order_id) {
            Some(found) => found,
            None => {
                return Err(RejectReason::UnknownOrder);
            },
        };
        if filled_quantity.0 > reservation.quantity.0 {
            return Err(RejectReason::InvalidQuantity);
        }
        self.settle_reservation(slot, reservation, filled_quantity)
    }

    /// Applies a fill while retaining the signed projected exposure. When the
    /// reservation is fully filled, the order is closed but the resulting
    /// position remains in the projected position. A refusal changes nothing.
    pub fn record_fill(&mut self, order_id: OrderId, filled_quantity: Quantity) -> (outcome: Result<
        (),
        RejectReason,
    >)
        requires
            old(self).wf(),
        ensures
            final(self).wf(),
            match old(self)@.fill_refusal(order_id, filled_quantity) {
                Some(reason) => outcome == Err::<(), _>(reason) && *final(self) == *old(self),
                None => outcome == Ok::<_, RejectReason>(()) && final(self)@ == old(self)@.filled(
                    order_id,
                    filled_quantity,
                ),
            },
    {
        if filled_quantity.0 == 0 {
            return Err(RejectReason::InvalidQuantity);
        }
        let (slot, reservation) = match self.live_reservation(order_id) {
            Some(found) => found,
            None => {
                return Err(RejectReason::UnknownOrder);
            },
        };
        if filled_quantity.0 > reservation.quantity.0 {
            return Err(RejectReason::InvalidQuantity);
        }
        if filled_quantity.0 == reservation.quantity.0 {
            return self.settle_reservation(slot, reservation, filled_quantity);
        }
        proof {
            self.pool.lemma_pool();
            self.lemma_reservation(slot as int);
        }
        let account_slot = match self.account_slot(reservation.account_id) {
            Some(account_slot) => account_slot,
            None => {
                assert(false);
                return Err(RejectReason::UnknownAccount);
            },
        };
        let account = self.accounts[account_slot];
        let position = match Self::settle_position(&account, reservation.side, filled_quantity.0) {
            Some(position) => position,
            None => {
                return Err(RejectReason::ArithmeticOverflow);
            },
        };
        let ghost before = *self;
        let left = Quantity(reservation.quantity.0 - filled_quantity.0);
        let next = Self::post_fill(
            account,
            reservation.side,
            position,
            filled_quantity.0,
            account.open_orders,
        );
        self.accounts.set(account_slot, next);
        self.pool.set_quantity(slot, left);
        proof {
            self.lemma_same_accounts(before);
            lemma_post(
                before@,
                slot as int,
                Some(ReservationRiskState { quantity: left, ..reservation }),
                next,
                before.maximum_order_id,
                before.pool.free(),
            );
            assert(self@ =~= before@.filled(order_id, filled_quantity));
        }
        Ok(())
    }

    /// Changes a located reservation to `quantity`, with the account's totals
    /// to match.
    fn resize(
        &mut self,
        slot: usize,
        reservation: ReservationRiskState,
        account_slot: usize,
        quantity: Quantity,
    )
        requires
            old(self).wf(),
            slot < ORDERS,
            old(self)@.slots[slot as int] == Some(reservation),
            account_slot == old(self)@.account_index(reservation.account_id),
            account_slot < old(self).accounts@.len(),
        ensures
            final(self).wf(),
            final(self)@ == old(self)@.adjusted(reservation.order_id, quantity),
    {
        let ghost before = *self;
        proof {
            self.pool.lemma_pool();
            self.lemma_reservation(slot as int);
            self.lemma_bounds(reservation.account_id);
        }
        let account = self.accounts[account_slot];
        let (buys, sells) = match reservation.side {
            Side::Buy => (
                account.reserved_buys - reservation.quantity.0 as u128 + quantity.0 as u128,
                account.reserved_sells,
            ),
            Side::Sell => (
                account.reserved_buys,
                account.reserved_sells - reservation.quantity.0 as u128 + quantity.0 as u128,
            ),
        };
        let next = AccountRiskState { reserved_buys: buys, reserved_sells: sells, ..account };
        self.accounts.set(account_slot, next);
        self.pool.set_quantity(slot, quantity);
        proof {
            self.lemma_same_accounts(before);
            lemma_post(
                before@,
                slot as int,
                Some(ReservationRiskState { quantity, ..reservation }),
                next,
                before.maximum_order_id,
                before.pool.free(),
            );
            assert(self@ =~= before@.adjusted(reservation.order_id, quantity));
        }
    }

    /// Amends an owned reservation's total quantity without touching the
    /// book. Returns the released amount, zero for increases and no-op
    /// changes, and the quantity before. Increases re-check position,
    /// notional, and arithmetic limits at the new total; decreases release
    /// exposure immediately. A refusal changes nothing.
    pub fn adjust_reservation(
        &mut self,
        order_id: OrderId,
        account_id: AccountId,
        price: PriceTicks,
        new_quantity: Quantity,
    ) -> (outcome: Result<(Quantity, Quantity), RejectReason>)
        requires
            old(self).wf(),
        ensures
            final(self).wf(),
            match old(self)@.adjust_refusal(order_id, account_id, price, new_quantity) {
                Some(reason) => {
                    &&& outcome == Err::<(Quantity, Quantity), _>(reason)
                    &&& *final(self) == *old(self)
                },
                None => {
                    &&& outcome == Ok::<_, RejectReason>(
                        old(self)@.adjust_answer(order_id, new_quantity),
                    )
                    &&& final(self)@ == old(self)@.adjusted(order_id, new_quantity)
                },
            },
            outcome is Ok && new_quantity.0 > old(self)@.reservation(order_id).quantity.0
                ==> !worth_exceeds(
                price,
                new_quantity,
                old(self)@.account(account_id).limits.max_notional,
            ),
    {
        let (slot, reservation) = match self.live_reservation(order_id) {
            Some(found) => found,
            None => {
                return Err(RejectReason::UnknownOrder);
            },
        };
        if reservation.account_id.0 != account_id.0 {
            return Err(RejectReason::NotOrderOwner);
        }
        let prior = reservation.quantity;
        proof {
            self.pool.lemma_pool();
            self.lemma_reservation(slot as int);
            self.lemma_bounds(account_id);
        }
        if new_quantity.0 == prior.0 {
            proof {
                lemma_unadjusted(self@, order_id);
            }
            return Ok((Quantity(0), prior));
        }
        let account_slot = match self.account_slot(account_id) {
            Some(account_slot) => account_slot,
            None => {
                assert(false);
                return Err(RejectReason::UnknownAccount);
            },
        };
        let account = self.accounts[account_slot];
        if new_quantity.0 > prior.0 {
            let added: u64 = new_quantity.0 - prior.0;
            let (buys, sells) = match reservation.side {
                Side::Buy => (account.reserved_buys + added as u128, account.reserved_sells),
                Side::Sell => (account.reserved_buys, account.reserved_sells + added as u128),
            };
            if price.0 == i64::MIN {
                return Err(RejectReason::ArithmeticOverflow);
            }
            if worth(price, new_quantity) > account.limits.max_notional {
                return Err(RejectReason::NotionalLimit);
            }
            proof {
                lemma_worth(price, new_quantity, account.limits.max_notional);
            }
            if let Some(reason) = check_position(
                account.settled_position,
                buys,
                sells,
                account.limits.max_abs_position.0,
            ) {
                return Err(reason);
            }
            self.resize(slot, reservation, account_slot, new_quantity);
            Ok((Quantity(0), prior))
        } else {
            self.resize(slot, reservation, account_slot, new_quantity);
            Ok((Quantity(prior.0 - new_quantity.0), prior))
        }
    }

    /// Restores a reservation's total quantity unconditionally after a
    /// rolled-back book mutation. Skips limit checks: the prior state passed
    /// them, and the rollback must not fail. A refusal changes nothing.
    pub fn restore_reservation(
        &mut self,
        order_id: OrderId,
        account_id: AccountId,
        prior_quantity: Quantity,
    ) -> (outcome: Result<(), RejectReason>)
        requires
            old(self).wf(),
        ensures
            final(self).wf(),
            match old(self)@.owner_refusal(order_id, account_id) {
                Some(reason) => outcome == Err::<(), _>(reason) && *final(self) == *old(self),
                None => outcome == Ok::<_, RejectReason>(()) && final(self)@ == old(self)@.adjusted(
                    order_id,
                    prior_quantity,
                ),
            },
    {
        let (slot, reservation) = match self.live_reservation(order_id) {
            Some(found) => found,
            None => {
                return Err(RejectReason::UnknownOrder);
            },
        };
        if reservation.account_id.0 != account_id.0 {
            return Err(RejectReason::NotOrderOwner);
        }
        proof {
            self.pool.lemma_pool();
            self.lemma_reservation(slot as int);
        }
        if reservation.quantity.0 == prior_quantity.0 {
            proof {
                lemma_unadjusted(self@, order_id);
            }
            return Ok(());
        }
        let account_slot = match self.account_slot(account_id) {
            Some(account_slot) => account_slot,
            None => {
                assert(false);
                return Err(RejectReason::UnknownAccount);
            },
        };
        self.resize(slot, reservation, account_slot, prior_quantity);
        Ok(())
    }

    /// Validates ownership of an open reservation.
    pub fn can_cancel(&self, order_id: OrderId, account_id: AccountId) -> (outcome: Result<
        (),
        RejectReason,
    >)
        requires
            self.wf(),
        ensures
            outcome == match self@.owner_refusal(order_id, account_id) {
                Some(reason) => Err::<(), RejectReason>(reason),
                None => Ok(()),
            },
    {
        match self.live_reservation(order_id) {
            None => Err(RejectReason::UnknownOrder),
            Some((slot, reservation)) => {
                if reservation.account_id.0 != account_id.0 {
                    Err(RejectReason::NotOrderOwner)
                } else {
                    Ok(())
                }
            },
        }
    }

    /// Releases the full remaining reservation for an owned canceled order. A
    /// refusal changes nothing.
    pub fn cancel_reservation(&mut self, order_id: OrderId, account_id: AccountId) -> (outcome:
        Result<Quantity, RejectReason>)
        requires
            old(self).wf(),
        ensures
            final(self).wf(),
            match old(self)@.owner_refusal(order_id, account_id) {
                Some(reason) => outcome == Err::<Quantity, _>(reason) && *final(self) == *old(self),
                None => {
                    &&& outcome == Ok::<_, RejectReason>(
                        old(self)@.reservation(order_id).quantity,
                    )
                    &&& final(self)@ == old(self)@.settled(order_id, Quantity(0))
                },
            },
    {
        let (slot, reservation) = match self.live_reservation(order_id) {
            Some(found) => found,
            None => {
                return Err(RejectReason::UnknownOrder);
            },
        };
        if reservation.account_id.0 != account_id.0 {
            return Err(RejectReason::NotOrderOwner);
        }
        match self.settle_reservation(slot, reservation, Quantity(0)) {
            Ok(()) => Ok(reservation.quantity),
            Err(reason) => {
                assert(false);
                Err(reason)
            },
        }
    }

    /// Projected position and open orders of an account.
    #[must_use]
    pub fn account_snapshot(&self, id: AccountId) -> (snapshot: Option<(i128, u32)>)
        requires
            self.wf(),
        ensures
            snapshot == self@.snapshot(id),
    {
        match self.account_slot(id) {
            None => None,
            Some(slot) => {
                let account = self.accounts[slot];
                proof {
                    self.lemma_bounds(id);
                }
                match account.settled_position.checked_add(account.reserved_buys as i128) {
                    None => None,
                    Some(long) => match long.checked_sub(account.reserved_sells as i128) {
                        None => None,
                        Some(projected) => Some((projected, account.open_orders)),
                    },
                }
            },
        }
    }
}

proof fn lemma_registered(view: RiskView, id: AccountId, limits: RiskLimits)
    requires
        view.sound(),
        limits_valid(limits),
        !view.has_account(id),
    ensures
        view.registered(id, limits).sound(),
{
    let after = view.registered(id, limits);
    assert(exposure(view.slots, id, Side::Buy) == 0 && exposure(view.slots, id, Side::Sell) == 0
        && open_count(view.slots, id) == 0) by {
        lemma_unknown_account(view, id, view.slots);
    }
    assert forall|s: int| 0 <= s < after.slots.len() && (#[trigger] after.slots[s]) is Some implies after.has_account(
        after.slots[s]->0.account_id,
    ) by {
        let owner = view.slots[s]->0.account_id;
        assert(view.has_account(owner));
        let i = view.account_index(owner);
        assert(view.is_account(owner, i));
        assert(after.is_account(owner, i));
    }
    assert forall|i: int, j: int|
        0 <= i < after.accounts.len() && 0 <= j < after.accounts.len() && (
        #[trigger] after.accounts[i]).id == (#[trigger] after.accounts[j]).id implies i == j by {
        if i < view.accounts.len() {
            assert(view.is_account(view.accounts[i].id, i));
        }
        if j < view.accounts.len() {
            assert(view.is_account(view.accounts[j].id, j));
        }
    }
    assert forall|i: int| 0 <= i < after.accounts.len() implies account_balanced(
        #[trigger] after.accounts[i],
        after.slots,
    ) && limits_valid(after.accounts[i].limits) by {
        if i < view.accounts.len() {
            assert(after.accounts[i] == view.accounts[i]);
        }
    }
}

/// An account that is not registered has no reservation.
proof fn lemma_unknown_account(
    view: RiskView,
    id: AccountId,
    slots: Seq<Option<ReservationRiskState>>,
)
    requires
        view.sound(),
        !view.has_account(id),
        slots.len() <= view.slots.len(),
        forall|s: int| 0 <= s < slots.len() ==> #[trigger] slots[s] == view.slots[s],
    ensures
        exposure(slots, id, Side::Buy) == 0,
        exposure(slots, id, Side::Sell) == 0,
        open_count(slots, id) == 0,
    decreases slots.len(),
{
    if slots.len() > 0 {
        lemma_unknown_account(view, id, slots.drop_last());
        let s = slots.len() - 1;
        if slots[s] is Some {
            assert(view.slots[s] is Some);
            assert(view.has_account(view.slots[s]->0.account_id));
        }
    }
}

proof fn lemma_killed(view: RiskView, killed: bool)
    requires
        view.sound(),
    ensures
        (RiskView { killed, ..view }).sound(),
{
    let after = RiskView { killed, ..view };
    assert forall|s: int| 0 <= s < after.slots.len() && (#[trigger] after.slots[s]) is Some implies after.has_account(
        after.slots[s]->0.account_id,
    ) by {
        let owner = view.slots[s]->0.account_id;
        let i = view.account_index(owner);
        assert(view.is_account(owner, i));
        assert(after.is_account(owner, i));
    }
}

proof fn lemma_account_killed(view: RiskView, id: AccountId, killed: bool)
    requires
        view.sound(),
        view.has_account(id),
    ensures
        view.with_account(AccountRiskState { killed, ..view.account(id) }).sound(),
{
    let n = view.account_index(id);
    assert(view.is_account(id, n));
    let after = view.with_account(AccountRiskState { killed, ..view.account(id) });
    assert forall|s: int| 0 <= s < after.slots.len() && (#[trigger] after.slots[s]) is Some implies after.has_account(
        after.slots[s]->0.account_id,
    ) by {
        let owner = view.slots[s]->0.account_id;
        let i = view.account_index(owner);
        assert(view.is_account(owner, i));
        assert(after.is_account(owner, i));
    }
    assert forall|i: int| 0 <= i < after.accounts.len() implies account_balanced(
        #[trigger] after.accounts[i],
        after.slots,
    ) && limits_valid(after.accounts[i].limits) by {
        assert(account_balanced(view.accounts[i], view.slots));
    }
}

/// Changing a reservation to the quantity it has changes nothing.
proof fn lemma_unadjusted(view: RiskView, id: OrderId)
    requires
        view.sound(),
        view.has_order(id),
    ensures
        view.adjusted(id, view.reservation(id).quantity) == view,
{
    let slot = view.slot_of(id);
    assert(view.is_order(id, slot));
    let owner = view.slots[slot]->0.account_id;
    assert(view.has_account(owner));
    let i = view.account_index(owner);
    assert(view.is_account(owner, i));
    assert(view.adjusted(id, view.reservation(id).quantity) =~= view);
}

} // verus!
