//! What holds of every risk state and of every request it accepts.

use vstd::prelude::*;

use crate::risk::engine::snapshot::{
    accounts_ascend, exports, held, live_total, reservations_ascend,
};
use crate::risk::model::{
    account_balanced, exposure, lemma_count_update, lemma_exposure_bound, lemma_exposure_update,
    limits_valid, open_count, position_fault, RiskView,
};
use crate::risk::state::{
    account_fault, account_order_fault, as_slots, knows, lemma_accounts_ascend,
    lemma_reservations_ascend, reservation_order_fault, totals_fault,
};
use crate::risk::{AccountRiskState, ReservationRiskState, RiskEngineState, RiskLimits};
use crate::types::{AccountId, NewOrder, OrderId, PriceTicks, Quantity, RejectReason, Side};

verus! {

/// The position of an account once everything reserved has traded.
pub open spec fn projected(account: AccountRiskState) -> int {
    account.settled_position + account.reserved_buys - account.reserved_sells
}

/// The account keeps to its position and order limits, whichever of its open
/// orders trade.
pub open spec fn within_limits(account: AccountRiskState) -> bool {
    &&& position_fault(
        account.settled_position as int,
        account.reserved_buys as int,
        account.reserved_sells as int,
        account.limits.max_abs_position.0 as int,
    ) is None
    &&& account.open_orders <= account.limits.max_open_orders
}

impl RiskView {
    /// Every account keeps to its limits.
    pub open spec fn contained(self) -> bool {
        forall|i: int| 0 <= i < self.accounts.len() ==> within_limits(#[trigger] self.accounts[i])
    }
}

/// The place and the totals of an order's account.
pub proof fn lemma_order(view: RiskView, id: OrderId)
    requires
        view.sound(),
        view.has_order(id),
    ensures
        view.is_order(id, view.slot_of(id)),
        view.has_account(view.reservation(id).account_id),
        view.is_account(
            view.reservation(id).account_id,
            view.account_index(view.reservation(id).account_id),
        ),
        ({
            let reservation = view.reservation(id);
            let account = view.account(reservation.account_id);
            &&& reservation.side == Side::Buy ==> account.reserved_buys >= reservation.quantity.0
            &&& reservation.side == Side::Sell ==> account.reserved_sells >= reservation.quantity.0
            &&& account.open_orders >= 1
            &&& account.id == reservation.account_id
        }),
{
    let slot = view.slot_of(id);
    assert(view.is_order(id, slot));
    let owner = view.slots[slot]->0.account_id;
    assert(view.has_account(owner));
    let i = view.account_index(owner);
    assert(view.is_account(owner, i));
    assert(account_balanced(view.accounts[i], view.slots));
    lemma_exposure_update(view.slots, slot, None, owner, Side::Buy);
    lemma_exposure_update(view.slots, slot, None, owner, Side::Sell);
    lemma_count_update(view.slots, slot, None, owner);
}

/// An account is found at its own position.
pub proof fn lemma_account(view: RiskView, id: AccountId, i: int)
    requires
        forall|i: int, j: int|
            0 <= i < view.accounts.len() && 0 <= j < view.accounts.len() && (
            #[trigger] view.accounts[i]).id == (#[trigger] view.accounts[j]).id ==> i == j,
        view.is_account(id, i),
    ensures
        view.has_account(id),
        view.account_index(id) == i,
{
    let j = view.account_index(id);
    assert(view.is_account(id, j));
}

/// Order identifiers never repeat: one at or below the watermark is refused,
/// and neither fills nor cancels nor amendments lower the watermark.
pub proof fn law_order_ids_never_repeat(
    view: RiskView,
    order: NewOrder,
    id: OrderId,
    quantity: Quantity,
)
    requires
        view.maximum_order_id is Some,
        order.order_id.0 <= (view.maximum_order_id->0).0,
    ensures
        view.reserve_refusal(order) is Some,
        !view.killed && order.quantity.0 > 0 ==> view.reserve_refusal(order) == Some(
            RejectReason::DuplicateOrderId,
        ),
        view.settled(id, quantity).maximum_order_id == view.maximum_order_id,
        view.filled(id, quantity).maximum_order_id == view.maximum_order_id,
        view.adjusted(id, quantity).maximum_order_id == view.maximum_order_id,
        view.reserved(order).maximum_order_id == Some(order.order_id),
{
}

/// A fill moves exposure from reserved to settled and keeps the projected
/// position of its account, as of every other.
pub proof fn law_fill_keeps_projection(view: RiskView, id: OrderId, quantity: Quantity, i: int)
    requires
        view.sound(),
        view.fill_refusal(id, quantity) is None,
        0 <= i < view.accounts.len(),
    ensures
        view.filled(id, quantity).accounts.len() == view.accounts.len(),
        projected(view.filled(id, quantity).accounts[i]) == projected(view.accounts[i]),
{
    lemma_order(view, id);
}

/// One more quantity fits the totals of an account.
pub proof fn lemma_totals_fit(view: RiskView, n: int)
    requires
        view.sound(),
        view.slots.len() <= u32::MAX,
        0 <= n < view.accounts.len(),
    ensures
        view.accounts[n].reserved_buys + u64::MAX <= u128::MAX,
        view.accounts[n].reserved_sells + u64::MAX <= u128::MAX,
{
    let account = view.accounts[n];
    assert(account_balanced(account, view.slots));
    lemma_exposure_bound(view.slots, account.id, Side::Buy);
    lemma_exposure_bound(view.slots, account.id, Side::Sell);
    let count = view.slots.len();
    assert(count * u64::MAX <= u32::MAX * u64::MAX) by (nonlinear_arith)
        requires
            count <= u32::MAX,
    ;
}

/// Reserving and cancelling an order again gives back the state, but for the
/// watermark.
pub proof fn law_reserve_then_cancel_restores(view: RiskView, order: NewOrder)
    requires
        view.sound(),
        view.reserve_refusal(order) is None,
        view.free[0] < view.slots.len(),
        view.slots[view.free[0] as int] is None,
        view.slots.len() <= u32::MAX,
    ensures
        view.reserved(order).has_order(order.order_id),
        view.reserved(order).settled(order.order_id, Quantity(0)) == (RiskView {
            maximum_order_id: Some(order.order_id),
            ..view
        }),
{
    let after = view.reserved(order);
    let slot = view.free[0] as int;
    let owner = order.account_id;
    let n = view.account_index(owner);
    assert(view.is_account(owner, n));
    lemma_totals_fit(view, n);
    assert(after.is_order(order.order_id, slot));
    let found = after.slot_of(order.order_id);
    assert(after.is_order(order.order_id, found));
    if found != slot {
        assert(view.slots[found] is Some);
    }
    assert forall|i: int, j: int|
        0 <= i < after.accounts.len() && 0 <= j < after.accounts.len() && (
        #[trigger] after.accounts[i]).id == (#[trigger] after.accounts[j]).id implies i == j by {
        assert(view.accounts[i].id == after.accounts[i].id);
        assert(view.accounts[j].id == after.accounts[j].id);
    }
    assert(after.is_account(owner, n));
    lemma_account(after, owner, n);
    let back = after.settled(order.order_id, Quantity(0));
    assert(back.accounts =~= view.accounts);
    assert(back.slots =~= view.slots);
    assert(back.free =~= view.free);
}

/// Amending a reservation and restoring its prior quantity gives back the
/// state.
pub proof fn law_adjust_then_restore(view: RiskView, id: OrderId, quantity: Quantity)
    requires
        view.sound(),
        view.has_order(id),
        view.slots.len() <= u32::MAX,
    ensures
        view.adjusted(id, quantity).has_order(id),
        view.adjusted(id, quantity).adjusted(id, view.reservation(id).quantity) == view,
{
    lemma_order(view, id);
    let slot = view.slot_of(id);
    let owner = view.reservation(id).account_id;
    let n = view.account_index(owner);
    lemma_totals_fit(view, n);
    let after = view.adjusted(id, quantity);
    assert(after.is_order(id, slot));
    let found = after.slot_of(id);
    assert(after.is_order(id, found));
    if found != slot {
        assert(view.slots[found] is Some && view.slots[slot] is Some);
    }
    assert forall|i: int, j: int|
        0 <= i < after.accounts.len() && 0 <= j < after.accounts.len() && (
        #[trigger] after.accounts[i]).id == (#[trigger] after.accounts[j]).id implies i == j by {
        assert(view.accounts[i].id == after.accounts[i].id);
        assert(view.accounts[j].id == after.accounts[j].id);
    }
    assert(after.is_account(owner, n));
    lemma_account(after, owner, n);
    let back = after.adjusted(id, view.reservation(id).quantity);
    assert(back.accounts =~= view.accounts);
    assert(back.slots =~= view.slots);
}

/// Registrations, accepted orders, fills, settlements and amendments keep every
/// account within its limits.
pub proof fn law_limits_are_kept(
    view: RiskView,
    order: NewOrder,
    id: OrderId,
    account_id: AccountId,
    price: PriceTicks,
    quantity: Quantity,
    limits: RiskLimits,
    max_accounts: nat,
)
    requires
        view.sound(),
        view.contained(),
    ensures
        view.register_refusal(account_id, limits, max_accounts) is None ==> view.registered(
            account_id,
            limits,
        ).contained(),
        view.reserve_refusal(order) is None ==> view.reserved(order).contained(),
        view.settle_refusal(id, quantity) is None ==> view.settled(id, quantity).contained(),
        view.fill_refusal(id, quantity) is None ==> view.filled(id, quantity).contained(),
        view.adjust_refusal(id, account_id, price, quantity) is None ==> view.adjusted(
            id,
            quantity,
        ).contained(),
{
    if view.reserve_refusal(order) is None {
        let n = view.account_index(order.account_id);
        assert(view.is_account(order.account_id, n));
        let after = view.reserved(order);
        assert forall|i: int| 0 <= i < after.accounts.len() implies within_limits(
            #[trigger] after.accounts[i],
        ) by {
            assert(within_limits(view.accounts[i]));
        }
    }
    if view.has_order(id) {
        lemma_order(view, id);
        if view.settle_refusal(id, quantity) is None {
            let after = view.settled(id, quantity);
            assert forall|i: int| 0 <= i < after.accounts.len() implies within_limits(
                #[trigger] after.accounts[i],
            ) by {
                assert(within_limits(view.accounts[i]));
            }
            let part = view.filled(id, quantity);
            assert forall|i: int| 0 <= i < part.accounts.len() implies within_limits(
                #[trigger] part.accounts[i],
            ) by {
                assert(within_limits(view.accounts[i]));
            }
        }
        if view.adjust_refusal(id, account_id, price, quantity) is None {
            let after = view.adjusted(id, quantity);
            assert forall|i: int| 0 <= i < after.accounts.len() implies within_limits(
                #[trigger] after.accounts[i],
            ) by {
                assert(within_limits(view.accounts[i]));
            }
        }
    }
}

proof fn lemma_all_none(slots: Seq<Option<ReservationRiskState>>, account: AccountId, side: Side)
    requires
        forall|s: int| 0 <= s < slots.len() ==> (#[trigger] slots[s]) is None,
    ensures
        exposure(slots, account, side) == 0,
        open_count(slots, account) == 0,
    decreases slots.len(),
{
    if slots.len() > 0 {
        assert(slots[slots.len() - 1] is None);
        lemma_all_none(slots.drop_last(), account, side);
    }
}

/// No two slots hold reservations of the same order.
pub open spec fn distinct_orders(slots: Seq<Option<ReservationRiskState>>) -> bool {
    forall|a: int, b: int|
        0 <= a < slots.len() && 0 <= b < slots.len() && (#[trigger] slots[a]) is Some && (
        #[trigger] slots[b]) is Some && slots[a]->0.order_id == slots[b]->0.order_id ==> a == b
}

/// Totals depend on which reservations there are, not on where they are kept.
pub proof fn law_totals_ignore_placement(
    left: Seq<Option<ReservationRiskState>>,
    right: Seq<Option<ReservationRiskState>>,
    account: AccountId,
    side: Side,
)
    requires
        distinct_orders(left),
        distinct_orders(right),
        forall|r: ReservationRiskState| #[trigger] held(left, r) <==> held(right, r),
    ensures
        exposure(left, account, side) == exposure(right, account, side),
        open_count(left, account) == open_count(right, account),
    decreases left.len(),
{
    if left.len() == 0 {
        assert forall|s: int| 0 <= s < right.len() implies (#[trigger] right[s]) is None by {
            if right[s] is Some {
                assert(held(right, right[s]->0));
                assert(held(left, right[s]->0));
            }
        }
        lemma_all_none(right, account, side);
    } else {
        let init = left.drop_last();
        let last = left.len() - 1;
        if left[last] is None {
            assert forall|r: ReservationRiskState| #[trigger] held(init, r) <==> held(right, r) by {
                if held(init, r) {
                    let s = choose|s: int| 0 <= s < init.len() && #[trigger] init[s] == Some(r);
                    assert(left[s] == Some(r));
                    assert(held(left, r));
                }
                if held(right, r) {
                    assert(held(left, r));
                    let s = choose|s: int| 0 <= s < left.len() && #[trigger] left[s] == Some(r);
                    assert(init[s] == Some(r));
                }
            }
            law_totals_ignore_placement(init, right, account, side);
        } else {
            let r = left[last]->0;
            assert(held(left, r));
            assert(held(right, r));
            let j = choose|j: int| 0 <= j < right.len() && #[trigger] right[j] == Some(r);
            let rest = right.update(j, None);
            lemma_exposure_update(right, j, None, account, side);
            lemma_count_update(right, j, None, account);
            assert forall|o: ReservationRiskState| #[trigger] held(init, o) <==> held(rest, o) by {
                if held(init, o) {
                    let s = choose|s: int| 0 <= s < init.len() && #[trigger] init[s] == Some(o);
                    assert(left[s] == Some(o));
                    assert(held(left, o));
                    assert(held(right, o));
                    let m = choose|m: int| 0 <= m < right.len() && #[trigger] right[m] == Some(o);
                    if m == j {
                        assert(left[s] is Some && left[last] is Some);
                    }
                    assert(rest[m] == Some(o));
                }
                if held(rest, o) {
                    let m = choose|m: int| 0 <= m < rest.len() && #[trigger] rest[m] == Some(o);
                    assert(m != j);
                    assert(right[m] == Some(o));
                    assert(held(right, o));
                    assert(held(left, o));
                    let s = choose|s: int| 0 <= s < left.len() && #[trigger] left[s] == Some(o);
                    if s == last {
                        assert(right[m] is Some && right[j] is Some);
                    }
                    assert(init[s] == Some(o));
                }
            }
            law_totals_ignore_placement(init, rest, account, side);
        }
    }
}

proof fn lemma_live_total_bound(slots: Seq<Option<ReservationRiskState>>)
    ensures
        live_total(slots) <= slots.len(),
    decreases slots.len(),
{
    if slots.len() > 0 {
        lemma_live_total_bound(slots.drop_last());
    }
}

proof fn lemma_ascending_accounts(accounts: Seq<AccountRiskState>, n: int)
    requires
        accounts_ascend(accounts),
        n <= accounts.len(),
    ensures
        account_order_fault(accounts, n) is None,
    decreases n,
{
    if n > 1 {
        lemma_ascending_accounts(accounts, n - 1);
        assert(accounts[n - 2].id.0 < accounts[n - 1].id.0);
    }
}

proof fn lemma_ascending_reservations(reservations: Seq<ReservationRiskState>, n: int)
    requires
        reservations_ascend(reservations),
        n <= reservations.len(),
    ensures
        reservation_order_fault(reservations, n) is None,
    decreases n,
{
    if n > 1 {
        lemma_ascending_reservations(reservations, n - 1);
        assert(reservations[n - 2].order_id.0 < reservations[n - 1].order_id.0);
    }
}

proof fn lemma_totals_without_fault(
    accounts: Seq<AccountRiskState>,
    reservations: Seq<ReservationRiskState>,
    n: int,
)
    requires
        n <= accounts.len(),
        forall|i: int|
            0 <= i < n ==> account_fault(#[trigger] accounts[i], reservations) is None,
    ensures
        totals_fault(accounts, reservations, n) is None,
    decreases n,
{
    if n > 0 {
        lemma_totals_without_fault(accounts, reservations, n - 1);
        assert(account_fault(accounts[n - 1], reservations) is None);
    }
}

/// The canonical record of an engine within its limits, none of whose
/// reservations is empty, is valid, and the engine that it restores has the
/// same record: the same accounts, reservations, watermark and switch.
pub proof fn law_export_restores(
    state: RiskEngineState,
    view: RiskView,
    max_accounts: nat,
    max_orders: nat,
)
    requires
        view.sound(),
        view.contained(),
        exports(state, view),
        view.accounts.len() <= max_accounts,
        view.slots.len() == max_orders,
        forall|s: int|
            0 <= s < view.slots.len() && (#[trigger] view.slots[s]) is Some
                ==> view.slots[s]->0.quantity.0 > 0,
    ensures
        state.fault(max_accounts, max_orders) is None,
        exports(state, state.restored(max_orders)),
{
    let accounts = state.accounts@;
    let reservations = state.reservations@;
    let slots = as_slots(reservations);
    lemma_live_total_bound(view.slots);
    lemma_ascending_accounts(accounts, accounts.len() as int);
    lemma_ascending_reservations(reservations, reservations.len() as int);
    assert forall|i: int| 0 <= i < accounts.len() implies exists|m: int|
        0 <= m < view.accounts.len() && view.accounts[m] == #[trigger] accounts[i] by {
        assert(accounts.contains(accounts[i]));
        assert(view.accounts.contains(accounts[i]));
    }
    assert forall|i: int| 0 <= i < reservations.len() implies held(
        view.slots,
        #[trigger] reservations[i],
    ) by {
        assert(reservations.contains(reservations[i]));
    }
    assert forall|i: int| 0 <= i < accounts.len() implies limits_valid(
        (#[trigger] accounts[i]).limits,
    ) by {
        let m = choose|m: int| 0 <= m < view.accounts.len() && view.accounts[m] == accounts[i];
        assert(limits_valid(view.accounts[m].limits));
    }
    assert forall|i: int| 0 <= i < reservations.len() implies {
        let r = #[trigger] reservations[i];
        &&& r.quantity.0 > 0
        &&& knows(accounts, r.account_id)
        &&& view.maximum_order_id is Some
        &&& r.order_id.0 <= (view.maximum_order_id->0).0
    } by {
        let r = reservations[i];
        assert(held(view.slots, r));
        let s = choose|s: int| 0 <= s < view.slots.len() && #[trigger] view.slots[s] == Some(r);
        assert(view.has_account(r.account_id));
        let m = view.account_index(r.account_id);
        assert(view.is_account(r.account_id, m));
        assert(view.accounts.contains(view.accounts[m]));
        assert(accounts.contains(view.accounts[m]));
        let j = choose|j: int| 0 <= j < accounts.len() && accounts[j] == view.accounts[m];
        assert(accounts[j].id == r.account_id);
    }
    assert(distinct_orders(slots)) by {
        assert forall|a: int, b: int|
            0 <= a < slots.len() && 0 <= b < slots.len() && (#[trigger] slots[a]) is Some && (
            #[trigger] slots[b]) is Some && slots[a]->0.order_id == slots[b]->0.order_id implies a
            == b by {
            assert(slots[a] == Some(reservations[a]) && slots[b] == Some(reservations[b]));
        }
    }
    assert forall|r: ReservationRiskState| #[trigger] held(slots, r) <==> held(view.slots, r) by {
        if held(slots, r) {
            let s = choose|s: int| 0 <= s < slots.len() && #[trigger] slots[s] == Some(r);
            assert(reservations[s] == r);
            assert(reservations.contains(r));
        }
        if held(view.slots, r) {
            assert(reservations.contains(r));
            let s = choose|s: int| 0 <= s < reservations.len() && reservations[s] == r;
            assert(slots[s] == Some(r));
        }
    }
    assert forall|i: int| 0 <= i < accounts.len() implies account_fault(
        #[trigger] accounts[i],
        reservations,
    ) is None by {
        let m = choose|m: int| 0 <= m < view.accounts.len() && view.accounts[m] == accounts[i];
        assert(account_balanced(view.accounts[m], view.slots));
        assert(within_limits(view.accounts[m]));
        law_totals_ignore_placement(slots, view.slots, accounts[i].id, Side::Buy);
        law_totals_ignore_placement(slots, view.slots, accounts[i].id, Side::Sell);
    }
    lemma_totals_without_fault(accounts, reservations, accounts.len() as int);
    if reservations.len() > 0 {
        let last = reservations[reservations.len() - 1];
        assert(last.order_id.0 <= (view.maximum_order_id->0).0);
    }
    let again = state.restored(max_orders);
    lemma_restored_live(reservations, again.slots);
    assert forall|r: ReservationRiskState| #[trigger] reservations.contains(r) <==> held(
        again.slots,
        r,
    ) by {
        if reservations.contains(r) {
            let s = choose|s: int| 0 <= s < reservations.len() && reservations[s] == r;
            assert(again.slots[s] == Some(r));
        }
        if held(again.slots, r) {
            let s = choose|s: int| 0 <= s < again.slots.len() && #[trigger] again.slots[s] == Some(
                r,
            );
            assert(reservations[s] == r);
        }
    }
}

proof fn lemma_restored_live(
    reservations: Seq<ReservationRiskState>,
    slots: Seq<Option<ReservationRiskState>>,
)
    requires
        reservations.len() <= slots.len(),
        forall|s: int|
            0 <= s < slots.len() ==> #[trigger] slots[s] == if s < reservations.len() {
                Some(reservations[s])
            } else {
                None
            },
    ensures
        live_total(slots) == reservations.len(),
    decreases slots.len(),
{
    if slots.len() > 0 {
        let last = slots.len() - 1;
        assert(slots[last] == if last < reservations.len() {
            Some(reservations[last])
        } else {
            None
        });
        if slots.len() == reservations.len() {
            lemma_restored_live(reservations.drop_last(), slots.drop_last());
        } else {
            lemma_restored_live(reservations, slots.drop_last());
        }
    }
}

/// Ascending accounts are told by which they are.
proof fn lemma_same_accounts(left: Seq<AccountRiskState>, right: Seq<AccountRiskState>)
    requires
        accounts_ascend(left),
        accounts_ascend(right),
        left.len() == right.len(),
        forall|account: AccountRiskState| #[trigger]
            left.contains(account) <==> right.contains(account),
    ensures
        left == right,
    decreases left.len(),
{
    if left.len() == 0 {
        assert(left =~= right);
    } else {
        let end = left.len() - 1;
        assert(left.contains(left[end]) && right.contains(right[end]));
        assert(left.contains(right[end]));
        let i = choose|i: int| 0 <= i < left.len() && left[i] == right[end];
        let j = choose|j: int| 0 <= j < right.len() && right[j] == left[end];
        assert(left[end] == right[end]);
        let a = left.drop_last();
        let b = right.drop_last();
        assert forall|account: AccountRiskState| #[trigger]
            a.contains(account) <==> b.contains(account) by {
            if a.contains(account) {
                let k = choose|k: int| 0 <= k < a.len() && a[k] == account;
                assert(left[k] == account && left.contains(account));
                let m = choose|m: int| 0 <= m < right.len() && right[m] == account;
                assert(b[m] == account);
            }
            if b.contains(account) {
                let k = choose|k: int| 0 <= k < b.len() && b[k] == account;
                assert(right[k] == account && right.contains(account));
                assert(left.contains(account));
                let m = choose|m: int| 0 <= m < left.len() && left[m] == account;
                assert(a[m] == account);
            }
        }
        lemma_same_accounts(a, b);
        assert(left =~= a.push(left[end]));
        assert(right =~= b.push(right[end]));
    }
}

/// Ascending reservations are told by which they are.
proof fn lemma_same_reservations(
    left: Seq<ReservationRiskState>,
    right: Seq<ReservationRiskState>,
)
    requires
        reservations_ascend(left),
        reservations_ascend(right),
        left.len() == right.len(),
        forall|reservation: ReservationRiskState| #[trigger]
            left.contains(reservation) <==> right.contains(reservation),
    ensures
        left == right,
    decreases left.len(),
{
    if left.len() == 0 {
        assert(left =~= right);
    } else {
        let end = left.len() - 1;
        assert(left.contains(left[end]) && right.contains(right[end]));
        assert(left.contains(right[end]));
        let i = choose|i: int| 0 <= i < left.len() && left[i] == right[end];
        let j = choose|j: int| 0 <= j < right.len() && right[j] == left[end];
        assert(left[end] == right[end]);
        let a = left.drop_last();
        let b = right.drop_last();
        assert forall|reservation: ReservationRiskState| #[trigger]
            a.contains(reservation) <==> b.contains(reservation) by {
            if a.contains(reservation) {
                let k = choose|k: int| 0 <= k < a.len() && a[k] == reservation;
                assert(left[k] == reservation && left.contains(reservation));
                let m = choose|m: int| 0 <= m < right.len() && right[m] == reservation;
                assert(b[m] == reservation);
            }
            if b.contains(reservation) {
                let k = choose|k: int| 0 <= k < b.len() && b[k] == reservation;
                assert(right[k] == reservation && right.contains(reservation));
                assert(left.contains(reservation));
                let m = choose|m: int| 0 <= m < left.len() && left[m] == reservation;
                assert(a[m] == reservation);
            }
        }
        lemma_same_reservations(a, b);
        assert(left =~= a.push(left[end]));
        assert(right =~= b.push(right[end]));
    }
}

/// Restoring a valid record and exporting it again gives the same record.
pub proof fn law_restore_exports(
    state: RiskEngineState,
    again: RiskEngineState,
    max_accounts: nat,
    max_orders: nat,
)
    requires
        state.fault(max_accounts, max_orders) is None,
        exports(again, state.restored(max_orders)),
    ensures
        again.accounts@ == state.accounts@,
        again.reservations@ == state.reservations@,
        again.maximum_order_id == state.maximum_order_id,
        again.killed == state.killed,
{
    let accounts = state.accounts@;
    let reservations = state.reservations@;
    let view = state.restored(max_orders);
    assert forall|i: int, j: int| 0 <= i < j < accounts.len() implies (#[trigger] accounts[i]).id.0
        < (#[trigger] accounts[j]).id.0 by {
        lemma_accounts_ascend(accounts, accounts.len() as int, i, j);
    }
    assert forall|i: int, j: int| 0 <= i < j < reservations.len() implies (
    #[trigger] reservations[i]).order_id.0 < (#[trigger] reservations[j]).order_id.0 by {
        lemma_reservations_ascend(reservations, reservations.len() as int, i, j);
    }
    lemma_restored_live(reservations, view.slots);
    assert forall|r: ReservationRiskState| #[trigger]
        again.reservations@.contains(r) <==> reservations.contains(r) by {
        if again.reservations@.contains(r) {
            assert(held(view.slots, r));
            let s = choose|s: int| 0 <= s < view.slots.len() && #[trigger] view.slots[s] == Some(r);
            assert(reservations[s] == r);
        }
        if reservations.contains(r) {
            let s = choose|s: int| 0 <= s < reservations.len() && reservations[s] == r;
            assert(view.slots[s] == Some(r));
            assert(held(view.slots, r));
        }
    }
    lemma_same_accounts(again.accounts@, accounts);
    lemma_same_reservations(again.reservations@, reservations);
}

} // verus!
