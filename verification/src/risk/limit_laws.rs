//! What each request is held to, and what it changes, account by account and
//! reservation by reservation.

use vstd::prelude::*;

use crate::risk::laws::{lemma_account, lemma_order, lemma_totals_fit};
use crate::risk::model::{notional, RiskView};
use crate::risk::{RegistrationError, RiskLimits};
use crate::types::{AccountId, NewOrder, OrderId, PriceTicks, Quantity, RejectReason, Side};

verus! {

/// `price` times `quantity` is beyond `maximum`, whatever the sign of the price.
pub open spec fn worth_exceeds(price: PriceTicks, quantity: Quantity, maximum: u128) -> bool {
    price.0 * quantity.0 > maximum || -(price.0 * quantity.0) > maximum
}

/// The worth of an order is beyond `maximum` on the same terms.
pub proof fn lemma_worth(price: PriceTicks, quantity: Quantity, maximum: u128)
    ensures
        worth_exceeds(price, quantity, maximum) == (notional(price, quantity) > maximum),
{
    let p = price.0 as int;
    let q = quantity.0 as int;
    assert(p < 0 ==> p * q <= 0) by (nonlinear_arith)
        requires
            q >= 0,
    ;
    assert(p >= 0 ==> p * q >= 0) by (nonlinear_arith)
        requires
            q >= 0,
    ;
    assert(-p * q == -(p * q)) by (nonlinear_arith);
}

/// No account has this identifier.
pub open spec fn unregistered(view: RiskView, id: AccountId) -> bool {
    forall|i: int| 0 <= i < view.accounts.len() ==> (#[trigger] view.accounts[i]).id != id
}

/// No slot holds a reservation of this order.
pub open spec fn unreserved(view: RiskView, id: OrderId) -> bool {
    forall|s: int|
        0 <= s < view.slots.len() && (#[trigger] view.slots[s]) is Some
            ==> view.slots[s]->0.order_id != id
}

proof fn lemma_known(view: RiskView, account: AccountId, id: OrderId)
    ensures
        unregistered(view, account) == !view.has_account(account),
        unreserved(view, id) == !view.has_order(id),
{
    if view.has_account(account) {
        let i = view.account_index(account);
        assert(view.is_account(account, i));
        assert(view.accounts[i].id == account);
    } else {
        assert forall|i: int| 0 <= i < view.accounts.len() implies (#[trigger] view.accounts[i]).id
            != account by {
            assert(!view.is_account(account, i));
        }
    }
    if view.has_order(id) {
        let s = view.slot_of(id);
        assert(view.is_order(id, s));
        assert(view.slots[s] is Some);
    } else {
        assert forall|s: int| 0 <= s < view.slots.len() && (#[trigger] view.slots[s]) is Some implies view.slots[s]->0.order_id
            != id by {
            assert(!view.is_order(id, s));
        }
    }
}

/// The reservation in slot `s` and the account at `n` that it belongs to.
proof fn lemma_holder(view: RiskView, id: OrderId, s: int, n: int)
    requires
        view.sound(),
        0 <= s < view.slots.len(),
        view.slots[s] is Some,
        view.slots[s]->0.order_id == id,
        0 <= n < view.accounts.len(),
        view.accounts[n].id == view.slots[s]->0.account_id,
    ensures
        view.has_order(id),
        view.slot_of(id) == s,
        view.reservation(id) == view.slots[s]->0,
        view.account_index(view.accounts[n].id) == n,
        view.account(view.accounts[n].id) == view.accounts[n],
        view.slots[s]->0.side == Side::Buy ==> view.accounts[n].reserved_buys
            >= view.slots[s]->0.quantity.0,
        view.slots[s]->0.side == Side::Sell ==> view.accounts[n].reserved_sells
            >= view.slots[s]->0.quantity.0,
        view.accounts[n].open_orders >= 1,
{
    assert(view.is_order(id, s));
    let found = view.slot_of(id);
    assert(view.is_order(id, found));
    assert(view.slots[found] is Some && view.slots[s] is Some);
    assert(view.is_account(view.accounts[n].id, n));
    lemma_account(view, view.accounts[n].id, n);
    lemma_order(view, id);
}

/// Why an order of the account at `n` is refused, each reason with its cause: the
/// first of the causes that holds. An accepted order has a price within the collar,
/// a quantity and a worth up to their maxima, and leaves both worst-case positions
/// and the number of open orders within their limits; an order that does all that
/// is accepted, unless a switch, its number or the storage stands against it.
pub proof fn law_reserve_refusals(view: RiskView, order: NewOrder, n: int)
    requires
        view.sound(),
        0 <= n < view.accounts.len(),
        view.accounts[n].id == order.account_id,
    ensures
        ({
            let refusal = view.reserve_refusal(order);
            let account = view.accounts[n];
            let limits = account.limits;
            let quantity = order.quantity.0 as int;
            let used = view.maximum_order_id is Some && order.order_id.0 <= (
            view.maximum_order_id->0).0;
            let sent = !view.killed && quantity > 0 && !used && view.free.len() > 0;
            let lively = sent && !account.killed;
            let sized = lively && quantity <= limits.max_quantity.0;
            let collared = sized && limits.minimum_price.0 <= order.price.0
                <= limits.maximum_price.0;
            let counted = collared && order.price.0 > i64::MIN;
            let worthy = counted && !worth_exceeds(
                order.price,
                order.quantity,
                limits.max_notional,
            );
            let longest = account.settled_position + account.reserved_buys + if order.side
                == Side::Buy {
                quantity
            } else {
                0
            };
            let shortest = account.settled_position - account.reserved_sells - if order.side
                == Side::Sell {
                quantity
            } else {
                0
            };
            let computed = worthy && longest <= i128::MAX && shortest >= i128::MIN;
            let held = computed && longest <= limits.max_abs_position.0 && shortest
                >= -(limits.max_abs_position.0 as int);
            &&& view.killed || (sent && account.killed) <==> refusal == Some(
                RejectReason::KillSwitch,
            )
            &&& !view.killed && quantity == 0 <==> refusal == Some(RejectReason::InvalidQuantity)
            &&& !view.killed && quantity > 0 && used <==> refusal == Some(
                RejectReason::DuplicateOrderId,
            )
            &&& !view.killed && quantity > 0 && !used && view.free.len() == 0 <==> refusal == Some(
                RejectReason::OrderCapacity,
            )
            &&& lively && quantity > limits.max_quantity.0 <==> refusal == Some(
                RejectReason::QuantityLimit,
            )
            &&& sized && (order.price.0 < limits.minimum_price.0 || order.price.0
                > limits.maximum_price.0) <==> refusal == Some(RejectReason::PriceCollar)
            &&& counted && worth_exceeds(order.price, order.quantity, limits.max_notional)
                <==> refusal == Some(RejectReason::NotionalLimit)
            &&& (collared && order.price.0 == i64::MIN) || (worthy && (longest > i128::MAX
                || shortest < i128::MIN)) <==> refusal == Some(RejectReason::ArithmeticOverflow)
            &&& computed && (longest > limits.max_abs_position.0 || shortest < -(
            limits.max_abs_position.0 as int)) <==> refusal == Some(RejectReason::PositionLimit)
            &&& held && account.open_orders >= limits.max_open_orders <==> refusal == Some(
                RejectReason::OpenOrderLimit,
            )
            &&& held && account.open_orders < limits.max_open_orders <==> refusal is None
        }),
{
    assert(view.is_account(order.account_id, n));
    lemma_account(view, order.account_id, n);
    lemma_worth(order.price, order.quantity, view.accounts[n].limits.max_notional);
}

/// An order of an account that is not registered is refused, whatever it asks for.
pub proof fn law_unregistered_accounts_reserve_nothing(view: RiskView, order: NewOrder)
    requires
        unregistered(view, order.account_id),
    ensures
        view.reserve_refusal(order) is Some,
        !view.killed && order.quantity.0 > 0 && view.free.len() > 0 && (view.maximum_order_id is None
            || order.order_id.0 > (view.maximum_order_id->0).0) ==> view.reserve_refusal(order)
            == Some(RejectReason::UnknownAccount),
{
    lemma_known(view, order.account_id, order.order_id);
}

/// An accepted order of the account at `n` takes the first free slot. Its quantity is
/// added to what its account has reserved on its side, and one to the account's open
/// orders; its number is the new watermark. Nothing else changes.
pub proof fn law_reserve_changes_one_account(view: RiskView, order: NewOrder, n: int)
    requires
        view.sound(),
        view.slots.len() <= u32::MAX,
        0 <= n < view.accounts.len(),
        view.accounts[n].id == order.account_id,
        view.reserve_refusal(order) is None,
        view.free[0] < view.slots.len(),
    ensures
        ({
            let after = view.reserved(order);
            let slot = view.free[0] as int;
            let was = view.accounts[n];
            let is = after.accounts[n];
            &&& after.accounts.len() == view.accounts.len()
            &&& forall|i: int|
                0 <= i < view.accounts.len() && i != n ==> #[trigger] after.accounts[i]
                    == view.accounts[i]
            &&& is.id == was.id
            &&& is.limits == was.limits
            &&& is.killed == was.killed
            &&& is.settled_position == was.settled_position
            &&& is.reserved_buys == was.reserved_buys + if order.side == Side::Buy {
                order.quantity.0 as int
            } else {
                0
            }
            &&& is.reserved_sells == was.reserved_sells + if order.side == Side::Sell {
                order.quantity.0 as int
            } else {
                0
            }
            &&& is.open_orders == was.open_orders + 1
            &&& after.slots.len() == view.slots.len()
            &&& forall|s: int|
                0 <= s < view.slots.len() && s != slot ==> #[trigger] after.slots[s]
                    == view.slots[s]
            &&& after.slots[slot] is Some
            &&& after.slots[slot]->0.order_id == order.order_id
            &&& after.slots[slot]->0.account_id == order.account_id
            &&& after.slots[slot]->0.side == order.side
            &&& after.slots[slot]->0.quantity == order.quantity
            &&& after.free == view.free.skip(1)
            &&& after.maximum_order_id == Some(order.order_id)
            &&& after.killed == view.killed
        }),
{
    assert(view.is_account(order.account_id, n));
    lemma_account(view, order.account_id, n);
    lemma_totals_fit(view, n);
}

/// Why a fill or a settlement of the reservation in slot `s` is refused, each reason
/// with its cause.
pub proof fn law_fill_refusals(view: RiskView, id: OrderId, filled: Quantity, s: int, n: int)
    requires
        view.sound(),
        0 <= s < view.slots.len(),
        view.slots[s] is Some,
        view.slots[s]->0.order_id == id,
        0 <= n < view.accounts.len(),
        view.accounts[n].id == view.slots[s]->0.account_id,
    ensures
        ({
            let reservation = view.slots[s]->0;
            let excessive = filled.0 > reservation.quantity.0;
            let position = view.accounts[n].settled_position + if reservation.side == Side::Buy {
                filled.0 as int
            } else {
                -(filled.0 as int)
            };
            let overflows = position > i128::MAX || position < i128::MIN;
            let settle = view.settle_refusal(id, filled);
            let fill = view.fill_refusal(id, filled);
            &&& excessive <==> settle == Some(RejectReason::InvalidQuantity)
            &&& !excessive && overflows <==> settle == Some(RejectReason::ArithmeticOverflow)
            &&& !excessive && !overflows <==> settle is None
            &&& excessive || filled.0 == 0 <==> fill == Some(RejectReason::InvalidQuantity)
            &&& !excessive && filled.0 > 0 && overflows <==> fill == Some(
                RejectReason::ArithmeticOverflow,
            )
            &&& !excessive && filled.0 > 0 && !overflows <==> fill is None
        }),
{
    lemma_holder(view, id, s, n);
}

/// Without a reservation nothing is filled, settled, cancelled or amended.
pub proof fn law_unreserved_orders_are_refused(
    view: RiskView,
    id: OrderId,
    account: AccountId,
    price: PriceTicks,
    quantity: Quantity,
)
    requires
        unreserved(view, id),
    ensures
        view.settle_refusal(id, quantity) == Some(RejectReason::UnknownOrder),
        quantity.0 > 0 ==> view.fill_refusal(id, quantity) == Some(RejectReason::UnknownOrder),
        quantity.0 == 0 ==> view.fill_refusal(id, quantity) == Some(RejectReason::InvalidQuantity),
        view.owner_refusal(id, account) == Some(RejectReason::UnknownOrder),
        view.adjust_refusal(id, account, price, quantity) == Some(RejectReason::UnknownOrder),
{
    lemma_known(view, account, id);
}

/// The accounts but the one at `n` and the slots but `s` are as they were, and so are
/// the watermark and the switch.
pub open spec fn kept_elsewhere(view: RiskView, after: RiskView, s: int, n: int) -> bool {
    &&& after.accounts.len() == view.accounts.len()
    &&& forall|i: int|
        0 <= i < view.accounts.len() && i != n ==> #[trigger] after.accounts[i]
            == view.accounts[i]
    &&& after.slots.len() == view.slots.len()
    &&& forall|t: int|
        0 <= t < view.slots.len() && t != s ==> #[trigger] after.slots[t] == view.slots[t]
    &&& after.maximum_order_id == view.maximum_order_id
    &&& after.killed == view.killed
    &&& after.accounts[n].id == view.accounts[n].id
    &&& after.accounts[n].limits == view.accounts[n].limits
    &&& after.accounts[n].killed == view.accounts[n].killed
}

/// A settlement closes the order in slot `s`: `filled` moves the position, all that
/// was reserved for the order is released, the account has one open order less, and
/// the slot is the next to be taken. A settlement of nothing is a cancellation.
pub proof fn law_settle_closes_one_order(
    view: RiskView,
    id: OrderId,
    filled: Quantity,
    s: int,
    n: int,
)
    requires
        view.sound(),
        0 <= s < view.slots.len() <= usize::MAX,
        view.slots[s] is Some,
        view.slots[s]->0.order_id == id,
        0 <= n < view.accounts.len(),
        view.accounts[n].id == view.slots[s]->0.account_id,
        view.settle_refusal(id, filled) is None,
    ensures
        ({
            let reservation = view.slots[s]->0;
            let after = view.settled(id, filled);
            let was = view.accounts[n];
            let is = after.accounts[n];
            &&& kept_elsewhere(view, after, s, n)
            &&& after.slots[s] is None
            &&& after.free.len() == view.free.len() + 1
            &&& after.free[0] == s
            &&& after.free.skip(1) == view.free
            &&& is.open_orders == was.open_orders - 1
            &&& match reservation.side {
                Side::Buy => {
                    &&& is.settled_position == was.settled_position + filled.0
                    &&& is.reserved_buys == was.reserved_buys - reservation.quantity.0
                    &&& is.reserved_sells == was.reserved_sells
                },
                Side::Sell => {
                    &&& is.settled_position == was.settled_position - filled.0
                    &&& is.reserved_buys == was.reserved_buys
                    &&& is.reserved_sells == was.reserved_sells - reservation.quantity.0
                },
            }
        }),
{
    lemma_holder(view, id, s, n);
    assert(view.settled(id, filled).free.skip(1) =~= view.free);
}

/// A fill moves `filled` from what is reserved to the position. What is left of the
/// order stays reserved in its slot; an order of which nothing is left is closed, and
/// counts no longer as open.
pub proof fn law_fill_moves_exposure(
    view: RiskView,
    id: OrderId,
    filled: Quantity,
    s: int,
    n: int,
)
    requires
        view.sound(),
        0 <= s < view.slots.len() <= usize::MAX,
        view.slots[s] is Some,
        view.slots[s]->0.order_id == id,
        0 <= n < view.accounts.len(),
        view.accounts[n].id == view.slots[s]->0.account_id,
        view.fill_refusal(id, filled) is None,
    ensures
        ({
            let reservation = view.slots[s]->0;
            let after = view.filled(id, filled);
            let was = view.accounts[n];
            let is = after.accounts[n];
            let closed = filled.0 == reservation.quantity.0;
            &&& kept_elsewhere(view, after, s, n)
            &&& closed ==> {
                &&& after.slots[s] is None
                &&& is.open_orders == was.open_orders - 1
                &&& after.free.len() == view.free.len() + 1
                &&& after.free[0] == s
                &&& after.free.skip(1) == view.free
            }
            &&& !closed ==> {
                &&& after.slots[s] is Some
                &&& after.slots[s]->0.order_id == id
                &&& after.slots[s]->0.account_id == reservation.account_id
                &&& after.slots[s]->0.side == reservation.side
                &&& after.slots[s]->0.quantity.0 == reservation.quantity.0 - filled.0
                &&& is.open_orders == was.open_orders
                &&& after.free == view.free
            }
            &&& match reservation.side {
                Side::Buy => {
                    &&& is.settled_position == was.settled_position + filled.0
                    &&& is.reserved_buys == was.reserved_buys - filled.0
                    &&& is.reserved_sells == was.reserved_sells
                },
                Side::Sell => {
                    &&& is.settled_position == was.settled_position - filled.0
                    &&& is.reserved_buys == was.reserved_buys
                    &&& is.reserved_sells == was.reserved_sells - filled.0
                },
            }
        }),
{
    lemma_holder(view, id, s, n);
    assert(view.settled(id, filled).free.skip(1) =~= view.free);
}

/// Why a cancellation or an amendment of the reservation in slot `s` is refused, each
/// reason with its cause. Only the owner may ask. A quantity that does not grow is
/// always granted; one that grows is held to the worth at the new total and to both
/// worst-case positions, and to nothing else.
pub proof fn law_adjust_refusals(
    view: RiskView,
    id: OrderId,
    account_id: AccountId,
    price: PriceTicks,
    quantity: Quantity,
    s: int,
    n: int,
)
    requires
        view.sound(),
        0 <= s < view.slots.len(),
        view.slots[s] is Some,
        view.slots[s]->0.order_id == id,
        0 <= n < view.accounts.len(),
        view.accounts[n].id == view.slots[s]->0.account_id,
    ensures
        ({
            let reservation = view.slots[s]->0;
            let account = view.accounts[n];
            let limits = account.limits;
            let refusal = view.adjust_refusal(id, account_id, price, quantity);
            let owned = account_id == reservation.account_id;
            let more = quantity.0 - reservation.quantity.0;
            let grows = owned && more > 0;
            let worthy = grows && price.0 > i64::MIN && !worth_exceeds(
                price,
                quantity,
                limits.max_notional,
            );
            let longest = account.settled_position + account.reserved_buys + if reservation.side
                == Side::Buy {
                more
            } else {
                0
            };
            let shortest = account.settled_position - account.reserved_sells - if reservation.side
                == Side::Sell {
                more
            } else {
                0
            };
            let computed = longest <= i128::MAX && shortest >= i128::MIN;
            let held = longest <= limits.max_abs_position.0 && shortest >= -(
            limits.max_abs_position.0 as int);
            &&& owned <==> view.owner_refusal(id, account_id) is None
            &&& !owned <==> view.owner_refusal(id, account_id) == Some(RejectReason::NotOrderOwner)
            &&& !owned <==> refusal == Some(RejectReason::NotOrderOwner)
            &&& (owned && more <= 0) || (worthy && computed && held) <==> refusal is None
            &&& grows && price.0 > i64::MIN && worth_exceeds(price, quantity, limits.max_notional)
                <==> refusal == Some(RejectReason::NotionalLimit)
            &&& (grows && price.0 == i64::MIN) || (worthy && !computed) <==> refusal == Some(
                RejectReason::ArithmeticOverflow,
            )
            &&& worthy && computed && !held <==> refusal == Some(RejectReason::PositionLimit)
        }),
{
    lemma_holder(view, id, s, n);
    lemma_worth(price, quantity, view.accounts[n].limits.max_notional);
}

/// An amendment changes the quantity of the reservation in slot `s` and what its
/// account has reserved on its side by the difference, and nothing else. It answers
/// with what it released and with the prior quantity.
pub proof fn law_adjust_changes_one_reservation(
    view: RiskView,
    id: OrderId,
    quantity: Quantity,
    s: int,
    n: int,
)
    requires
        view.sound(),
        0 <= s < view.slots.len() <= u32::MAX,
        view.slots[s] is Some,
        view.slots[s]->0.order_id == id,
        0 <= n < view.accounts.len(),
        view.accounts[n].id == view.slots[s]->0.account_id,
    ensures
        ({
            let reservation = view.slots[s]->0;
            let after = view.adjusted(id, quantity);
            let was = view.accounts[n];
            let is = after.accounts[n];
            let more = quantity.0 - reservation.quantity.0;
            let (released, prior) = view.adjust_answer(id, quantity);
            &&& prior == reservation.quantity
            &&& more <= 0 ==> released.0 == -more
            &&& more > 0 ==> released.0 == 0
            &&& kept_elsewhere(view, after, s, n)
            &&& after.free == view.free
            &&& after.slots[s] is Some
            &&& after.slots[s]->0.order_id == id
            &&& after.slots[s]->0.account_id == reservation.account_id
            &&& after.slots[s]->0.side == reservation.side
            &&& after.slots[s]->0.quantity == quantity
            &&& is.settled_position == was.settled_position
            &&& is.open_orders == was.open_orders
            &&& is.reserved_buys == was.reserved_buys + if reservation.side == Side::Buy {
                more
            } else {
                0
            }
            &&& is.reserved_sells == was.reserved_sells + if reservation.side == Side::Sell {
                more
            } else {
                0
            }
        }),
{
    lemma_holder(view, id, s, n);
    lemma_totals_fit(view, n);
}

/// An account is registered once, while there is room, with limits that some order
/// can meet; it starts without position, exposure or orders, and alive.
pub proof fn law_registration(view: RiskView, id: AccountId, limits: RiskLimits, max_accounts: nat)
    ensures
        ({
            let refusal = view.register_refusal(id, limits, max_accounts);
            let usable = limits.max_quantity.0 > 0 && limits.max_open_orders > 0
                && limits.minimum_price.0 <= limits.maximum_price.0;
            let fresh = unregistered(view, id);
            let after = view.registered(id, limits);
            let account = after.accounts[view.accounts.len() as int];
            &&& !usable <==> refusal == Some(RegistrationError::InvalidLimits)
            &&& usable && !fresh <==> refusal == Some(RegistrationError::DuplicateAccount)
            &&& usable && fresh && view.accounts.len() == max_accounts <==> refusal == Some(
                RegistrationError::AccountCapacity,
            )
            &&& usable && fresh && view.accounts.len() != max_accounts <==> refusal is None
            &&& after.accounts.len() == view.accounts.len() + 1
            &&& forall|i: int|
                0 <= i < view.accounts.len() ==> #[trigger] after.accounts[i] == view.accounts[i]
            &&& account.id == id
            &&& account.limits == limits
            &&& account.settled_position == 0
            &&& account.reserved_buys == 0
            &&& account.reserved_sells == 0
            &&& account.open_orders == 0
            &&& !account.killed
            &&& after.slots == view.slots
            &&& after.free == view.free
            &&& after.maximum_order_id == view.maximum_order_id
            &&& after.killed == view.killed
        }),
{
    lemma_known(view, id, OrderId(0));
}

/// The snapshot of the account at `n`: its position once everything reserved has
/// traded, and its open orders.
pub proof fn law_snapshot_projects(view: RiskView, n: int)
    requires
        view.sound(),
        0 <= n < view.accounts.len(),
        view.accounts[n].settled_position + view.accounts[n].reserved_buys <= i128::MAX,
        view.accounts[n].settled_position + view.accounts[n].reserved_buys
            - view.accounts[n].reserved_sells >= i128::MIN,
    ensures
        view.snapshot(view.accounts[n].id) is Some,
        (view.snapshot(view.accounts[n].id)->0).0 == view.accounts[n].settled_position
            + view.accounts[n].reserved_buys - view.accounts[n].reserved_sells,
        (view.snapshot(view.accounts[n].id)->0).1 == view.accounts[n].open_orders,
{
    assert(view.is_account(view.accounts[n].id, n));
    lemma_account(view, view.accounts[n].id, n);
}

/// The switch stops new orders and nothing else: while it is on every order is refused
/// with it, and fills, settlements, cancellations and amendments of the reservation
/// in slot `s` are judged as before.
pub proof fn law_switch_stops_only_new_orders(
    view: RiskView,
    order: NewOrder,
    id: OrderId,
    account: AccountId,
    price: PriceTicks,
    quantity: Quantity,
    killed: bool,
    s: int,
    n: int,
)
    requires
        view.sound(),
        0 <= s < view.slots.len(),
        view.slots[s] is Some,
        view.slots[s]->0.order_id == id,
        0 <= n < view.accounts.len(),
        view.accounts[n].id == view.slots[s]->0.account_id,
    ensures
        ({
            let switched = RiskView { killed, ..view };
            &&& killed ==> switched.reserve_refusal(order) == Some(RejectReason::KillSwitch)
            &&& switched.settle_refusal(id, quantity) == view.settle_refusal(id, quantity)
            &&& switched.fill_refusal(id, quantity) == view.fill_refusal(id, quantity)
            &&& switched.owner_refusal(id, account) == view.owner_refusal(id, account)
            &&& switched.adjust_refusal(id, account, price, quantity) == view.adjust_refusal(
                id,
                account,
                price,
                quantity,
            )
        }),
{
    let switched = RiskView { killed, ..view };
    assert forall|a: AccountId| #[trigger] view.has_account(a) implies switched.has_account(a) by {
        let i = view.account_index(a);
        assert(view.is_account(a, i));
        assert(switched.is_account(a, i));
    }
    assert(switched.sound());
    lemma_holder(view, id, s, n);
    lemma_holder(switched, id, s, n);
    if account == view.accounts[n].id {
        assert(switched.account(account) == view.account(account));
    }
}

/// An account has a snapshot exactly when it is registered and its projection stays in
/// its machine range on the way.
pub proof fn law_snapshot_is_given(view: RiskView, id: AccountId, n: int)
    requires
        view.sound(),
    ensures
        unregistered(view, id) ==> view.snapshot(id) is None,
        0 <= n < view.accounts.len() && view.accounts[n].id == id ==> {
            let account = view.accounts[n];
            let long = account.settled_position + account.reserved_buys;
            view.snapshot(id) is None <==> long > i128::MAX || long - account.reserved_sells
                < i128::MIN
        },
{
    lemma_known(view, id, OrderId(0));
    if 0 <= n < view.accounts.len() && view.accounts[n].id == id {
        assert(view.is_account(id, n));
        lemma_account(view, id, n);
    }
}

} // verus!
