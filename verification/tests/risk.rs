use hft::probe::ProbeError;
use hft::risk::engine::RiskEngine;
use hft::risk::probe_index::{ProbeIndex, INDEX_PLANES};
use hft::risk::{RegistrationError, RiskLimits, RiskStateError};
use hft::types::{
    AccountId, InstrumentId, NewOrder, OrderId, PriceTicks, Quantity, RejectReason,
    SequenceNumber, Side, TimeInForce,
};

/// The totals of each account are those of its exported reservations, and a
/// restored engine exports the same state.
fn assert_risk_consistent<const ACCOUNTS: usize, const ORDERS: usize>(
    risk: &RiskEngine<ACCOUNTS, ORDERS>,
) {
    let state = risk.export_state();
    for account in &state.accounts {
        let mut totals = (0_u128, 0_u128, 0_u32);
        for reservation in &state.reservations {
            if reservation.account_id == account.id {
                match reservation.side {
                    Side::Buy => totals.0 += u128::from(reservation.quantity.0),
                    Side::Sell => totals.1 += u128::from(reservation.quantity.0),
                }
                totals.2 += 1;
            }
        }
        assert_eq!(
            account.reserved_buys, totals.0,
            "reserved buys equal live exposure"
        );
        assert_eq!(
            account.reserved_sells, totals.1,
            "reserved sells equal live exposure"
        );
        assert_eq!(account.open_orders, totals.2, "open orders equal live count");
    }
    for reservation in &state.reservations {
        assert_eq!(
            risk.can_cancel(reservation.order_id, reservation.account_id),
            Ok(())
        );
    }
    let restored = RiskEngine::<ACCOUNTS, ORDERS>::from_state(&state).expect("restore");
    assert_eq!(restored.export_state(), state);
}

#[test]
fn compact_handles_preserve_boundary_keys_and_back_shift_values() {
    let mut index = ProbeIndex::<4, 2>::new();
    let first = index.insert(0, 0).expect("first handle");
    let second = index.insert(8, 3).expect("last storage handle");
    let maximum = index
        .insert(u64::MAX, usize::MAX - 1)
        .expect("maximum encodable handle");
    index
        .insert(u64::MAX - 8, usize::MAX - 2)
        .expect("colliding high handle");
    assert_eq!(index.lookup(0), Some(0));
    assert_eq!(index.lookup(8), Some(3));
    assert_eq!(index.lookup(u64::MAX), Some(usize::MAX - 1));
    assert_eq!(index.lookup(u64::MAX - 8), Some(usize::MAX - 2));

    assert!(matches!(
        index.insert(1, usize::MAX),
        Err(ProbeError::Full)
    ));
    assert!(matches!(index.insert(0, 0), Err(ProbeError::Duplicate)));
    assert_eq!(index.lookup(0), Some(0), "rejected inserts do not mutate");
    assert_eq!(index.lookup(1), None, "rejected inserts do not mutate");

    let removal = index.remove_at(first, 0).expect("first handle is there");
    assert_eq!(removal.value, 0);
    assert_eq!(removal.moves.len(), 1);
    let moved = removal.moves.last().expect("one entry moves");
    assert_eq!((moved.key, moved.value), (8, 3));
    assert_eq!(moved.slot, usize::try_from(first).expect("slot"));
    assert_eq!(index.lookup(0), None);
    assert_eq!(index.lookup(8), Some(3));
    let removal = index
        .remove_at(maximum, u64::MAX)
        .expect("maximum handle is there");
    assert_eq!(removal.value, usize::MAX - 1);
    let moved = removal.moves.last().expect("one entry moves");
    assert_eq!((moved.key, moved.value), (u64::MAX - 8, usize::MAX - 2));
    assert_eq!(moved.slot, usize::try_from(maximum).expect("slot"));
    assert_eq!(index.lookup(u64::MAX), None);
    assert_eq!(index.lookup(u64::MAX - 8), Some(usize::MAX - 2));
    assert!(
        matches!(index.insert(0, 0), Ok(slot) if slot == second),
        "empty slots can be reused"
    );
}

fn limits() -> RiskLimits {
    RiskLimits {
        max_quantity: Quantity(10),
        max_notional: 1_000,
        max_abs_position: Quantity(12),
        max_open_orders: 2,
        minimum_price: PriceTicks(1),
        maximum_price: PriceTicks(100),
    }
}

fn order(id: u64, side: Side, quantity: u64) -> NewOrder {
    NewOrder {
        time_in_force: TimeInForce::Gtc,
        order_id: OrderId(id),
        account_id: AccountId(7),
        instrument_id: InstrumentId(1),
        price: PriceTicks(10),
        quantity: Quantity(quantity),
        sequence: SequenceNumber(id),
        side,
    }
}

fn wide_limits() -> RiskLimits {
    RiskLimits {
        max_quantity: Quantity(1_000),
        max_notional: 1_000_000_000,
        max_abs_position: Quantity(1_000),
        max_open_orders: 64,
        minimum_price: PriceTicks(1),
        maximum_price: PriceTicks(1_000),
    }
}

#[test]
fn checks_limits_without_mutating_on_reject() {
    let mut risk = RiskEngine::<1, 2>::new();
    risk.register_account(AccountId(7), limits())
        .expect("valid limits");
    assert_eq!(
        risk.check_and_reserve(order(1, Side::Buy, 11)),
        Err(RejectReason::QuantityLimit)
    );
    assert_eq!(risk.account_snapshot(AccountId(7)), Some((0, 0)));
    assert_eq!(risk.check_and_reserve(order(1, Side::Buy, 8)), Ok(()));
    assert_eq!(
        risk.check_and_reserve(order(1, Side::Sell, 1)),
        Err(RejectReason::DuplicateOrderId)
    );
    assert_eq!(risk.account_snapshot(AccountId(7)), Some((8, 1)));
}

#[test]
fn enforces_projected_position_and_settles_unfilled() {
    let mut risk = RiskEngine::<1, 2>::new();
    risk.register_account(AccountId(7), limits())
        .expect("valid limits");
    assert_eq!(risk.check_and_reserve(order(1, Side::Buy, 8)), Ok(()));
    assert_eq!(
        risk.check_and_reserve(order(2, Side::Buy, 5)),
        Err(RejectReason::PositionLimit)
    );
    assert_eq!(risk.settle(OrderId(1), Quantity(3)), Ok(()));
    assert_eq!(risk.account_snapshot(AccountId(7)), Some((3, 0)));
}

#[test]
fn deterministic_sequence_has_stable_digest() {
    let mut first = RiskEngine::<1, 4>::new();
    let mut second = RiskEngine::<1, 4>::new();
    for engine in [&mut first, &mut second] {
        engine
            .register_account(AccountId(7), limits())
            .expect("valid limits");
        engine
            .check_and_reserve(order(1, Side::Buy, 2))
            .expect("within limits");
        engine
            .check_and_reserve(order(2, Side::Sell, 1))
            .expect("within limits");
    }
    assert_eq!(first.stable_digest(), second.stable_digest());
}

#[test]
fn fills_close_order_without_releasing_position() {
    let mut risk = RiskEngine::<1, 2>::new();
    risk.register_account(AccountId(7), limits())
        .expect("valid limits");
    risk.check_and_reserve(order(1, Side::Buy, 5))
        .expect("within limits");
    risk.record_fill(OrderId(1), Quantity(2))
        .expect("partial fill");
    assert_eq!(risk.account_snapshot(AccountId(7)), Some((5, 1)));
    risk.record_fill(OrderId(1), Quantity(3))
        .expect("terminal fill");
    assert_eq!(risk.account_snapshot(AccountId(7)), Some((5, 0)));
}

#[test]
fn completed_and_out_of_order_ids_are_not_reusable() {
    let mut risk = RiskEngine::<1, 2>::new();
    risk.register_account(AccountId(7), limits())
        .expect("valid limits");
    risk.check_and_reserve(order(10, Side::Buy, 1))
        .expect("first order");
    risk.record_fill(OrderId(10), Quantity(1))
        .expect("terminal fill");
    assert_eq!(
        risk.check_and_reserve(order(10, Side::Buy, 1)),
        Err(RejectReason::DuplicateOrderId)
    );
    assert_eq!(
        risk.check_and_reserve(order(9, Side::Buy, 1)),
        Err(RejectReason::DuplicateOrderId)
    );
}

#[test]
fn opposing_reservations_do_not_cancel_worst_case_exposure() {
    let mut risk = RiskEngine::<1, 4>::new();
    risk.register_account(AccountId(7), limits())
        .expect("valid limits");
    risk.check_and_reserve(order(1, Side::Buy, 10))
        .expect("buy within limit");
    risk.check_and_reserve(order(2, Side::Sell, 10))
        .expect("sell within limit");
    assert_eq!(
        risk.check_and_reserve(order(3, Side::Buy, 3)),
        Err(RejectReason::PositionLimit)
    );
}

#[test]
fn cancel_releases_only_owned_remaining_reservation() {
    let mut risk = RiskEngine::<2, 4>::new();
    risk.register_account(AccountId(7), limits())
        .expect("first account");
    risk.register_account(AccountId(8), limits())
        .expect("second account");
    risk.check_and_reserve(order(1, Side::Buy, 5))
        .expect("reserve order");
    risk.record_fill(OrderId(1), Quantity(2))
        .expect("partial fill");
    assert_eq!(
        risk.cancel_reservation(OrderId(1), AccountId(8)),
        Err(RejectReason::NotOrderOwner)
    );
    assert_eq!(
        risk.cancel_reservation(OrderId(1), AccountId(7)),
        Ok(Quantity(3))
    );
    assert_eq!(risk.account_snapshot(AccountId(7)), Some((2, 0)));
}

#[test]
fn index_handles_collisions_back_shift_and_slot_reuse() {
    let index = ProbeIndex::<4, INDEX_PLANES>::new();
    let home = index.probe_start(1);
    let mut colliding = Vec::new();
    let mut candidate = 1_u64;
    while colliding.len() < 4 {
        if index.probe_start(candidate) == home {
            colliding.push(candidate);
        }
        candidate += 1;
    }
    let mut risk = RiskEngine::<1, 4>::new();
    risk.register_account(AccountId(7), wide_limits())
        .expect("valid limits");
    for id in &colliding[..3] {
        risk.check_and_reserve(order(*id, Side::Buy, 2))
            .expect("reserve colliding order");
        assert_risk_consistent(&risk);
    }
    risk.settle(OrderId(colliding[1]), Quantity(0))
        .expect("settle middle colliding order");
    assert_risk_consistent(&risk);
    risk.cancel_reservation(OrderId(colliding[0]), AccountId(7))
        .expect("cancel relocated order");
    assert_risk_consistent(&risk);
    risk.check_and_reserve(order(colliding[3], Side::Sell, 1))
        .expect("reuse freed slot");
    assert_risk_consistent(&risk);
    assert_eq!(
        risk.can_cancel(OrderId(colliding[2]), AccountId(7)),
        Ok(()),
        "lookup after deletions and reuse"
    );
}

#[test]
fn full_reservations_reject_atomically() {
    let mut risk = RiskEngine::<1, 2>::new();
    risk.register_account(AccountId(7), wide_limits())
        .expect("valid limits");
    risk.check_and_reserve(order(1, Side::Buy, 1))
        .expect("first reservation");
    risk.check_and_reserve(order(2, Side::Sell, 1))
        .expect("second reservation");
    let digest = risk.stable_digest();
    assert_eq!(
        risk.check_and_reserve(order(3, Side::Buy, 1)),
        Err(RejectReason::OrderCapacity)
    );
    assert_eq!(risk.stable_digest(), digest);
    assert_risk_consistent(&risk);
}

#[test]
fn duplicate_and_capacity_registration_reject() {
    let mut risk = RiskEngine::<1, 2>::new();
    risk.register_account(AccountId(7), wide_limits())
        .expect("first registration");
    assert_eq!(
        risk.register_account(AccountId(7), wide_limits()),
        Err(RegistrationError::DuplicateAccount)
    );
    assert_eq!(
        risk.register_account(AccountId(8), wide_limits()),
        Err(RegistrationError::AccountCapacity)
    );
    assert_risk_consistent(&risk);
}

#[test]
fn stable_handles_survive_reservation_churn() {
    let mut risk = RiskEngine::<1, 8>::new();
    risk.register_account(AccountId(7), wide_limits())
        .expect("valid limits");
    for id in 1..=5 {
        risk.check_and_reserve(order(id, Side::Buy, 2))
            .expect("reserve order");
    }
    assert_eq!(risk.can_cancel(OrderId(4), AccountId(7)), Ok(()));

    risk.record_fill(OrderId(1), Quantity(2))
        .expect("terminal fill");
    assert_risk_consistent(&risk);
    risk.cancel_reservation(OrderId(2), AccountId(7))
        .expect("cancel order");
    assert_risk_consistent(&risk);
    risk.check_and_reserve(order(6, Side::Sell, 1))
        .expect("reserve after frees");
    risk.settle(OrderId(3), Quantity(1))
        .expect("settle with partial fill");
    assert_risk_consistent(&risk);

    assert_eq!(
        risk.can_cancel(OrderId(4), AccountId(7)),
        Ok(()),
        "unrelated churn preserves the reservation"
    );
    risk.settle(OrderId(4), Quantity(0))
        .expect("settle through preserved handle");
    assert_risk_consistent(&risk);
}

#[test]
fn shifted_reservations_stay_releasable_after_back_shift() {
    let mut risk = RiskEngine::<4, 64>::new();
    let limits = RiskLimits {
        max_quantity: Quantity(10),
        max_notional: 1_000_000,
        max_abs_position: Quantity(1_000),
        max_open_orders: 32,
        minimum_price: PriceTicks(1),
        maximum_price: PriceTicks(1_000),
    };
    for account in 1..=4_u32 {
        risk.register_account(AccountId(account), limits)
            .expect("register");
    }
    for id in 1..=40_u64 {
        let side = if id % 2 == 0 { Side::Sell } else { Side::Buy };
        risk.check_and_reserve(NewOrder {
            time_in_force: TimeInForce::Gtc,
            order_id: OrderId(id),
            account_id: AccountId(u32::try_from((id % 4) + 1).expect("account")),
            instrument_id: InstrumentId(1),
            price: PriceTicks(100),
            quantity: Quantity(1),
            sequence: SequenceNumber(id),
            side,
        })
        .unwrap_or_else(|error| panic!("reserve {id}: {error:?}"));
    }
    // Interleaved releases force repeated back-shifts across the table;
    // every later release must still find its moved entry.
    for id in (1..=20).step_by(2) {
        risk.cancel_reservation(
            OrderId(id),
            AccountId(u32::try_from((id % 4) + 1).expect("account")),
        )
        .expect("cancel odd");
    }
    for id in (2..=20).step_by(2) {
        risk.cancel_reservation(
            OrderId(id),
            AccountId(u32::try_from((id % 4) + 1).expect("account")),
        )
        .expect("cancel even shifted");
    }
    for id in 21..=40 {
        risk.cancel_reservation(
            OrderId(id),
            AccountId(u32::try_from((id % 4) + 1).expect("account")),
        )
        .expect("cancel late shifted");
    }
    for account in 1..=4_u32 {
        assert_eq!(
            risk.account_snapshot(AccountId(account)),
            Some((0, 0)),
            "account {account} drained"
        );
    }
}

#[test]
fn logical_state_round_trip_rebuilds_indexes() {
    let mut risk = RiskEngine::<4, 8>::new();
    risk.register_account(AccountId(9), wide_limits())
        .expect("register account 9");
    risk.register_account(AccountId(2), wide_limits())
        .expect("register account 2");
    let mut sell = order(7, Side::Sell, 4);
    sell.account_id = AccountId(2);
    risk.check_and_reserve(sell).expect("reserve sell");
    let mut buy = order(11, Side::Buy, 3);
    buy.account_id = AccountId(9);
    risk.check_and_reserve(buy).expect("reserve buy");
    risk.record_fill(OrderId(11), Quantity(1))
        .expect("partial fill");
    risk.set_account_kill_switch(AccountId(2), true)
        .expect("kill account");
    risk.set_kill_switch(true);

    let state = risk.export_state();
    assert_eq!(
        state
            .accounts
            .iter()
            .map(|account| account.id)
            .collect::<Vec<_>>(),
        [AccountId(2), AccountId(9)]
    );
    assert_eq!(
        state
            .reservations
            .iter()
            .map(|reservation| reservation.order_id)
            .collect::<Vec<_>>(),
        [OrderId(7), OrderId(11)]
    );

    let restored = RiskEngine::<4, 8>::from_state(&state).expect("restore state");
    assert_eq!(restored.export_state(), state);
    assert_risk_consistent(&restored);
}

#[test]
fn logical_state_rejects_inconsistent_exposure_and_watermark() {
    let mut risk = RiskEngine::<2, 4>::new();
    risk.register_account(AccountId(7), wide_limits())
        .expect("register");
    risk.check_and_reserve(order(3, Side::Buy, 2))
        .expect("reserve");
    let state = risk.export_state();

    let mut bad_exposure = state.clone();
    bad_exposure.accounts[0].reserved_buys += 1;
    assert_eq!(
        RiskEngine::<2, 4>::from_state(&bad_exposure).map(|_| ()),
        Err(RiskStateError::ExposureMismatch)
    );

    let mut bad_watermark = state;
    bad_watermark.maximum_order_id = Some(OrderId(2));
    assert_eq!(
        RiskEngine::<2, 4>::from_state(&bad_watermark).map(|_| ()),
        Err(RiskStateError::InvalidWatermark)
    );
}

#[test]
fn logical_state_rejects_noncanonical_records_and_zero_quantity() {
    let mut risk = RiskEngine::<2, 4>::new();
    risk.register_account(AccountId(9), wide_limits())
        .expect("account nine");
    risk.register_account(AccountId(2), wide_limits())
        .expect("account two");
    let mut state = risk.export_state();
    state.accounts.swap(0, 1);
    assert_eq!(
        RiskEngine::<2, 4>::from_state(&state).map(|_| ()),
        Err(RiskStateError::NonCanonical)
    );

    let mut risk = RiskEngine::<2, 4>::new();
    risk.register_account(AccountId(7), wide_limits())
        .expect("account");
    risk.check_and_reserve(order(3, Side::Buy, 2))
        .expect("reservation");
    let mut state = risk.export_state();
    state.reservations[0].quantity = Quantity(0);
    state.accounts[0].reserved_buys = 0;
    assert_eq!(
        RiskEngine::<2, 4>::from_state(&state).map(|_| ()),
        Err(RiskStateError::InvalidQuantity)
    );
}

#[test]
fn limits_are_checked_in_order() {
    let mut risk = RiskEngine::<2, 4>::new();
    risk.register_account(AccountId(7), limits())
        .expect("account");
    assert_eq!(
        risk.check_and_reserve(order(1, Side::Buy, 0)),
        Err(RejectReason::InvalidQuantity)
    );
    let mut unknown = order(1, Side::Buy, 1);
    unknown.account_id = AccountId(9);
    assert_eq!(
        risk.check_and_reserve(unknown),
        Err(RejectReason::UnknownAccount)
    );
    let mut collar = order(1, Side::Buy, 1);
    collar.price = PriceTicks(101);
    assert_eq!(
        risk.check_and_reserve(collar),
        Err(RejectReason::PriceCollar)
    );
    let mut notional = order(1, Side::Buy, 10);
    notional.price = PriceTicks(100);
    assert_eq!(risk.check_and_reserve(notional), Ok(()));
    assert_eq!(risk.settle(OrderId(1), Quantity(0)), Ok(()));
    risk.set_account_kill_switch(AccountId(7), true)
        .expect("kill account");
    assert_eq!(
        risk.check_and_reserve(order(2, Side::Buy, 1)),
        Err(RejectReason::KillSwitch)
    );
    risk.set_account_kill_switch(AccountId(7), false)
        .expect("release account");
    risk.set_kill_switch(true);
    assert_eq!(
        risk.check_and_reserve(order(2, Side::Buy, 1)),
        Err(RejectReason::KillSwitch)
    );
    risk.set_kill_switch(false);
    for id in 2..=3 {
        assert_eq!(risk.check_and_reserve(order(id, Side::Buy, 1)), Ok(()));
    }
    assert_eq!(
        risk.check_and_reserve(order(4, Side::Buy, 1)),
        Err(RejectReason::OpenOrderLimit)
    );
    assert_eq!(
        risk.set_account_kill_switch(AccountId(9), true),
        Err(RejectReason::UnknownAccount)
    );
}

#[test]
fn notional_limit_is_exact() {
    let mut risk = RiskEngine::<1, 4>::new();
    let mut tight = limits();
    tight.max_notional = 99;
    risk.register_account(AccountId(7), tight).expect("account");
    assert_eq!(
        risk.check_and_reserve(order(1, Side::Buy, 10)),
        Err(RejectReason::NotionalLimit)
    );
    assert_eq!(risk.check_and_reserve(order(1, Side::Buy, 9)), Ok(()));
}

#[test]
fn adjust_then_restore_gives_back_the_state() {
    let mut risk = RiskEngine::<1, 4>::new();
    risk.register_account(AccountId(7), limits())
        .expect("account");
    risk.check_and_reserve(order(1, Side::Sell, 4))
        .expect("reserve");
    let before = risk.export_state();
    assert_eq!(
        risk.adjust_reservation(OrderId(1), AccountId(7), PriceTicks(10), Quantity(9)),
        Ok((Quantity(0), Quantity(4)))
    );
    assert_eq!(risk.account_snapshot(AccountId(7)), Some((-9, 1)));
    assert_eq!(
        risk.restore_reservation(OrderId(1), AccountId(7), Quantity(4)),
        Ok(())
    );
    assert_eq!(risk.export_state(), before);
    assert_eq!(
        risk.adjust_reservation(OrderId(1), AccountId(7), PriceTicks(10), Quantity(1)),
        Ok((Quantity(3), Quantity(4)))
    );
    assert_eq!(
        risk.adjust_reservation(OrderId(1), AccountId(7), PriceTicks(10), Quantity(13)),
        Err(RejectReason::PositionLimit)
    );
    assert_eq!(
        risk.adjust_reservation(OrderId(2), AccountId(7), PriceTicks(10), Quantity(1)),
        Err(RejectReason::UnknownOrder)
    );
    assert_eq!(
        risk.adjust_reservation(OrderId(1), AccountId(8), PriceTicks(10), Quantity(1)),
        Err(RejectReason::NotOrderOwner)
    );
    assert_risk_consistent(&risk);
}

#[test]
fn reserve_then_cancel_restores_all_but_the_watermark() {
    let mut risk = RiskEngine::<1, 4>::new();
    risk.register_account(AccountId(7), limits())
        .expect("account");
    risk.check_and_reserve(order(1, Side::Sell, 4))
        .expect("reserve");
    let before = risk.export_state();
    risk.check_and_reserve(order(2, Side::Buy, 3))
        .expect("reserve");
    assert_eq!(
        risk.cancel_reservation(OrderId(2), AccountId(7)),
        Ok(Quantity(3))
    );
    let after = risk.export_state();
    assert_eq!(after.accounts, before.accounts);
    assert_eq!(after.reservations, before.reservations);
    assert_eq!(after.maximum_order_id, Some(OrderId(2)));
}

#[test]
fn invalid_limits_are_not_registered() {
    let mut risk = RiskEngine::<1, 2>::new();
    let mut none = limits();
    none.max_quantity = Quantity(0);
    assert_eq!(
        risk.register_account(AccountId(7), none),
        Err(RegistrationError::InvalidLimits)
    );
    let mut collar = limits();
    collar.minimum_price = PriceTicks(101);
    assert_eq!(
        risk.register_account(AccountId(7), collar),
        Err(RegistrationError::InvalidLimits)
    );
    assert_eq!(risk.account_snapshot(AccountId(7)), None);
}

#[test]
fn fills_beyond_the_reservation_are_refused() {
    let mut risk = RiskEngine::<1, 2>::new();
    risk.register_account(AccountId(7), limits())
        .expect("account");
    risk.check_and_reserve(order(1, Side::Sell, 4))
        .expect("reserve");
    assert_eq!(
        risk.record_fill(OrderId(1), Quantity(0)),
        Err(RejectReason::InvalidQuantity)
    );
    assert_eq!(
        risk.record_fill(OrderId(1), Quantity(5)),
        Err(RejectReason::InvalidQuantity)
    );
    assert_eq!(
        risk.record_fill(OrderId(2), Quantity(1)),
        Err(RejectReason::UnknownOrder)
    );
    assert_eq!(
        risk.settle(OrderId(1), Quantity(5)),
        Err(RejectReason::InvalidQuantity)
    );
}
