use hft::book::level::{OrderSlot, PriceLevel, RestingOrder};
use hft::book::order_book::OrderBook;
use hft::book::order_index::{OrderIndex, OrderLocation};
use hft::book::state::{BookState, BookStateError};
use hft::book::{ReplacedOrder, TopLevel};
use hft::types::{
    AccountId, CancelOrder, InstrumentId, NewOrder, OrderId, OrderState, PriceTicks, Quantity,
    RejectReason, ReplaceOrder, ReportBuffer, SequenceNumber, Side, TimeInForce,
};

/// The orders of a book in state form: side, price, number, quantity, sequence.
fn dump_book<const LEVELS: usize, const ORDERS: usize>(
    book: &OrderBook<LEVELS, ORDERS>,
) -> Vec<(Side, i64, u64, u64, u64)> {
    let state = book.export_state();
    let mut dump = Vec::new();
    for level in &state.bids[..state.bid_level_count] {
        for order in &level.orders[..level.order_count] {
            dump.push((
                Side::Buy,
                level.price.0,
                order.order_id.0,
                order.quantity.0,
                order.sequence.0,
            ));
        }
    }
    for level in &state.asks[..state.ask_level_count] {
        for order in &level.orders[..level.order_count] {
            dump.push((
                Side::Sell,
                level.price.0,
                order.order_id.0,
                order.quantity.0,
                order.sequence.0,
            ));
        }
    }
    dump
}

/// Every exported order is found, and the counts and totals agree.
fn assert_index_consistent<const LEVELS: usize, const ORDERS: usize>(
    book: &OrderBook<LEVELS, ORDERS>,
) {
    let dump = dump_book(book);
    assert_eq!(book.order_count(), dump.len());
    for (_, _, id, quantity, _) in &dump {
        assert!(book.contains_order(OrderId(*id)));
        assert!(*quantity > 0);
    }
    for side in [Side::Buy, Side::Sell] {
        let top = book.top_level(side);
        let best = dump.iter().find(|entry| entry.0 == side).map(|entry| entry.1);
        assert_eq!(top.map(|top| top.price.0), best);
        if let Some(top) = top {
            let peers: Vec<_> = dump
                .iter()
                .filter(|entry| entry.0 == side && entry.1 == top.price.0)
                .collect();
            assert_eq!(top.order_count, peers.len());
            let total: u128 = peers.iter().map(|entry| u128::from(entry.3)).sum();
            assert_eq!(top.aggregate_quantity, total);
        }
    }
    let restored = OrderBook::<LEVELS, ORDERS>::from_state(InstrumentId(1), &book.export_state());
    assert!(restored.is_ok() || !sequenced(&dump));
}

/// The sequence numbers are positive, ascend at each price and never repeat.
fn sequenced(dump: &[(Side, i64, u64, u64, u64)]) -> bool {
    let mut seen = Vec::new();
    for window in dump.windows(2) {
        if window[0].0 == window[1].0 && window[0].1 == window[1].1 && window[0].4 >= window[1].4 {
            return false;
        }
    }
    for entry in dump {
        if entry.4 == 0 || seen.contains(&entry.4) {
            return false;
        }
        seen.push(entry.4);
    }
    true
}

/// Prices are strictly ordered on each side, best first.
fn assert_level_index_consistent<const LEVELS: usize, const ORDERS: usize>(
    book: &OrderBook<LEVELS, ORDERS>,
) {
    let state = book.export_state();
    for window in state.bids[..state.bid_level_count].windows(2) {
        assert!(
            window[0].price.0 > window[1].price.0,
            "bid levels not strictly descending"
        );
    }
    for window in state.asks[..state.ask_level_count].windows(2) {
        assert!(
            window[0].price.0 < window[1].price.0,
            "ask levels not strictly ascending"
        );
    }
}

#[test]
fn compact_locations_cover_both_sides_and_reject_invalid_handles() {
    for side in [Side::Buy, Side::Sell] {
        for level_index in 0..3 {
            for slot in 0..5 {
                let location = OrderLocation {
                    side,
                    level_index,
                    slot,
                };
                let encoded =
                    OrderIndex::<3, 5>::encode_location(location).expect("valid location");
                assert_eq!(
                    OrderIndex::<3, 5>::decode_location(encoded),
                    Some(location)
                );
            }
        }
    }
    let first = OrderLocation {
        side: Side::Buy,
        level_index: 0,
        slot: 0,
    };
    for invalid in [
        OrderLocation {
            level_index: 3,
            ..first
        },
        OrderLocation { slot: 5, ..first },
        OrderLocation {
            level_index: usize::MAX,
            ..first
        },
    ] {
        assert_eq!(OrderIndex::<3, 5>::encode_location(invalid), None);
    }
    assert_eq!(OrderIndex::<3, 5>::decode_location(31), None);
    assert_eq!(OrderIndex::<0, 5>::encode_location(first), None);
    assert_eq!(OrderIndex::<3, 0>::encode_location(first), None);
    assert_eq!(OrderIndex::<3, 0>::decode_location(1), None);
}

#[test]
fn compact_index_preserves_zero_and_maximum_order_ids() {
    let mut book = OrderBook::<2, 2>::new(InstrumentId(1));
    let mut reports = ReportBuffer::<2>::new();
    for (id, side, price) in [(0, Side::Buy, 99), (u64::MAX, Side::Sell, 101)] {
        book.submit(order(id, price, 1, side), &mut reports)
            .expect("rest");
        assert!(book.contains_order(OrderId(id)));
        assert_index_consistent(&book);
    }
    for id in [0, u64::MAX] {
        book.cancel(CancelOrder {
            order_id: OrderId(id),
            account_id: AccountId(1),
            instrument_id: InstrumentId(1),
            sequence: SequenceNumber(1),
        })
        .expect("cancel");
        assert!(!book.contains_order(OrderId(id)));
        assert_index_consistent(&book);
    }
}

fn order(id: u64, price: i64, quantity: u64, side: Side) -> NewOrder {
    NewOrder {
        time_in_force: TimeInForce::Gtc,
        order_id: OrderId(id),
        account_id: AccountId(1),
        instrument_id: InstrumentId(1),
        price: PriceTicks(price),
        quantity: Quantity(quantity),
        sequence: SequenceNumber(id),
        side,
    }
}

#[test]
fn matches_price_then_time() {
    let mut book = OrderBook::<4, 4>::new(InstrumentId(1));
    let mut reports = ReportBuffer::<4>::new();
    book.submit(order(1, 101, 2, Side::Sell), &mut reports)
        .expect("rest ask");
    reports.clear();
    book.submit(order(2, 100, 2, Side::Sell), &mut reports)
        .expect("rest better ask");
    reports.clear();
    book.submit(order(3, 100, 2, Side::Sell), &mut reports)
        .expect("rest same ask");
    reports.clear();
    let summary = book
        .submit(order(4, 101, 5, Side::Buy), &mut reports)
        .expect("cross asks");
    let makers: Vec<_> = reports.as_slice().iter().map(|report| report.maker_order_id).collect();
    assert_eq!(makers, [OrderId(2), OrderId(3), OrderId(1)]);
    assert_eq!(summary.filled_quantity, Quantity(5));
    assert_eq!(book.order_count(), 1);
}

#[test]
fn top_level_reports_best_price_aggregate_and_order_count() {
    let mut book = OrderBook::<4, 4>::new(InstrumentId(1));
    let mut reports = ReportBuffer::<4>::new();

    assert_eq!(book.top_level(Side::Buy), None);
    assert_eq!(book.top_level(Side::Sell), None);

    book.submit(order(1, 99, 2, Side::Buy), &mut reports)
        .expect("rest lower bid");
    reports.clear();
    book.submit(order(2, 100, 3, Side::Buy), &mut reports)
        .expect("rest best bid");
    reports.clear();
    book.submit(order(3, 100, 4, Side::Buy), &mut reports)
        .expect("rest at best bid");
    reports.clear();
    book.submit(order(4, 102, 5, Side::Sell), &mut reports)
        .expect("rest ask");

    assert_eq!(
        book.top_level(Side::Buy),
        Some(TopLevel {
            price: PriceTicks(100),
            aggregate_quantity: 7,
            order_count: 2,
        })
    );
    assert_eq!(
        book.top_level(Side::Sell),
        Some(TopLevel {
            price: PriceTicks(102),
            aggregate_quantity: 5,
            order_count: 1,
        })
    );

    reports.clear();
    book.submit(order(5, 100, 5, Side::Sell), &mut reports)
        .expect("reduce best bid");
    assert_eq!(
        book.top_level(Side::Buy),
        Some(TopLevel {
            price: PriceTicks(100),
            aggregate_quantity: 2,
            order_count: 1,
        })
    );
}

#[test]
fn level_totals_survive_large_quantities_replace_and_restore() {
    for side in [Side::Buy, Side::Sell] {
        let mut book = OrderBook::<2, 2>::new(InstrumentId(1));
        let mut reports = ReportBuffer::<2>::new();
        for id in 1..=2 {
            book.submit(order(id, 100, u64::MAX, side), &mut reports)
                .expect("rest large order");
        }
        assert_eq!(
            book.top_level(side).expect("level").aggregate_quantity,
            2 * u128::from(u64::MAX)
        );
        let opposing = if side == Side::Buy {
            Side::Sell
        } else {
            Side::Buy
        };
        book.submit(order(3, 100, 10, opposing), &mut reports)
            .expect("partial fill");
        assert_eq!(
            book.top_level(side).expect("level").aggregate_quantity,
            2 * u128::from(u64::MAX) - 10
        );
        assert_index_consistent(&book);

        let mut replacement = ReplaceOrder {
            order_id: OrderId(1),
            account_id: AccountId(1),
            instrument_id: InstrumentId(1),
            sequence: SequenceNumber(4),
            price: PriceTicks(100),
            quantity: Quantity(5),
        };
        book.replace(replacement).expect("reduce");
        assert_eq!(
            book.top_level(side).expect("level").aggregate_quantity,
            u128::from(u64::MAX) + 5
        );
        assert_index_consistent(&book);
        replacement.sequence = SequenceNumber(5);
        replacement.quantity = Quantity(u64::MAX);
        book.replace(replacement).expect("increase");
        assert_index_consistent(&book);
        replacement.sequence = SequenceNumber(6);
        replacement.price = PriceTicks(if side == Side::Buy { 99 } else { 101 });
        book.replace(replacement).expect("reprice");
        assert_index_consistent(&book);

        let restored = OrderBook::from_state(InstrumentId(1), &book.export_state())
            .expect("restore totals");
        assert_index_consistent(&restored);
        assert_eq!(restored.top_level(side), book.top_level(side));
        for id in [2, 1] {
            book.cancel(CancelOrder {
                order_id: OrderId(id),
                account_id: AccountId(1),
                instrument_id: InstrumentId(1),
                sequence: SequenceNumber(7),
            })
            .expect("cancel");
            assert_index_consistent(&book);
        }
        assert_eq!(book.top_level(side), None);
        book.submit(order(8, 100, 3, side), &mut reports)
            .expect("reuse level");
        assert_eq!(book.top_level(side).expect("level").aggregate_quantity, 3);
        assert_index_consistent(&book);
    }
}

#[test]
fn report_capacity_preflight_preserves_book() {
    let mut book = OrderBook::<2, 2>::new(InstrumentId(1));
    let mut reports = ReportBuffer::<1>::new();
    book.submit(order(1, 100, 1, Side::Sell), &mut reports)
        .expect("first ask");
    reports.clear();
    book.submit(order(2, 100, 1, Side::Sell), &mut reports)
        .expect("second ask");
    reports.clear();
    let digest = book.stable_digest();
    assert_eq!(
        book.submit(order(3, 100, 2, Side::Buy), &mut reports),
        Err(RejectReason::ReportCapacity)
    );
    assert_eq!(book.stable_digest(), digest);
}

#[test]
fn deterministic_runs_match_digest() {
    let mut first = OrderBook::<4, 4>::new(InstrumentId(1));
    let mut second = OrderBook::<4, 4>::new(InstrumentId(1));
    for book in [&mut first, &mut second] {
        let mut reports = ReportBuffer::<4>::new();
        for input in [
            order(1, 99, 2, Side::Buy),
            order(2, 101, 3, Side::Sell),
            order(3, 101, 1, Side::Buy),
        ] {
            reports.clear();
            book.submit(input, &mut reports).expect("valid order");
        }
    }
    assert_eq!(first.stable_digest(), second.stable_digest());
}

#[test]
fn cancel_requires_owner_and_preserves_fifo() {
    let mut book = OrderBook::<2, 4>::new(InstrumentId(1));
    let mut reports = ReportBuffer::<4>::new();
    for resting in [
        order(1, 100, 1, Side::Sell),
        order(2, 100, 1, Side::Sell),
        order(3, 100, 1, Side::Sell),
    ] {
        reports.clear();
        book.submit(resting, &mut reports).expect("rest order");
    }
    assert_eq!(
        book.cancel(CancelOrder {
            order_id: OrderId(2),
            account_id: AccountId(9),
            instrument_id: InstrumentId(1),
            sequence: SequenceNumber(4),
        }),
        Err(RejectReason::NotOrderOwner)
    );
    book.cancel(CancelOrder {
        order_id: OrderId(2),
        account_id: AccountId(1),
        instrument_id: InstrumentId(1),
        sequence: SequenceNumber(4),
    })
    .expect("owner cancel");
    reports.clear();
    book.submit(order(4, 100, 2, Side::Buy), &mut reports)
        .expect("cross remaining FIFO");
    let makers: Vec<_> = reports.as_slice().iter().map(|report| report.maker_order_id).collect();
    assert_eq!(makers, [OrderId(1), OrderId(3)]);
}

#[test]
fn index_handles_collisions_shifts_and_slot_reuse() {
    let mut book = OrderBook::<2, 4>::new(InstrumentId(1));
    let mut reports = ReportBuffer::<4>::new();
    for resting in [
        order(1, 100, 1, Side::Sell),
        order(33, 100, 1, Side::Sell),
        order(65, 100, 1, Side::Sell),
    ] {
        book.submit(resting, &mut reports).expect("rest order");
        reports.clear();
    }
    assert_index_consistent(&book);

    book.cancel(CancelOrder {
        order_id: OrderId(33),
        account_id: AccountId(1),
        instrument_id: InstrumentId(1),
        sequence: SequenceNumber(66),
    })
    .expect("cancel colliding middle order");
    assert_index_consistent(&book);

    book.submit(order(97, 100, 1, Side::Buy), &mut reports)
        .expect("fill front order");
    assert_eq!(
        reports.as_slice().iter().next().map(|report| report.maker_order_id),
        Some(OrderId(1))
    );
    assert_index_consistent(&book);

    book.cancel(CancelOrder {
        order_id: OrderId(65),
        account_id: AccountId(1),
        instrument_id: InstrumentId(1),
        sequence: SequenceNumber(98),
    })
    .expect("cancel shifted order");
    reports.clear();
    book.submit(order(129, 100, 1, Side::Sell), &mut reports)
        .expect("reuse index slot");
    assert_index_consistent(&book);
}

#[test]
fn stable_handles_survive_unrelated_mutation() {
    let mut book = OrderBook::<4, 4>::new(InstrumentId(1));
    let mut reports = ReportBuffer::<4>::new();
    for resting in [
        order(1, 100, 1, Side::Sell),
        order(2, 100, 1, Side::Sell),
        order(10, 101, 1, Side::Sell),
        order(11, 101, 1, Side::Sell),
        order(20, 99, 1, Side::Buy),
    ] {
        book.submit(resting, &mut reports).expect("rest order");
        reports.clear();
    }
    assert!(book.contains_order(OrderId(11)));

    book.cancel(CancelOrder {
        order_id: OrderId(1),
        account_id: AccountId(1),
        instrument_id: InstrumentId(1),
        sequence: SequenceNumber(30),
    })
    .expect("cancel level A head");
    assert_index_consistent(&book);
    let fill = book
        .submit(order(21, 100, 1, Side::Buy), &mut reports)
        .expect("cross level A tail");
    assert_eq!(fill.state, OrderState::Filled);
    reports.clear();
    assert_index_consistent(&book);
    book.submit(order(12, 102, 1, Side::Sell), &mut reports)
        .expect("open level C");
    reports.clear();
    book.cancel(CancelOrder {
        order_id: OrderId(20),
        account_id: AccountId(1),
        instrument_id: InstrumentId(1),
        sequence: SequenceNumber(31),
    })
    .expect("cancel bid level");
    assert_index_consistent(&book);

    assert!(
        book.contains_order(OrderId(11)),
        "unrelated mutations preserve the order"
    );
    book.cancel(CancelOrder {
        order_id: OrderId(11),
        account_id: AccountId(1),
        instrument_id: InstrumentId(1),
        sequence: SequenceNumber(32),
    })
    .expect("cancel through preserved handle");
    assert_index_consistent(&book);
}

#[test]
fn full_level_rejects_atomically() {
    let mut book = OrderBook::<2, 2>::new(InstrumentId(1));
    let mut reports = ReportBuffer::<4>::new();
    book.submit(order(1, 100, 1, Side::Sell), &mut reports)
        .expect("first order");
    reports.clear();
    book.submit(order(2, 100, 1, Side::Sell), &mut reports)
        .expect("second order");
    reports.clear();
    let digest = book.stable_digest();
    assert_eq!(
        book.submit(order(3, 100, 1, Side::Sell), &mut reports),
        Err(RejectReason::PriceLevelOrderCapacity)
    );
    assert_eq!(book.stable_digest(), digest);
    assert_index_consistent(&book);
}

#[test]
fn back_shift_updates_reverse_slots_across_sides() {
    let mut book = OrderBook::<2, 2>::new(InstrumentId(1));
    let mut reports = ReportBuffer::<1>::new();
    book.submit(order(1, 101, 1, Side::Sell), &mut reports)
        .expect("rest sell");
    book.submit(order(17, 100, 1, Side::Buy), &mut reports)
        .expect("rest colliding buy");
    assert_index_consistent(&book);

    book.cancel(CancelOrder {
        order_id: OrderId(1),
        account_id: AccountId(1),
        instrument_id: InstrumentId(1),
        sequence: SequenceNumber(18),
    })
    .expect("cancel sell before colliding buy");
    assert_index_consistent(&book);

    book.cancel(CancelOrder {
        order_id: OrderId(17),
        account_id: AccountId(1),
        instrument_id: InstrumentId(1),
        sequence: SequenceNumber(19),
    })
    .expect("cancel relocated buy");
    assert_index_consistent(&book);
}

#[test]
fn best_bid_ask_match_sorted_index() {
    let mut book = OrderBook::<8, 4>::new(InstrumentId(1));
    let mut reports = ReportBuffer::<8>::new();
    for (id, price, side) in [
        (1, 100, Side::Sell),
        (2, 105, Side::Sell),
        (3, 99, Side::Buy),
        (4, 95, Side::Buy),
        (5, 110, Side::Sell),
        (6, 90, Side::Buy),
    ] {
        book.submit(order(id, price, 1, side), &mut reports)
            .expect("rest order");
        reports.clear();
    }
    assert_level_index_consistent(&book);
    // Best bid should be 99 (highest buy).
    assert_eq!(
        book.best_crossing_level(Side::Buy, PriceTicks(200)),
        Some(0),
        "best bid"
    );
    // Best ask should be 100 (lowest sell).
    assert_eq!(
        book.best_crossing_level(Side::Sell, PriceTicks(50)),
        Some(0),
        "best ask"
    );
}

#[test]
fn empty_levels_produce_no_crossing() {
    let book = OrderBook::<4, 2>::new(InstrumentId(1));
    assert_eq!(book.best_crossing_level(Side::Buy, PriceTicks(100)), None);
    assert_eq!(book.best_crossing_level(Side::Sell, PriceTicks(1)), None);
}

#[test]
fn boundary_price_only_crosses_correct_side() {
    let mut book = OrderBook::<4, 4>::new(InstrumentId(1));
    let mut reports = ReportBuffer::<4>::new();
    // Create separate levels so both sides persist.
    book.submit(order(1, 100, 2, Side::Sell), &mut reports)
        .expect("rest ask");
    reports.clear();
    book.submit(order(2, 99, 2, Side::Buy), &mut reports)
        .expect("rest bid");
    reports.clear();
    assert_level_index_consistent(&book);
    // Buy at exactly 100 crosses the ask at 100.
    assert_eq!(
        book.best_crossing_level(Side::Buy, PriceTicks(100)),
        Some(0)
    );
    // Sell at exactly 99 crosses the bid at 99.
    assert_eq!(
        book.best_crossing_level(Side::Sell, PriceTicks(99)),
        Some(0)
    );
    // Buy at 99 does not cross ask at 100.
    assert_eq!(book.best_crossing_level(Side::Buy, PriceTicks(99)), None);
    // Sell at 100 does not cross bid at 99.
    assert_eq!(book.best_crossing_level(Side::Sell, PriceTicks(100)), None);
}

#[test]
fn level_index_survives_churn() {
    let mut book = OrderBook::<8, 4>::new(InstrumentId(1));
    let mut reports = ReportBuffer::<16>::new();
    // Create levels at prices 98, 99, 100, 101, 102.
    for (id, price) in [(1, 98), (2, 99), (3, 100), (4, 101), (5, 102)] {
        book.submit(order(id, price, 2, Side::Sell), &mut reports)
            .expect("rest");
        reports.clear();
    }
    book.submit(order(6, 97, 2, Side::Buy), &mut reports)
        .expect("rest bid");
    reports.clear();
    assert_level_index_consistent(&book);
    // Cancel the middle ask level (100).
    book.cancel(CancelOrder {
        order_id: OrderId(3),
        account_id: AccountId(1),
        instrument_id: InstrumentId(1),
        sequence: SequenceNumber(10),
    })
    .expect("cancel middle");
    assert_level_index_consistent(&book);
    // Fill the 98 ask level completely.
    book.submit(order(7, 100, 2, Side::Buy), &mut reports)
        .expect("cross 98");
    reports.clear();
    assert_level_index_consistent(&book);
    // The best ask is now 99 (98 was fully filled, 100 was cancelled).
    let best = book.best_crossing_level(Side::Buy, PriceTicks(200));
    assert!(best.is_some(), "best ask after churn");
    let level = book.top_level(Side::Sell).expect("best ask level");
    assert_eq!(level.price.0, 99, "best ask price after churn");
}

#[test]
fn no_skipped_liquidity() {
    let mut book = OrderBook::<8, 4>::new(InstrumentId(1));
    let mut reports = ReportBuffer::<16>::new();
    for (id, price, qty) in [(1, 100, 5), (2, 101, 5), (3, 102, 5)] {
        book.submit(order(id, price, qty, Side::Sell), &mut reports)
            .expect("rest");
        reports.clear();
    }
    // Submit a buy that should consume all three levels in price order.
    let summary = book
        .submit(order(4, 200, 15, Side::Buy), &mut reports)
        .expect("cross all");
    assert_eq!(summary.filled_quantity, Quantity(15));
    let makers: Vec<_> = reports.as_slice().iter().map(|r| r.maker_order_id.0).collect();
    assert_eq!(makers, [1, 2, 3], "must consume levels in price order");
}

#[test]
fn model_equivalent_digest_after_indexed_discovery() {
    // Build two books with the same orders; digest must match.
    let mut first = OrderBook::<4, 4>::new(InstrumentId(1));
    let mut second = OrderBook::<4, 4>::new(InstrumentId(1));
    for book in [&mut first, &mut second] {
        let mut reports = ReportBuffer::<4>::new();
        for input in [
            order(1, 99, 2, Side::Buy),
            order(2, 101, 3, Side::Sell),
            order(3, 101, 1, Side::Buy),
        ] {
            reports.clear();
            book.submit(input, &mut reports).expect("valid order");
        }
        assert_level_index_consistent(book);
    }
    assert_eq!(first.stable_digest(), second.stable_digest());
}

#[test]
fn duplicate_resting_id_is_rejected_without_mutation() {
    let mut book = OrderBook::<2, 2>::new(InstrumentId(1));
    let mut reports = ReportBuffer::<2>::new();
    book.submit(order(1, 100, 1, Side::Sell), &mut reports)
        .expect("rest ask");
    let digest = book.stable_digest();
    assert_eq!(
        book.submit(order(1, 101, 1, Side::Sell), &mut reports),
        Err(RejectReason::DuplicateOrderId)
    );
    assert_eq!(book.stable_digest(), digest);
    assert_index_consistent(&book);
}

#[test]
fn crossing_stops_at_the_taker_price_limit() {
    let mut book = OrderBook::<8, 2>::new(InstrumentId(1));
    let mut reports = ReportBuffer::<8>::new();
    for (id, price) in [(1, 100), (2, 105), (3, 110)] {
        book.submit(order(id, price, 2, Side::Sell), &mut reports)
            .expect("rest ask");
        reports.clear();
    }
    // A buy at 105 must not touch the 110 ask.
    let summary = book
        .submit(order(4, 105, 4, Side::Buy), &mut reports)
        .expect("cross two levels");
    assert_eq!(summary.state, OrderState::Filled);
    let makers: Vec<_> = reports.as_slice().iter().map(|report| report.maker_order_id).collect();
    assert_eq!(makers, [OrderId(1), OrderId(2)]);
    assert_eq!(book.order_count(), 1);
    assert_index_consistent(&book);
    assert_level_index_consistent(&book);
}

#[test]
fn partial_cross_then_rest_keeps_price_time_position() {
    let mut book = OrderBook::<4, 4>::new(InstrumentId(1));
    let mut reports = ReportBuffer::<4>::new();
    book.submit(order(1, 100, 5, Side::Sell), &mut reports)
        .expect("rest ask");
    reports.clear();
    // Taker fills the 5 and rests the remaining 2 as a bid at 100.
    let summary = book
        .submit(order(2, 100, 7, Side::Buy), &mut reports)
        .expect("partial cross then rest");
    assert_eq!(summary.state, OrderState::PartiallyFilled);
    assert_eq!(summary.resting_quantity, Quantity(2));
    reports.clear();
    // A second bid at the same price queues behind the rested taker.
    book.submit(order(3, 100, 1, Side::Buy), &mut reports)
        .expect("join bid level");
    reports.clear();
    // A sell at 100 fills the rested taker (2), then the queued bid (1 of
    // 1), and rests its own remainder: price-time order within the level.
    book.submit(order(4, 100, 4, Side::Sell), &mut reports)
        .expect("cross bid level");
    let makers: Vec<_> = reports.as_slice().iter().map(|report| report.maker_order_id).collect();
    assert_eq!(makers, [OrderId(2), OrderId(3)]);
    assert_index_consistent(&book);
}

#[test]
fn exact_report_capacity_fit_succeeds() {
    let mut book = OrderBook::<4, 2>::new(InstrumentId(1));
    let mut reports = ReportBuffer::<2>::new();
    book.submit(order(1, 100, 1, Side::Sell), &mut reports)
        .expect("first ask");
    reports.clear();
    book.submit(order(2, 101, 1, Side::Sell), &mut reports)
        .expect("second ask");
    reports.clear();
    let summary = book
        .submit(order(3, 101, 2, Side::Buy), &mut reports)
        .expect("both fills exactly fit the report buffer");
    assert_eq!(summary.state, OrderState::Filled);
    assert_eq!(summary.report_count, 2);
    assert_index_consistent(&book);
}

#[test]
fn emptied_level_slot_is_reused_by_later_rest() {
    let mut book = OrderBook::<4, 2>::new(InstrumentId(1));
    let mut reports = ReportBuffer::<4>::new();
    book.submit(order(1, 100, 2, Side::Sell), &mut reports)
        .expect("rest ask");
    reports.clear();
    // Fully fill the only ask level: it is removed and its slot freed.
    book.submit(order(2, 100, 2, Side::Buy), &mut reports)
        .expect("fill the level");
    reports.clear();
    assert_level_index_consistent(&book);
    // Rest at the same price again: the freed slot is reused.
    book.submit(order(3, 100, 1, Side::Sell), &mut reports)
        .expect("re-rest at the same price");
    assert_eq!(book.order_count(), 1);
    assert_index_consistent(&book);
    assert_level_index_consistent(&book);
}

#[test]
fn rejected_rest_levels_and_reports_stay_untouched() {
    let mut book = OrderBook::<2, 2>::new(InstrumentId(1));
    let mut reports = ReportBuffer::<1>::new();
    for (id, price) in [(1, 101), (2, 102)] {
        book.submit(order(id, price, 1, Side::Sell), &mut reports)
            .expect("rest ask");
        reports.clear();
    }
    // Both level slots are occupied: a new resting price must reject.
    let digest = book.stable_digest();
    assert_eq!(
        book.submit(order(3, 99, 1, Side::Sell), &mut reports),
        Err(RejectReason::PriceLevelCapacity)
    );
    assert_eq!(reports.len(), 0);
    assert_eq!(book.stable_digest(), digest);
    assert_index_consistent(&book);
    assert_level_index_consistent(&book);
}

#[test]
fn shifted_orders_stay_locatable_and_cancellable() {
    let mut book = OrderBook::<8, 8>::new(InstrumentId(1));
    let mut reports = ReportBuffer::<8>::new();
    for id in 1..=16_u64 {
        let side = if id % 2 == 0 { Side::Sell } else { Side::Buy };
        let price = if side == Side::Sell { 101 } else { 99 };
        book.submit(order(id, price, 1, side), &mut reports)
            .expect("rest");
        reports.clear();
    }
    // Cancels in id order force index back-shifts; later cancels of the
    // shifted entries must still locate them.
    for id in 1..=8 {
        book.cancel(CancelOrder {
            order_id: OrderId(id),
            account_id: AccountId(1),
            instrument_id: InstrumentId(1),
            sequence: SequenceNumber(id + 100),
        })
        .unwrap_or_else(|error| panic!("cancel {id}: {error:?}"));
    }
    for id in 9..=16 {
        book.cancel(CancelOrder {
            order_id: OrderId(id),
            account_id: AccountId(1),
            instrument_id: InstrumentId(1),
            sequence: SequenceNumber(id + 100),
        })
        .unwrap_or_else(|error| panic!("cancel shifted {id}: {error:?}"));
    }
    assert_eq!(book.order_count(), 0);
    assert_index_consistent(&book);
}

#[test]
fn ioc_never_rests_and_conserves_quantity() {
    let mut book = OrderBook::<4, 4>::new(InstrumentId(1));
    let mut reports = ReportBuffer::<4>::new();
    book.submit(order(1, 100, 3, Side::Sell), &mut reports)
        .expect("rest ask");
    reports.clear();
    // Partial: fills 3 of 5, discards 2.
    let mut ioc = order(2, 100, 5, Side::Buy);
    ioc.time_in_force = TimeInForce::Ioc;
    let summary = book.submit(ioc, &mut reports).expect("ioc partial");
    assert_eq!(summary.filled_quantity, Quantity(3));
    assert_eq!(summary.resting_quantity, Quantity(0));
    assert_eq!(summary.state, OrderState::PartiallyFilled);
    assert_eq!(book.order_count(), 0, "nothing rests behind an IOC");
    // Zero fill against a non-crossing market still consumes nothing.
    book.submit(order(3, 100, 4, Side::Sell), &mut reports)
        .expect("rest ask");
    reports.clear();
    let mut empty = order(4, 90, 2, Side::Buy);
    empty.time_in_force = TimeInForce::Ioc;
    let summary = book.submit(empty, &mut reports).expect("ioc empty");
    assert_eq!(summary.filled_quantity, Quantity(0));
    assert_eq!(summary.resting_quantity, Quantity(0));
    assert_eq!(summary.state, OrderState::Accepted);
    assert_eq!(book.order_count(), 1, "only the resting ask remains");
}

#[test]
fn fok_is_atomic_across_liquidity_and_capacity() {
    let mut book = OrderBook::<4, 4>::new(InstrumentId(1));
    let mut reports = ReportBuffer::<4>::new();
    book.submit(order(1, 100, 3, Side::Sell), &mut reports)
        .expect("rest ask");
    reports.clear();
    let digest = book.stable_digest();
    // Insufficient liquidity rejects without mutation.
    let mut short = order(2, 100, 5, Side::Buy);
    short.time_in_force = TimeInForce::Fok;
    assert_eq!(
        book.submit(short, &mut reports),
        Err(RejectReason::InsufficientLiquidity)
    );
    assert_eq!(book.stable_digest(), digest, "FOK reject mutates nothing");
    assert!(reports.is_empty());
    // Report capacity below the required fill count also rejects.
    let mut wide = OrderBook::<4, 4>::new(InstrumentId(1));
    let mut small_reports = ReportBuffer::<1>::new();
    for id in 1..=2_u64 {
        wide.submit(
            order(
                id,
                100 + i64::try_from(id).expect("small id"),
                1,
                Side::Sell,
            ),
            &mut small_reports,
        )
        .expect("rest level");
        small_reports.clear();
    }
    let mut two_level = order(9, 200, 2, Side::Buy);
    two_level.time_in_force = TimeInForce::Fok;
    assert_eq!(
        wide.submit(two_level, &mut small_reports),
        Err(RejectReason::ReportCapacity),
        "FOK needs capacity for every fill"
    );
    assert_eq!(wide.order_count(), 2, "both makers untouched");
    // Full liquidity executes completely.
    let mut ok = order(3, 100, 3, Side::Buy);
    ok.time_in_force = TimeInForce::Fok;
    let summary = book.submit(ok, &mut reports).expect("fok full");
    assert_eq!(summary.filled_quantity, Quantity(3));
    assert_eq!(summary.resting_quantity, Quantity(0));
    assert_eq!(summary.state, OrderState::Filled);
    assert_eq!(reports.len(), 1);
    assert_eq!(book.order_count(), 0);
}

#[test]
fn post_only_crossing_rejects_without_mutation() {
    let mut book = OrderBook::<4, 4>::new(InstrumentId(1));
    let mut reports = ReportBuffer::<4>::new();
    book.submit(order(1, 100, 3, Side::Sell), &mut reports)
        .expect("rest ask");
    reports.clear();
    let digest = book.stable_digest();
    // Buy at the ask would trade: reject before any mutation.
    let mut po = order(2, 100, 5, Side::Buy);
    po.time_in_force = TimeInForce::PostOnly;
    assert_eq!(
        book.submit(po, &mut reports),
        Err(RejectReason::PostOnlyWouldTrade)
    );
    assert_eq!(book.stable_digest(), digest);
    assert!(reports.is_empty());
    // Below the market it cannot trade and rests normally.
    let mut quiet = order(3, 99, 2, Side::Buy);
    quiet.time_in_force = TimeInForce::PostOnly;
    let summary = book.submit(quiet, &mut reports).expect("post only rests");
    assert_eq!(summary.filled_quantity, Quantity(0));
    assert_eq!(summary.resting_quantity, Quantity(2));
    assert_eq!(summary.state, OrderState::Accepted);
}

#[test]
fn post_only_accepted_order_joins_the_fifo_tail() {
    let mut book = OrderBook::<4, 8>::new(InstrumentId(1));
    let mut reports = ReportBuffer::<8>::new();
    book.submit(order(1, 100, 1, Side::Sell), &mut reports)
        .expect("first ask");
    reports.clear();
    let mut po = order(2, 100, 1, Side::Sell);
    po.time_in_force = TimeInForce::PostOnly;
    book.submit(po, &mut reports)
        .expect("post only joins level");
    reports.clear();
    book.submit(order(3, 100, 2, Side::Buy), &mut reports)
        .expect("sweep level");
    let makers: Vec<_> = reports
        .as_slice()
        .iter()
        .map(|report| report.maker_order_id.0)
        .collect();
    assert_eq!(makers, [1, 2], "post-only order rests behind the elder");
}

#[test]
fn post_only_rests_into_an_empty_book() {
    let mut book = OrderBook::<4, 4>::new(InstrumentId(1));
    let mut reports = ReportBuffer::<4>::new();
    let mut po = order(1, 100, 3, Side::Sell);
    po.time_in_force = TimeInForce::PostOnly;
    let summary = book.submit(po, &mut reports).expect("rests on empty side");
    assert_eq!(summary.state, OrderState::Accepted);
    assert_eq!(book.order_count(), 1);
}

#[test]
fn logical_state_round_trip_preserves_fifo_and_digest() {
    let mut book = OrderBook::<4, 4>::new(InstrumentId(1));
    let mut reports = ReportBuffer::<4>::new();
    for input in [
        order(1, 99, 2, Side::Buy),
        order(2, 99, 3, Side::Buy),
        order(3, 101, 4, Side::Sell),
    ] {
        book.submit(input, &mut reports).expect("rest order");
        reports.clear();
    }

    let state = book.export_state();
    let restored = OrderBook::from_state(InstrumentId(1), &state).expect("restore state");

    assert_eq!(restored.export_state(), state);
    assert_eq!(restored.stable_digest(), book.stable_digest());
}

#[test]
fn logical_state_rejects_duplicate_and_crossed_orders() {
    let mut book = OrderBook::<4, 4>::new(InstrumentId(1));
    let mut reports = ReportBuffer::<4>::new();
    book.submit(order(1, 99, 2, Side::Buy), &mut reports)
        .expect("bid");
    reports.clear();
    book.submit(order(2, 101, 2, Side::Sell), &mut reports)
        .expect("ask");
    let mut duplicate = book.export_state();
    duplicate.asks[0].orders[0].order_id = OrderId(1);
    assert!(matches!(
        OrderBook::from_state(InstrumentId(1), &duplicate),
        Err(BookStateError::DuplicateOrderId)
    ));

    let mut crossed = book.export_state();
    crossed.bids[0].price = PriceTicks(101);
    crossed.bids[0].orders[0].price = PriceTicks(101);
    assert!(matches!(
        OrderBook::from_state(InstrumentId(1), &crossed),
        Err(BookStateError::Crossed)
    ));
}

#[test]
fn logical_state_rejects_fifo_and_global_sequence_reuse() {
    let mut book = OrderBook::<4, 4>::new(InstrumentId(1));
    let mut reports = ReportBuffer::<4>::new();
    book.submit(order(1, 99, 2, Side::Buy), &mut reports)
        .expect("first bid");
    book.submit(order(2, 99, 2, Side::Buy), &mut reports)
        .expect("second bid");
    book.submit(order(3, 98, 2, Side::Buy), &mut reports)
        .expect("third bid");

    let mut reversed = book.export_state();
    reversed.bids[0].orders.swap(0, 1);
    assert!(matches!(
        OrderBook::from_state(InstrumentId(1), &reversed),
        Err(BookStateError::Sequence)
    ));

    let mut duplicate = book.export_state();
    duplicate.bids[1].orders[0].sequence = duplicate.bids[0].orders[0].sequence;
    assert!(matches!(
        OrderBook::from_state(InstrumentId(1), &duplicate),
        Err(BookStateError::Sequence)
    ));
}

// The index of a book is its own, and always points at live slots: only a level
// by itself can be asked for a slot that holds no order.
#[test]
fn stale_handles_fail_closed() {
    let mut level = PriceLevel::<4>::new(PriceTicks(100));
    let resting = RestingOrder {
        id: OrderId(1),
        account_id: AccountId(1),
        index_slot: 0,
        quantity: Quantity(1),
        sequence: SequenceNumber(1),
    };
    let slot = level.push_tail(resting).expect("rest order");
    assert_eq!(level.get_live(slot + 1), None);
    assert_eq!(level.unlink(slot + 1), None);
    assert_eq!(level.len(), 1, "failed unlink left the level untouched");
    assert_eq!(level.unlink(slot), Some(resting));
    assert_eq!(level.unlink(slot), None);

    let mut book = OrderBook::<2, 4>::new(InstrumentId(1));
    let mut reports = ReportBuffer::<4>::new();
    book.submit(order(1, 100, 1, Side::Sell), &mut reports)
        .expect("rest order");
    reports.clear();
    let cancel = |sequence: u64| CancelOrder {
        order_id: OrderId(1),
        account_id: AccountId(1),
        instrument_id: InstrumentId(1),
        sequence: SequenceNumber(sequence),
    };
    // A legitimate removal invalidates the handle: a repeat cancel fails.
    book.cancel(cancel(3)).expect("first cancel succeeds");
    assert_eq!(book.cancel(cancel(4)), Err(RejectReason::UnknownOrder));
    assert_index_consistent(&book);
}

#[test]
fn a_slot_takes_fifty_six_bytes() {
    if usize::BITS == 64 {
        assert_eq!(core::mem::size_of::<OrderSlot>(), 56);
    }
}

/// A book as a plain list of orders in arrival order.
#[derive(Default)]
struct ListBook {
    orders: Vec<(Side, i64, NewOrder)>,
}

impl ListBook {
    fn best(&self, side: Side) -> Option<i64> {
        let prices = self
            .orders
            .iter()
            .filter(|entry| entry.0 == side)
            .map(|entry| entry.1);
        if side == Side::Buy {
            prices.max()
        } else {
            prices.min()
        }
    }

    fn room(&self, side: Side, price: i64, levels: usize, depth: usize) -> Option<RejectReason> {
        let mut prices: Vec<i64> = self
            .orders
            .iter()
            .filter(|entry| entry.0 == side)
            .map(|entry| entry.1)
            .collect();
        let peers = prices.iter().filter(|other| **other == price).count();
        prices.sort_unstable();
        prices.dedup();
        if peers == depth {
            Some(RejectReason::PriceLevelOrderCapacity)
        } else if peers == 0 && prices.len() == levels {
            Some(RejectReason::PriceLevelCapacity)
        } else {
            None
        }
    }

    fn submit(
        &mut self,
        order: NewOrder,
        reports: usize,
        levels: usize,
        depth: usize,
    ) -> Result<(u64, Vec<(u64, i64, u64)>), RejectReason> {
        if self
            .orders
            .iter()
            .any(|entry| entry.2.order_id == order.order_id)
        {
            return Err(RejectReason::DuplicateOrderId);
        }
        let opposing = order.side.opposite();
        let crosses = |price: i64| {
            if order.side == Side::Buy {
                price <= order.price.0
            } else {
                price >= order.price.0
            }
        };
        if order.time_in_force == TimeInForce::PostOnly
            && self.best(opposing).is_some_and(crosses)
        {
            return Err(RejectReason::PostOnlyWouldTrade);
        }
        let mut makers = self.orders.clone();
        let mut left = order.quantity.0;
        let mut fills = Vec::new();
        while left > 0 {
            let book = ListBook {
                orders: makers.clone(),
            };
            let Some(price) = book.best(opposing).filter(|price| crosses(*price)) else {
                break;
            };
            let at = makers
                .iter()
                .position(|entry| entry.0 == opposing && entry.1 == price)
                .expect("maker");
            let traded = left.min(makers[at].2.quantity.0);
            fills.push((makers[at].2.order_id.0, price, traded));
            left -= traded;
            makers[at].2.quantity.0 -= traded;
            if makers[at].2.quantity.0 == 0 {
                makers.remove(at);
            }
        }
        if fills.len() > reports {
            return Err(RejectReason::ReportCapacity);
        }
        if left > 0 {
            match order.time_in_force {
                TimeInForce::Fok => return Err(RejectReason::InsufficientLiquidity),
                TimeInForce::Ioc => {}
                _ => {
                    if let Some(reason) = self.room(order.side, order.price.0, levels, depth) {
                        return Err(reason);
                    }
                    let mut rest = order;
                    rest.quantity = Quantity(left);
                    makers.push((order.side, order.price.0, rest));
                }
            }
        }
        self.orders = makers;
        Ok((order.quantity.0 - left, fills))
    }

    fn owned(&self, id: OrderId, account: AccountId) -> Result<usize, RejectReason> {
        let at = self
            .orders
            .iter()
            .position(|entry| entry.2.order_id == id)
            .ok_or(RejectReason::UnknownOrder)?;
        if self.orders[at].2.account_id == account {
            Ok(at)
        } else {
            Err(RejectReason::NotOrderOwner)
        }
    }

    fn replace(
        &mut self,
        replace: ReplaceOrder,
        levels: usize,
        depth: usize,
    ) -> Result<(u64, bool), RejectReason> {
        let at = self.owned(replace.order_id, replace.account_id)?;
        let (side, price, mut order) = self.orders[at];
        let old = order.quantity.0;
        order.quantity = replace.quantity;
        if replace.price.0 == price {
            if replace.quantity.0 < old {
                self.orders[at].2 = order;
                return Ok((old, false));
            }
        } else {
            let opposing = self.best(side.opposite());
            let crosses = opposing.is_some_and(|best| {
                if side == Side::Buy {
                    best <= replace.price.0
                } else {
                    best >= replace.price.0
                }
            });
            if crosses {
                return Err(RejectReason::ReplaceWouldCross);
            }
            let peers = |wanted: i64| {
                self.orders
                    .iter()
                    .filter(|entry| entry.0 == side && entry.1 == wanted)
                    .count()
            };
            if peers(price) != 1 || peers(replace.price.0) != 0 {
                if let Some(reason) = self.room(side, replace.price.0, levels, depth) {
                    return Err(reason);
                }
            }
        }
        order.sequence = replace.sequence;
        self.orders.remove(at);
        self.orders.push((side, replace.price.0, order));
        Ok((old, true))
    }

    fn dump(&self) -> Vec<(Side, i64, u64, u64, u64)> {
        let mut dump = Vec::new();
        for side in [Side::Buy, Side::Sell] {
            let mut prices: Vec<i64> = self
                .orders
                .iter()
                .filter(|entry| entry.0 == side)
                .map(|entry| entry.1)
                .collect();
            prices.sort_unstable();
            prices.dedup();
            if side == Side::Buy {
                prices.reverse();
            }
            for price in prices {
                for entry in &self.orders {
                    if entry.0 == side && entry.1 == price {
                        dump.push((
                            side,
                            price,
                            entry.2.order_id.0,
                            entry.2.quantity.0,
                            entry.2.sequence.0,
                        ));
                    }
                }
            }
        }
        dump
    }
}

#[test]
fn random_commands_match_a_list_of_orders() {
    const LEVELS: usize = 4;
    const ORDERS: usize = 4;
    const REPORTS: usize = 8;
    let mut book = OrderBook::<LEVELS, ORDERS>::new(InstrumentId(1));
    let mut model = ListBook::default();
    let mut reports = ReportBuffer::<REPORTS>::new();
    let mut seed = 0x5eed_u64;
    let mut draw = |bound: u64| {
        seed = seed
            .wrapping_mul(6_364_136_223_846_793_005)
            .wrapping_add(1_442_695_040_888_963_407);
        (seed >> 33) % bound
    };
    for step in 1..=600_u64 {
        let kind = draw(100);
        let account = AccountId(u32::try_from(draw(2)).expect("account") + 1);
        let price = PriceTicks(99 + i64::try_from(draw(3)).expect("price"));
        let quantity = Quantity(draw(3) + 1);
        let known = OrderId(draw(step) + 1);
        if kind < 60 {
            let time_in_force = match draw(20) {
                0..=2 => TimeInForce::Ioc,
                3..=4 => TimeInForce::Fok,
                5..=6 => TimeInForce::PostOnly,
                _ => TimeInForce::Gtc,
            };
            let order = NewOrder {
                time_in_force,
                order_id: if draw(10) == 0 { known } else { OrderId(step) },
                account_id: account,
                instrument_id: InstrumentId(1),
                price,
                quantity,
                sequence: SequenceNumber(step),
                side: if draw(2) == 0 { Side::Buy } else { Side::Sell },
            };
            reports.clear();
            let actual = book.submit(order, &mut reports).map(|summary| {
                let fills: Vec<_> = reports
                    .as_slice()
                    .iter()
                    .map(|report| (report.maker_order_id.0, report.price.0, report.quantity.0))
                    .collect();
                (summary.filled_quantity.0, fills)
            });
            let expected = model.submit(order, REPORTS, LEVELS, ORDERS);
            assert_eq!(actual, expected, "submit at step {step}");
        } else if kind < 80 {
            let cancel = CancelOrder {
                order_id: known,
                account_id: account,
                instrument_id: InstrumentId(1),
                sequence: SequenceNumber(step),
            };
            let actual = book.cancel(cancel).map(|cancelled| cancelled.quantity.0);
            let expected = model
                .owned(known, account)
                .map(|at| model.orders.remove(at).2.quantity.0);
            assert_eq!(actual, expected, "cancel at step {step}");
        } else {
            let replace = ReplaceOrder {
                order_id: known,
                account_id: account,
                instrument_id: InstrumentId(1),
                sequence: SequenceNumber(step),
                price,
                quantity,
            };
            let actual = book
                .replace(replace)
                .map(|replaced| (replaced.old_quantity.0, replaced.priority_lost));
            let expected = model.replace(replace, LEVELS, ORDERS);
            assert_eq!(actual, expected, "replace at step {step}");
        }
        assert_eq!(dump_book(&book), model.dump(), "book state at step {step}");
        assert_index_consistent(&book);
    }
}

#[test]
fn refusals_name_the_first_failed_check() {
    let mut book = OrderBook::<2, 2>::new(InstrumentId(1));
    let mut reports = ReportBuffer::<2>::new();
    let mut foreign = order(1, 100, 1, Side::Buy);
    foreign.instrument_id = InstrumentId(2);
    assert_eq!(
        book.submit(foreign, &mut reports),
        Err(RejectReason::InvalidInstrument)
    );
    assert_eq!(
        book.submit(order(1, 0, 1, Side::Buy), &mut reports),
        Err(RejectReason::InvalidPrice)
    );
    assert_eq!(
        book.submit(order(1, 100, 0, Side::Buy), &mut reports),
        Err(RejectReason::InvalidQuantity)
    );
    book.submit(order(1, 100, 2, Side::Buy), &mut reports)
        .expect("rest bid");
    book.submit(order(2, 102, 2, Side::Sell), &mut reports)
        .expect("rest ask");
    let replace = |price: i64, quantity: u64| ReplaceOrder {
        order_id: OrderId(1),
        account_id: AccountId(1),
        instrument_id: InstrumentId(1),
        sequence: SequenceNumber(9),
        price: PriceTicks(price),
        quantity: Quantity(quantity),
    };
    assert_eq!(
        book.replace(replace(0, 1)),
        Err(RejectReason::InvalidPrice)
    );
    assert_eq!(
        book.replace(replace(100, 0)),
        Err(RejectReason::InvalidQuantity)
    );
    assert_eq!(
        book.replace(replace(102, 1)),
        Err(RejectReason::ReplaceWouldCross)
    );
    let mut stranger = replace(100, 1);
    stranger.account_id = AccountId(2);
    assert_eq!(book.replace(stranger), Err(RejectReason::NotOrderOwner));
    let mut unknown = replace(100, 1);
    unknown.order_id = OrderId(7);
    assert_eq!(book.replace(unknown), Err(RejectReason::UnknownOrder));
    assert_eq!(
        book.replace(replace(101, 5)),
        Ok(ReplacedOrder {
            order_id: OrderId(1),
            account_id: AccountId(1),
            old_quantity: Quantity(2),
            new_quantity: Quantity(5),
            price: PriceTicks(101),
            priority_lost: true,
        })
    );
}

#[test]
fn submit_then_cancel_restores_the_book() {
    let mut book = OrderBook::<4, 4>::new(InstrumentId(1));
    let mut reports = ReportBuffer::<4>::new();
    book.submit(order(1, 99, 2, Side::Buy), &mut reports)
        .expect("bid");
    book.submit(order(2, 101, 3, Side::Sell), &mut reports)
        .expect("ask");
    let digest = book.stable_digest();
    let state = book.export_state();
    book.submit(order(3, 100, 1, Side::Buy), &mut reports)
        .expect("rest");
    assert_ne!(book.stable_digest(), digest);
    book.cancel(CancelOrder {
        order_id: OrderId(3),
        account_id: AccountId(1),
        instrument_id: InstrumentId(1),
        sequence: SequenceNumber(4),
    })
    .expect("cancel");
    assert_eq!(book.stable_digest(), digest);
    assert_eq!(book.export_state(), state);
}

#[test]
fn state_faults_are_named() {
    let mut book = OrderBook::<2, 2>::new(InstrumentId(1));
    let mut reports = ReportBuffer::<2>::new();
    book.submit(order(1, 99, 2, Side::Buy), &mut reports)
        .expect("bid");
    book.submit(order(2, 98, 2, Side::Buy), &mut reports)
        .expect("lower bid");
    let good = book.export_state();
    let fault = |state: &BookState<2, 2>| {
        OrderBook::<2, 2>::from_state(InstrumentId(1), state)
            .err()
            .expect("refused")
    };
    assert_eq!(
        OrderBook::<2, 2>::from_state(InstrumentId(2), &good).err(),
        Some(BookStateError::Instrument)
    );
    let mut levels = book.export_state();
    levels.bid_level_count = 3;
    assert_eq!(fault(&levels), BookStateError::LevelCapacity);
    let mut orders = book.export_state();
    orders.bids[0].order_count = 3;
    assert_eq!(fault(&orders), BookStateError::OrderCapacity);
    let mut side = book.export_state();
    side.bids[0].side = Side::Sell;
    assert_eq!(fault(&side), BookStateError::Side);
    let mut price = book.export_state();
    price.bids[0].orders[0].price = PriceTicks(97);
    assert_eq!(fault(&price), BookStateError::Price);
    let mut quantity = book.export_state();
    quantity.bids[0].orders[0].quantity = Quantity(0);
    assert_eq!(fault(&quantity), BookStateError::Quantity);
    let mut order = book.export_state();
    order.bids.swap(0, 1);
    assert_eq!(fault(&order), BookStateError::LevelOrder);
    let mut spare = book.export_state();
    spare.bids[0].orders[1].order_id = OrderId(9);
    assert_eq!(fault(&spare), BookStateError::NonCanonical);
}
