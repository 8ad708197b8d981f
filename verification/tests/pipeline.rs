use hft::book::order_book::OrderBook;
use hft::book::state::BookState;
use hft::engine::builder::{BuildError, EngineBuilder, EngineParts, EngineStorage, RestoreError};
use hft::engine::lifecycle::{Engine, GatewayCheck};
use hft::engine::{CheckpointError, EngineError, EngineState, Health};
use hft::events::batch::EventBatch;
use hft::events::engine::{AdmittedCommand, BookTop, BoundedEventEngine};
use hft::events::{
    Accepted, BatchFull, CommandKind, Event, EventEngineConfigError, EventEngineError, EventId,
    GatewayError, GatewayOutcome, ParseError, Rejected,
};
use hft::journal::channel::{JournalChannel, JournalReader, ReadError};
use hft::journal::record::JournalRecord;
use hft::journal::sink::{DurableSink, StorageError, StorageErrorKind};
use hft::journal::worker::{FlushPolicy, PersistError, PersistenceWorker};
use hft::journal::{JournalError, RECORD_SIZE, RING_CAPACITY};
use hft::queue::{BoundedQueue, QueueConfigError};
use hft::risk::engine::RiskEngine;
use hft::risk::{RegistrationError, RiskEngineState, RiskLimits};
use hft::router::dispatch::MultiInstrumentRouter;
use hft::router::shard::MatchingShard;
use hft::router::table::RouteTable;
use hft::router::{
    InstrumentRoute, RouteTableError, RouterError, ShardConfigError, ShardError, ShardId,
    ShardStep,
};
use hft::types::{
    AccountId, CancelOrder, Command, InstrumentId, NewOrder, OrderId, PriceTicks, Quantity,
    RejectReason, ReplaceOrder, ReportBuffer, SequenceNumber, Side, TimeInForce,
};

/// Puts a number into a frame, most significant byte first.
fn put(frame: &mut Vec<u8>, value: u64, bytes: usize) {
    frame.extend_from_slice(&value.to_be_bytes()[8 - bytes..]);
}

/// Takes a number out of a frame.
fn take(frame: &mut &[u8], bytes: usize) -> Option<u64> {
    if frame.len() < bytes {
        return None;
    }
    let (head, tail) = frame.split_at(bytes);
    *frame = tail;
    Some(head.iter().fold(0, |value, byte| value << 8 | u64::from(*byte)))
}

/// A frame of the command.
fn frame_of(command: Command) -> Vec<u8> {
    let mut frame = Vec::new();
    match command {
        Command::NewOrder(order) => {
            frame.push(1);
            put(&mut frame, order.order_id.0, 8);
            put(&mut frame, u64::from(order.account_id.0), 4);
            put(&mut frame, u64::from(order.instrument_id.0), 4);
            put(&mut frame, order.sequence.0, 8);
            put(&mut frame, u64::try_from(order.price.0).expect("price"), 8);
            put(&mut frame, order.quantity.0, 8);
            frame.push(match order.side {
                Side::Buy => 0,
                Side::Sell => 1,
            });
            frame.push(match order.time_in_force {
                TimeInForce::Gtc => 0,
                TimeInForce::Ioc => 1,
                TimeInForce::Fok => 2,
                TimeInForce::PostOnly => 3,
            });
        }
        Command::CancelOrder(cancel) => {
            frame.push(2);
            put(&mut frame, cancel.order_id.0, 8);
            put(&mut frame, u64::from(cancel.account_id.0), 4);
            put(&mut frame, u64::from(cancel.instrument_id.0), 4);
            put(&mut frame, cancel.sequence.0, 8);
        }
        Command::ReplaceOrder(replace) => {
            frame.push(3);
            put(&mut frame, replace.order_id.0, 8);
            put(&mut frame, u64::from(replace.account_id.0), 4);
            put(&mut frame, u64::from(replace.instrument_id.0), 4);
            put(&mut frame, replace.sequence.0, 8);
            put(&mut frame, u64::try_from(replace.price.0).expect("price"), 8);
            put(&mut frame, replace.quantity.0, 8);
        }
    }
    frame
}

/// The command of a frame, where it holds one.
fn read_frame(mut frame: &[u8]) -> Option<Command> {
    let frame = &mut frame;
    let kind = take(frame, 1)?;
    let order_id = OrderId(take(frame, 8)?);
    let account_id = AccountId(u32::try_from(take(frame, 4)?).ok()?);
    let instrument_id = InstrumentId(u32::try_from(take(frame, 4)?).ok()?);
    let sequence = SequenceNumber(take(frame, 8)?);
    let command = match kind {
        1 => Command::NewOrder(NewOrder {
            order_id,
            account_id,
            instrument_id,
            sequence,
            price: PriceTicks(i64::try_from(take(frame, 8)?).ok()?),
            quantity: Quantity(take(frame, 8)?),
            side: match take(frame, 1)? {
                0 => Side::Buy,
                1 => Side::Sell,
                _ => return None,
            },
            time_in_force: match take(frame, 1)? {
                0 => TimeInForce::Gtc,
                1 => TimeInForce::Ioc,
                2 => TimeInForce::Fok,
                3 => TimeInForce::PostOnly,
                _ => return None,
            },
        }),
        2 => Command::CancelOrder(CancelOrder {
            order_id,
            account_id,
            instrument_id,
            sequence,
        }),
        3 => Command::ReplaceOrder(ReplaceOrder {
            order_id,
            account_id,
            instrument_id,
            sequence,
            price: PriceTicks(i64::try_from(take(frame, 8)?).ok()?),
            quantity: Quantity(take(frame, 8)?),
        }),
        _ => return None,
    };
    frame.is_empty().then_some(command)
}

/// What a wire decoder makes of a frame.
fn parse(frame: &[u8]) -> Result<Command, ParseError> {
    read_frame(frame).ok_or(ParseError { code: 1 })
}

/// Everything that a gateway holds.
#[derive(Clone, Debug, PartialEq)]
struct GatewayState<const LEVELS: usize, const PER_LEVEL: usize> {
    risk: RiskEngineState,
    book: BookState<LEVELS, PER_LEVEL>,
    instrument: InstrumentId,
    expected: SequenceNumber,
}

/// One risk engine before one order book.
struct Gateway<
    const ACCOUNTS: usize,
    const RISK_ORDERS: usize,
    const LEVELS: usize,
    const PER_LEVEL: usize,
> {
    risk: RiskEngine<ACCOUNTS, RISK_ORDERS>,
    book: OrderBook<LEVELS, PER_LEVEL>,
    instrument: InstrumentId,
    expected: SequenceNumber,
}

impl<
        const ACCOUNTS: usize,
        const RISK_ORDERS: usize,
        const LEVELS: usize,
        const PER_LEVEL: usize,
    > Gateway<ACCOUNTS, RISK_ORDERS, LEVELS, PER_LEVEL>
{
    fn new(risk: RiskEngine<ACCOUNTS, RISK_ORDERS>, instrument: InstrumentId) -> Self {
        Gateway {
            risk,
            book: OrderBook::new(instrument),
            instrument,
            expected: SequenceNumber(1),
        }
    }

    fn export_state(&self) -> GatewayState<LEVELS, PER_LEVEL> {
        GatewayState {
            risk: self.risk.export_state(),
            book: self.book.export_state(),
            instrument: self.instrument,
            expected: self.expected,
        }
    }

    fn from_state(state: &GatewayState<LEVELS, PER_LEVEL>) -> Self {
        Gateway {
            risk: RiskEngine::from_state(&state.risk).expect("risk state"),
            book: OrderBook::from_state(state.instrument, &state.book).expect("book state"),
            instrument: state.instrument,
            expected: state.expected,
        }
    }

    fn expected_sequence(&self) -> SequenceNumber {
        self.expected
    }

    fn check_sequence(&self, sequence: SequenceNumber) -> Result<(), GatewayError> {
        if sequence != self.expected {
            return Err(GatewayError::Sequence {
                expected: self.expected,
                received: sequence,
            });
        }
        if sequence.0 == u64::MAX {
            return Err(GatewayError::RiskState(RejectReason::ArithmeticOverflow));
        }
        Ok(())
    }

    fn top(&self) -> BookTop {
        BookTop {
            bid: self.book.top_level(Side::Buy),
            ask: self.book.top_level(Side::Sell),
        }
    }

    fn execute<const REPORTS: usize>(
        &mut self,
        command: Command,
        reports: &mut ReportBuffer<REPORTS>,
    ) -> Result<GatewayOutcome, GatewayError> {
        self.check_sequence(command.sequence())?;
        self.expected = SequenceNumber(self.expected.0 + 1);
        reports.clear();
        match command {
            Command::NewOrder(order) => {
                self.risk
                    .check_and_reserve(order)
                    .map_err(GatewayError::Risk)?;
                let summary = match self.book.submit(order, reports) {
                    Ok(summary) => summary,
                    Err(reason) => {
                        self.risk
                            .cancel_reservation(order.order_id, order.account_id)
                            .map_err(GatewayError::RiskState)?;
                        return Err(GatewayError::Book(reason));
                    }
                };
                for report in reports.as_slice() {
                    for id in [report.maker_order_id, report.taker_order_id] {
                        self.risk
                            .record_fill(id, report.quantity)
                            .map_err(GatewayError::RiskState)?;
                    }
                }
                if summary.discarded_quantity.0 > 0 {
                    self.risk
                        .cancel_reservation(order.order_id, order.account_id)
                        .map_err(GatewayError::RiskState)?;
                }
                Ok(GatewayOutcome::NewOrder(summary))
            }
            Command::CancelOrder(cancel) => {
                self.risk
                    .can_cancel(cancel.order_id, cancel.account_id)
                    .map_err(GatewayError::Risk)?;
                let cancelled = self.book.cancel(cancel).map_err(GatewayError::Book)?;
                self.risk
                    .cancel_reservation(cancel.order_id, cancel.account_id)
                    .map_err(GatewayError::RiskState)?;
                Ok(GatewayOutcome::Cancelled(cancelled))
            }
            Command::ReplaceOrder(replace) => {
                let (_, prior) = self
                    .risk
                    .adjust_reservation(
                        replace.order_id,
                        replace.account_id,
                        replace.price,
                        replace.quantity,
                    )
                    .map_err(GatewayError::Risk)?;
                match self.book.replace(replace) {
                    Ok(replaced) => Ok(GatewayOutcome::Replaced(replaced)),
                    Err(reason) => {
                        self.risk
                            .restore_reservation(replace.order_id, replace.account_id, prior)
                            .map_err(GatewayError::RiskState)?;
                        Err(GatewayError::Book(reason))
                    }
                }
            }
        }
    }
}

/// A gateway whose results are published as event batches.
struct Publisher<
    const ACCOUNTS: usize,
    const RISK_ORDERS: usize,
    const LEVELS: usize,
    const PER_LEVEL: usize,
    const REPORTS: usize,
    const BATCH: usize,
    const QUEUE: usize,
> {
    gateway: Gateway<ACCOUNTS, RISK_ORDERS, LEVELS, PER_LEVEL>,
    engine: BoundedEventEngine<REPORTS, BATCH, QUEUE>,
    queue: BoundedQueue<EventBatch<BATCH>, QUEUE>,
}

impl<
        const ACCOUNTS: usize,
        const RISK_ORDERS: usize,
        const LEVELS: usize,
        const PER_LEVEL: usize,
        const REPORTS: usize,
        const BATCH: usize,
        const QUEUE: usize,
    > Publisher<ACCOUNTS, RISK_ORDERS, LEVELS, PER_LEVEL, REPORTS, BATCH, QUEUE>
{
    fn try_new(
        gateway: Gateway<ACCOUNTS, RISK_ORDERS, LEVELS, PER_LEVEL>,
    ) -> Result<Self, EventEngineConfigError> {
        Ok(Publisher {
            gateway,
            engine: BoundedEventEngine::try_new()?,
            queue: BoundedQueue::try_new().expect("queue"),
        })
    }

    fn admission(&self, command: Command) -> Result<AdmittedCommand, EventEngineError> {
        let check = self.gateway.check_sequence(command.sequence());
        self.engine.admit_command(&self.queue, command, check)
    }

    fn apply(&mut self, admitted: AdmittedCommand) -> Result<(), EventEngineError> {
        let before = self.gateway.top();
        let mut reports = ReportBuffer::new();
        let result = self.gateway.execute(admitted.command(), &mut reports);
        let after = self.gateway.top();
        self.engine
            .apply(&mut self.queue, admitted, before, after, &reports, result)
    }

    fn process_command(&mut self, command: Command) -> Result<(), EventEngineError> {
        let admitted = self.admission(command)?;
        self.apply(admitted)
    }

    fn process_frame(&mut self, frame: &[u8]) -> Result<(), EventEngineError> {
        let parsed = parse(frame);
        let check = match parsed {
            Ok(command) => self.gateway.check_sequence(command.sequence()),
            Err(_) => Ok(()),
        };
        let admitted = self.engine.admit_frame(&self.queue, parsed, check)?;
        self.apply(admitted)
    }

    fn try_pop(&mut self) -> Option<EventBatch<BATCH>> {
        self.queue.try_pop()
    }
}

type EventGateway = Gateway<2, 8, 4, 4>;
type EventPublisher<const QUEUE: usize> = Publisher<2, 8, 4, 4, 4, 6, QUEUE>;

fn event_limits() -> RiskLimits {
    RiskLimits {
        max_quantity: Quantity(100),
        max_notional: 100_000,
        max_abs_position: Quantity(1_000),
        max_open_orders: 8,
        minimum_price: PriceTicks(1),
        maximum_price: PriceTicks(1_000),
    }
}

fn two_account_gateway(instrument: InstrumentId) -> EventGateway {
    let mut risk = RiskEngine::new();
    risk.register_account(AccountId(1), event_limits())
        .expect("account one");
    risk.register_account(AccountId(2), event_limits())
        .expect("account two");
    Gateway::new(risk, instrument)
}

fn event_gateway() -> EventGateway {
    two_account_gateway(InstrumentId(7))
}

fn event_command(
    id: u64,
    account: u32,
    sequence: u64,
    side: Side,
    price: i64,
    quantity: u64,
) -> Command {
    Command::NewOrder(NewOrder {
        order_id: OrderId(id),
        account_id: AccountId(account),
        instrument_id: InstrumentId(7),
        price: PriceTicks(price),
        quantity: Quantity(quantity),
        sequence: SequenceNumber(sequence),
        side,
        time_in_force: TimeInForce::Gtc,
    })
}

fn event_frame(
    id: u64,
    account: u32,
    sequence: u64,
    side: Side,
    price: i64,
    quantity: u64,
) -> Vec<u8> {
    frame_of(event_command(id, account, sequence, side, price, quantity))
}

#[test]
fn accepted_trade_and_top_events_have_stable_order() {
    let mut engine = EventPublisher::<4>::try_new(event_gateway()).expect("batch capacity");

    let sell = event_frame(1, 1, 1, Side::Sell, 100, 5);
    engine.process_frame(&sell).expect("rest sell");
    let first = engine.try_pop().expect("first batch");
    assert_eq!(first.len(), 2);
    assert!(matches!(first.as_slice().first(), Some(Event::Accepted(_))));
    assert!(matches!(first.as_slice().get(1), Some(Event::TopOfBook(_))));

    let buy = event_frame(2, 2, 2, Side::Buy, 100, 5);
    engine.process_frame(&buy).expect("cross sell");
    let second = engine.try_pop().expect("second batch");
    let events: Vec<_> = second.as_slice().to_vec();
    assert!(matches!(events[0], Event::Accepted(_)));
    assert!(matches!(events[1], Event::Trade(_)));
    assert!(matches!(events[2], Event::TopOfBook(_)));
    for (ordinal, event) in events.iter().enumerate() {
        let id = match event {
            Event::Accepted(event) => event.id,
            Event::Trade(event) => event.id,
            Event::TopOfBook(event) => event.id,
            _ => unreachable!("unexpected event"),
        };
        assert_eq!(id.command_sequence, SequenceNumber(2));
        assert_eq!(usize::from(id.ordinal), ordinal);
        assert_eq!(event.id(), id);
    }
    let Event::Trade(trade) = events[1] else {
        unreachable!("trade event checked above");
    };
    assert_eq!(trade.maker_order_id, OrderId(1));
    assert_eq!(trade.taker_order_id, OrderId(2));
    assert_eq!(trade.quantity, Quantity(5));
}

#[test]
fn multi_level_trades_follow_book_price_time_order() {
    let mut engine = EventPublisher::<4>::try_new(event_gateway()).expect("batch capacity");

    for frame in [
        event_frame(1, 1, 1, Side::Sell, 100, 2),
        event_frame(2, 1, 2, Side::Sell, 101, 3),
    ] {
        engine.process_frame(&frame).expect("rest maker");
        let _ = engine.try_pop().expect("maker batch");
    }

    let taker = event_frame(3, 2, 3, Side::Buy, 101, 5);
    engine.process_frame(&taker).expect("cross levels");
    let batch = engine.try_pop().expect("taker batch");
    let trades: Vec<_> = batch
        .as_slice()
        .iter()
        .filter_map(|event| match event {
            Event::Trade(trade) => Some(*trade),
            _ => None,
        })
        .collect();

    assert_eq!(trades.len(), 2);
    assert_eq!(trades[0].maker_order_id, OrderId(1));
    assert_eq!(trades[0].price, PriceTicks(100));
    assert_eq!(trades[1].maker_order_id, OrderId(2));
    assert_eq!(trades[1].price, PriceTicks(101));
    assert_eq!(trades[0].id.ordinal, 1);
    assert_eq!(trades[1].id.ordinal, 2);
}

#[test]
fn replace_cancel_and_business_rejection_emit_terminal_events() {
    let mut engine = EventPublisher::<8>::try_new(event_gateway()).expect("batch capacity");

    let first = event_frame(1, 1, 1, Side::Buy, 100, 5);
    engine.process_frame(&first).expect("new order");
    let _ = engine.try_pop();

    let replace = frame_of(Command::ReplaceOrder(ReplaceOrder {
        order_id: OrderId(1),
        account_id: AccountId(1),
        instrument_id: InstrumentId(7),
        sequence: SequenceNumber(2),
        price: PriceTicks(100),
        quantity: Quantity(3),
    }));
    engine.process_frame(&replace).expect("replace");
    let replaced = engine.try_pop().expect("replace batch");
    assert!(matches!(
        replaced.as_slice().first(),
        Some(Event::Replaced(_))
    ));
    assert!(matches!(
        replaced.as_slice().get(1),
        Some(Event::TopOfBook(_))
    ));

    let cancel = frame_of(Command::CancelOrder(CancelOrder {
        order_id: OrderId(1),
        account_id: AccountId(1),
        instrument_id: InstrumentId(7),
        sequence: SequenceNumber(3),
    }));
    engine.process_frame(&cancel).expect("cancel");
    let cancelled = engine.try_pop().expect("cancel batch");
    assert!(matches!(
        cancelled.as_slice().first(),
        Some(Event::Cancelled(_))
    ));
    assert!(matches!(
        cancelled.as_slice().get(1),
        Some(Event::TopOfBook(_))
    ));

    let unknown = frame_of(Command::CancelOrder(CancelOrder {
        order_id: OrderId(99),
        account_id: AccountId(1),
        instrument_id: InstrumentId(7),
        sequence: SequenceNumber(4),
    }));
    engine.process_frame(&unknown).expect("recorded rejection");
    let rejected = engine.try_pop().expect("rejection batch");
    assert_eq!(rejected.len(), 1);
    assert!(matches!(
        rejected.as_slice().first(),
        Some(Event::Rejected(Rejected {
            command: CommandKind::Cancel,
            reason: RejectReason::UnknownOrder,
            ..
        }))
    ));
    assert_eq!(engine.gateway.expected_sequence(), SequenceNumber(5));
}

#[test]
fn rejected_new_and_replace_events_preserve_command_identity() {
    let mut engine = EventPublisher::<2>::try_new(event_gateway()).expect("batch capacity");

    let rejected_new = event_frame(7, 2, 1, Side::Buy, 100, 101);
    engine
        .process_frame(&rejected_new)
        .expect("new rejection event");
    let new_batch = engine.try_pop().expect("new rejection batch");
    assert_eq!(
        new_batch.as_slice().first(),
        Some(&Event::Rejected(Rejected {
            id: EventId {
                command_sequence: SequenceNumber(1),
                ordinal: 0,
            },
            command: CommandKind::NewOrder,
            order_id: OrderId(7),
            account_id: AccountId(2),
            instrument_id: InstrumentId(7),
            reason: RejectReason::QuantityLimit,
        }))
    );

    let rejected_replace = frame_of(Command::ReplaceOrder(ReplaceOrder {
        order_id: OrderId(7),
        account_id: AccountId(2),
        instrument_id: InstrumentId(7),
        sequence: SequenceNumber(2),
        price: PriceTicks(101),
        quantity: Quantity(1),
    }));
    engine
        .process_frame(&rejected_replace)
        .expect("replace rejection event");
    let replace_batch = engine.try_pop().expect("replace rejection batch");
    assert_eq!(
        replace_batch.as_slice().first(),
        Some(&Event::Rejected(Rejected {
            id: EventId {
                command_sequence: SequenceNumber(2),
                ordinal: 0,
            },
            command: CommandKind::Replace,
            order_id: OrderId(7),
            account_id: AccountId(2),
            instrument_id: InstrumentId(7),
            reason: RejectReason::UnknownOrder,
        }))
    );
}

#[test]
fn full_queue_rejects_before_gateway_mutation_and_retry_succeeds() {
    let mut engine = EventPublisher::<1>::try_new(event_gateway()).expect("batch capacity");

    let first = event_frame(1, 1, 1, Side::Buy, 99, 2);
    engine.process_frame(&first).expect("first command");
    let before = engine.gateway.export_state();
    let second = event_frame(2, 1, 2, Side::Buy, 98, 2);
    assert_eq!(
        engine.process_frame(&second),
        Err(EventEngineError::Backpressured)
    );
    assert_eq!(engine.gateway.export_state(), before);
    assert_eq!(engine.gateway.expected_sequence(), SequenceNumber(2));

    let _ = engine.try_pop().expect("free queue slot");
    engine.process_frame(&second).expect("retry");
    assert_eq!(engine.gateway.expected_sequence(), SequenceNumber(3));
    assert!(engine.try_pop().is_some());
}

#[test]
fn dropped_admission_preserves_state_and_can_be_retried() {
    let mut engine = EventPublisher::<1>::try_new(event_gateway()).expect("batch capacity");
    let new_order = event_command(1, 1, 1, Side::Buy, 99, 2);
    let before = engine.gateway.export_state();

    {
        let _admitted = engine.admission(new_order).expect("admission");
        assert!(engine.try_pop().is_none());
    }

    assert_eq!(engine.gateway.export_state(), before);
    assert!(engine.try_pop().is_none());
    let admitted = engine.admission(new_order).expect("retry admission");
    engine.apply(admitted).expect("apply command");
    assert_eq!(engine.gateway.expected_sequence(), SequenceNumber(2));
    let batch = engine.try_pop().expect("command batch");
    assert_eq!(batch.len(), 2);
    assert!(matches!(
        batch.as_slice().first(),
        Some(Event::Accepted(Accepted {
            id: EventId {
                command_sequence: SequenceNumber(1),
                ordinal: 0,
            },
            order_id: OrderId(1),
            resting_quantity: Quantity(2),
            ..
        }))
    ));
    assert!(engine.try_pop().is_none());
}

#[test]
fn admission_checks_sequence_then_capacity_before_mutation() {
    let mut engine = EventPublisher::<1>::try_new(event_gateway()).expect("batch capacity");
    engine
        .process_command(event_command(1, 1, 1, Side::Buy, 99, 2))
        .expect("first command");
    let before = engine.gateway.export_state();

    let gap = event_command(2, 1, 3, Side::Buy, 98, 2);
    assert!(matches!(
        engine.admission(gap),
        Err(EventEngineError::Gateway(GatewayError::Sequence {
            expected: SequenceNumber(2),
            received: SequenceNumber(3),
        }))
    ));
    let second = event_command(2, 1, 2, Side::Buy, 98, 2);
    assert!(matches!(
        engine.admission(second),
        Err(EventEngineError::Backpressured)
    ));
    assert_eq!(engine.gateway.export_state(), before);

    let _ = engine.try_pop().expect("first command batch");
    assert!(engine.try_pop().is_none());
    let admitted = engine.admission(second).expect("admission after reclaim");
    engine.apply(admitted).expect("second command");
    assert_eq!(engine.gateway.expected_sequence(), SequenceNumber(3));
    assert!(engine.try_pop().is_some());
    assert!(engine.try_pop().is_none());
}

#[test]
fn admission_checks_sequence_exhaustion_before_capacity() {
    let mut state = event_gateway().export_state();
    state.expected = SequenceNumber(u64::MAX);
    let exhausted = Gateway::from_state(&state);
    let mut engine = EventPublisher::<1>::try_new(exhausted).expect("batch capacity");
    engine
        .queue
        .try_push(EventBatch::new())
        .expect("fill queue");
    let last = event_command(1, 1, u64::MAX, Side::Buy, 100, 1);

    assert!(matches!(
        engine.admission(last),
        Err(EventEngineError::Gateway(GatewayError::RiskState(
            RejectReason::ArithmeticOverflow
        )))
    ));
    assert_eq!(engine.gateway.export_state(), state);
    assert_eq!(engine.try_pop(), Some(EventBatch::new()));
    assert!(engine.try_pop().is_none());
}

#[test]
fn admitted_business_rejection_is_published_only_when_applied() {
    let mut engine = EventPublisher::<1>::try_new(event_gateway()).expect("batch capacity");
    let oversized = event_command(7, 2, 1, Side::Buy, 100, 101);
    let admitted = engine.admission(oversized).expect("admission");
    assert!(engine.try_pop().is_none());
    engine
        .apply(admitted)
        .expect("publish business rejection");

    let batch = engine.try_pop().expect("rejection batch");
    assert_eq!(batch.len(), 1);
    assert_eq!(
        batch.as_slice().first(),
        Some(&Event::Rejected(Rejected {
            id: EventId {
                command_sequence: SequenceNumber(1),
                ordinal: 0,
            },
            command: CommandKind::NewOrder,
            order_id: OrderId(7),
            account_id: AccountId(2),
            instrument_id: InstrumentId(7),
            reason: RejectReason::QuantityLimit,
        }))
    );
    assert_eq!(engine.gateway.expected_sequence(), SequenceNumber(2));
    assert!(engine.try_pop().is_none());
}

#[test]
fn parse_and_sequence_errors_publish_nothing() {
    let mut engine = EventPublisher::<2>::try_new(event_gateway()).expect("batch capacity");

    assert!(matches!(
        engine.process_frame(&[0_u8; 1]),
        Err(EventEngineError::Gateway(GatewayError::Parse(_)))
    ));
    let gap = event_frame(1, 1, 2, Side::Buy, 100, 1);
    assert!(matches!(
        engine.process_frame(&gap),
        Err(EventEngineError::Gateway(GatewayError::Sequence { .. }))
    ));
    assert!(engine.try_pop().is_none());
    assert_eq!(engine.gateway.expected_sequence(), SequenceNumber(1));
}

#[test]
fn sequence_exhaustion_publishes_nothing() {
    let mut state = event_gateway().export_state();
    state.expected = SequenceNumber(u64::MAX);
    let exhausted = Gateway::from_state(&state);
    let mut engine = EventPublisher::<1>::try_new(exhausted).expect("batch capacity");
    let last = event_frame(1, 1, u64::MAX, Side::Buy, 100, 1);

    assert_eq!(
        engine.process_frame(&last),
        Err(EventEngineError::Gateway(GatewayError::RiskState(
            RejectReason::ArithmeticOverflow
        )))
    );
    assert!(engine.try_pop().is_none());
    assert_eq!(engine.gateway.expected_sequence(), SequenceNumber(u64::MAX));
}

#[test]
fn undersized_batch_is_rejected_at_construction() {
    assert!(matches!(
        Publisher::<2, 8, 4, 4, 4, 5, 1>::try_new(event_gateway()),
        Err(EventEngineConfigError::BatchTooSmall)
    ));
}

#[test]
fn event_capacity_limits_are_explicit() {
    assert!(matches!(
        Publisher::<2, 8, 4, 4, 65_535, 1, 1>::try_new(event_gateway()),
        Err(EventEngineConfigError::TooManyEvents)
    ));

    let event = Event::Rejected(Rejected {
        id: EventId {
            command_sequence: SequenceNumber(1),
            ordinal: 0,
        },
        command: CommandKind::NewOrder,
        order_id: OrderId(1),
        account_id: AccountId(1),
        instrument_id: InstrumentId(7),
        reason: RejectReason::QuantityLimit,
    });
    let mut batch = EventBatch::<1>::new();
    assert_eq!(batch.try_push(event), Ok(()));
    assert_eq!(batch.try_push(event), Err(BatchFull));
    assert_eq!(batch.len(), 1);
}

#[test]
fn replay_and_snapshot_tail_emit_identical_event_batches() {
    let frames = [
        event_frame(1, 1, 1, Side::Sell, 100, 5),
        event_frame(2, 2, 2, Side::Buy, 100, 2),
        event_frame(2, 2, 3, Side::Buy, 100, 1),
        event_frame(3, 2, 4, Side::Buy, 100, 3),
    ];

    let full = event_batches(event_gateway(), &frames);
    assert_eq!(full.len(), frames.len());
    assert_eq!(event_batches(event_gateway(), &frames), full);

    let mut prefix = event_gateway();
    let mut reports = ReportBuffer::<4>::new();
    for frame in &frames[..2] {
        let _ = prefix.execute(parse(frame).expect("command"), &mut reports);
    }
    let restored = EventGateway::from_state(&prefix.export_state());
    let tail = event_batches(restored, &frames[2..]);

    assert_eq!(tail, full[2..]);
}

fn event_batches(gateway: EventGateway, frames: &[Vec<u8>]) -> Vec<EventBatch<6>> {
    let mut engine = EventPublisher::<8>::try_new(gateway).expect("batch capacity");
    let mut batches = Vec::with_capacity(frames.len());
    for frame in frames {
        engine.process_frame(frame).expect("replay command");
        batches.push(engine.try_pop().expect("event batch"));
    }
    batches
}

type JournaledPublisher = Publisher<1, 8, 4, 4, 4, 6, 1>;

fn one_account_gateway() -> Gateway<1, 8, 4, 4> {
    let mut risk = RiskEngine::new();
    risk.register_account(AccountId(1), event_limits())
        .expect("register account");
    Gateway::new(risk, InstrumentId(7))
}

fn journaled_order(sequence: u64, quantity: u64) -> NewOrder {
    NewOrder {
        order_id: OrderId(sequence),
        account_id: AccountId(1),
        instrument_id: InstrumentId(7),
        price: PriceTicks(100),
        quantity: Quantity(quantity),
        sequence: SequenceNumber(sequence),
        side: Side::Buy,
        time_in_force: TimeInForce::Gtc,
    }
}

fn journaled_cancel(sequence: u64) -> CancelOrder {
    CancelOrder {
        order_id: OrderId(sequence),
        account_id: AccountId(1),
        instrument_id: InstrumentId(7),
        sequence: SequenceNumber(sequence),
    }
}

fn assert_record(
    reader: &mut JournalReader,
    journal: &mut JournalChannel,
    sequence: u64,
    frame: &[u8],
) {
    let record = reader.read(journal).expect("journal record");
    assert_eq!(record.sequence(), SequenceNumber(sequence));
    assert_eq!(record.slice(), frame);
}

#[test]
fn full_event_queue_leaves_journal_and_gateway_unchanged() {
    let mut engine = JournaledPublisher::try_new(one_account_gateway()).expect("event engine");
    let mut journal = JournalChannel::try_new().expect("journal channel");
    let (mut writer, mut reader) = journal.split(1);

    let first = journaled_order(1, 2);
    let first_frame = frame_of(Command::NewOrder(first));
    assert_eq!(writer.next_sequence(), first.sequence.0);
    let admitted = engine.admission(Command::NewOrder(first)).expect("admission");
    assert_eq!(
        writer.enqueue(&mut journal, &first_frame),
        Ok(first.sequence)
    );
    engine.apply(admitted).expect("first command");

    let before = engine.gateway.export_state();
    let second = journaled_order(2, 3);
    let second_frame = frame_of(Command::NewOrder(second));
    assert_eq!(writer.next_sequence(), second.sequence.0);
    assert!(matches!(
        engine.admission(Command::NewOrder(second)),
        Err(EventEngineError::Backpressured)
    ));
    assert_eq!(engine.gateway.export_state(), before);
    assert_eq!(writer.next_sequence(), 2);
    assert_record(&mut reader, &mut journal, 1, &first_frame);
    assert!(matches!(reader.read(&mut journal), Err(ReadError::Empty)));

    let first_batch = engine.try_pop().expect("first event batch");
    assert!(matches!(
        first_batch.as_slice().first(),
        Some(Event::Accepted(_))
    ));
    assert!(engine.try_pop().is_none());
    let admitted = engine
        .admission(Command::NewOrder(second))
        .expect("retry admission");
    assert_eq!(
        writer.enqueue(&mut journal, &second_frame),
        Ok(second.sequence)
    );
    engine.apply(admitted).expect("second command");
    assert_eq!(writer.next_sequence(), 3);
    assert_eq!(engine.gateway.expected_sequence(), SequenceNumber(3));
    assert_record(&mut reader, &mut journal, 2, &second_frame);
    assert!(matches!(reader.read(&mut journal), Err(ReadError::Empty)));
    assert!(engine.try_pop().is_some());
    assert!(engine.try_pop().is_none());
}

#[test]
fn full_journal_drops_admission_and_reclaimed_slot_accepts_one_retry() {
    let mut engine = JournaledPublisher::try_new(one_account_gateway()).expect("event engine");
    let mut journal = JournalChannel::try_new().expect("journal channel");
    let (mut writer, mut reader) = journal.split(1);
    let capacity = u64::try_from(RING_CAPACITY).expect("journal capacity fits sequence");

    for sequence in 1..=capacity {
        let command = journaled_cancel(sequence);
        assert_eq!(writer.next_sequence(), command.sequence.0);
        let admitted = engine
            .admission(Command::CancelOrder(command))
            .expect("admission");
        assert_eq!(
            writer.enqueue(&mut journal, &frame_of(Command::CancelOrder(command))),
            Ok(command.sequence)
        );
        engine
            .apply(admitted)
            .expect("publish cancellation rejection");
        let batch = engine.try_pop().expect("rejection batch");
        assert_eq!(batch.len(), 1);
        assert!(matches!(
            batch.as_slice().first(),
            Some(Event::Rejected(Rejected {
                id: EventId { command_sequence, ordinal: 0 },
                reason: RejectReason::UnknownOrder,
                ..
            })) if command_sequence.0 == sequence
        ));
    }

    let command = journaled_cancel(capacity + 1);
    let frame = frame_of(Command::CancelOrder(command));
    let before = engine.gateway.export_state();
    assert_eq!(writer.next_sequence(), command.sequence.0);
    {
        let _admitted = engine
            .admission(Command::CancelOrder(command))
            .expect("event admission");
        assert_eq!(
            writer.enqueue(&mut journal, &frame),
            Err(JournalError::Saturated)
        );
        assert!(engine.try_pop().is_none());
    }
    assert_eq!(engine.gateway.export_state(), before);
    assert_eq!(writer.next_sequence(), command.sequence.0);
    assert!(engine.try_pop().is_none());

    assert_record(
        &mut reader,
        &mut journal,
        1,
        &frame_of(Command::CancelOrder(journaled_cancel(1))),
    );
    let admitted = engine
        .admission(Command::CancelOrder(command))
        .expect("retry admission");
    assert_eq!(writer.enqueue(&mut journal, &frame), Ok(command.sequence));
    engine.apply(admitted).expect("apply retry");
    assert_eq!(writer.next_sequence(), capacity + 2);
    assert_eq!(
        engine.gateway.expected_sequence(),
        SequenceNumber(capacity + 2)
    );
    let batch = engine.try_pop().expect("retry event batch");
    assert_eq!(batch.len(), 1);
    assert!(matches!(
        batch.as_slice().first(),
        Some(Event::Rejected(Rejected {
            id: EventId { command_sequence, ordinal: 0 },
            reason: RejectReason::UnknownOrder,
            ..
        })) if *command_sequence == command.sequence
    ));
    assert!(engine.try_pop().is_none());

    for sequence in 2..=capacity + 1 {
        assert_record(
            &mut reader,
            &mut journal,
            sequence,
            &frame_of(Command::CancelOrder(journaled_cancel(sequence))),
        );
    }
    assert!(matches!(reader.read(&mut journal), Err(ReadError::Empty)));
    assert_eq!(reader.expected_sequence(), capacity + 2);
}

#[test]
fn business_rejection_has_matching_journal_and_event_sequences() {
    let mut engine = JournaledPublisher::try_new(one_account_gateway()).expect("event engine");
    let mut journal = JournalChannel::try_new().expect("journal channel");
    let (mut writer, mut reader) = journal.split(1);
    let command = journaled_order(1, 101);
    let frame = frame_of(Command::NewOrder(command));

    assert_eq!(writer.next_sequence(), command.sequence.0);
    let admitted = engine
        .admission(Command::NewOrder(command))
        .expect("admission");
    assert_eq!(writer.enqueue(&mut journal, &frame), Ok(command.sequence));
    assert!(engine.try_pop().is_none());
    engine.apply(admitted).expect("publish rejection");

    assert_eq!(writer.next_sequence(), 2);
    assert_eq!(engine.gateway.expected_sequence(), SequenceNumber(2));
    assert_record(&mut reader, &mut journal, 1, &frame);
    assert!(matches!(reader.read(&mut journal), Err(ReadError::Empty)));
    let batch = engine.try_pop().expect("rejection batch");
    assert_eq!(batch.len(), 1);
    assert_eq!(
        batch.as_slice().first(),
        Some(&Event::Rejected(Rejected {
            id: EventId {
                command_sequence: SequenceNumber(1),
                ordinal: 0
            },
            command: CommandKind::NewOrder,
            order_id: command.order_id,
            account_id: command.account_id,
            instrument_id: command.instrument_id,
            reason: RejectReason::QuantityLimit,
        }))
    );
    assert!(engine.try_pop().is_none());
}

#[test]
fn sequence_failures_happen_before_journal_enqueue() {
    for (expected, received, error) in [
        (
            1,
            2,
            GatewayError::Sequence {
                expected: SequenceNumber(1),
                received: SequenceNumber(2),
            },
        ),
        (
            u64::MAX,
            u64::MAX,
            GatewayError::RiskState(RejectReason::ArithmeticOverflow),
        ),
    ] {
        let mut state = one_account_gateway().export_state();
        state.expected = SequenceNumber(expected);
        let restored = Gateway::from_state(&state);
        let mut engine = JournaledPublisher::try_new(restored).expect("event engine");
        let mut journal = JournalChannel::try_new().expect("journal channel");
        let (writer, mut reader) = journal.split(expected);

        assert_eq!(
            writer.next_sequence(),
            engine.gateway.expected_sequence().0
        );
        assert!(matches!(
            engine.admission(Command::NewOrder(journaled_order(received, 1))),
            Err(EventEngineError::Gateway(actual)) if actual == error
        ));
        assert_eq!(engine.gateway.export_state(), state);
        assert_eq!(writer.next_sequence(), expected);
        assert_eq!(reader.expected_sequence(), expected);
        assert!(matches!(reader.read(&mut journal), Err(ReadError::Empty)));
        assert!(engine.try_pop().is_none());
    }
}

const FIRST: InstrumentRoute = InstrumentRoute {
    instrument_id: InstrumentId(11),
    shard_id: ShardId(0),
};
const SECOND: InstrumentRoute = InstrumentRoute {
    instrument_id: InstrumentId(22),
    shard_id: ShardId(1),
};

fn shard_order(id: u64, instrument_id: InstrumentId, sequence: u64) -> NewOrder {
    NewOrder {
        order_id: OrderId(id),
        account_id: AccountId(1),
        instrument_id,
        price: PriceTicks(100),
        quantity: Quantity(1),
        sequence: SequenceNumber(sequence),
        side: Side::Sell,
        time_in_force: TimeInForce::Gtc,
    }
}

fn shard_command(id: u64, instrument_id: InstrumentId, sequence: u64) -> Command {
    Command::NewOrder(shard_order(id, instrument_id, sequence))
}

/// A shard with its gateway.
struct Worker<const COMMANDS: usize, const EVENTS: usize> {
    gateway: EventGateway,
    shard: MatchingShard<4, 6, COMMANDS, EVENTS>,
}

impl<const COMMANDS: usize, const EVENTS: usize> Worker<COMMANDS, EVENTS> {
    fn try_new(route: InstrumentRoute, gateway: EventGateway) -> Result<Self, ShardConfigError> {
        Ok(Worker {
            shard: MatchingShard::try_new(route, gateway.instrument)?,
            gateway,
        })
    }

    fn try_process_one(
        &mut self,
        commands: &mut BoundedQueue<Command, COMMANDS>,
        events: &mut BoundedQueue<EventBatch<6>, EVENTS>,
    ) -> Result<ShardStep, ShardError> {
        let Some(command) = self.shard.take_command(commands)? else {
            return Ok(ShardStep::Idle);
        };
        let check = self.gateway.check_sequence(command.sequence());
        let admitted = self.shard.admit_command(events, command, check)?;
        let before = self.gateway.top();
        let mut reports = ReportBuffer::new();
        let result = self.gateway.execute(admitted.command(), &mut reports);
        let after = self.gateway.top();
        self.shard
            .finish_command(events, admitted, before, after, &reports, result)
    }
}

fn queues<T, const CAPACITY: usize>() -> Vec<BoundedQueue<T, CAPACITY>> {
    vec![
        BoundedQueue::try_new().expect("queue zero"),
        BoundedQueue::try_new().expect("queue one"),
    ]
}

type Router<const COMMANDS: usize, const EVENTS: usize> =
    MultiInstrumentRouter<2, 6, COMMANDS, EVENTS>;

#[test]
fn route_table_is_stable_and_rejects_invalid_shapes() {
    let forward = RouteTable::try_new([FIRST, SECOND]).expect("forward routes");
    let reverse = RouteTable::try_new([SECOND, FIRST]).expect("reverse routes");
    assert_eq!(forward, reverse);
    assert_eq!(forward.shard_for(InstrumentId(11)), Some(ShardId(0)));
    assert_eq!(forward.shard_for(InstrumentId(22)), Some(ShardId(1)));
    assert_eq!(forward.shard_for(InstrumentId(33)), None);
    assert_eq!(forward.instrument_for(ShardId(1)), Some(InstrumentId(22)));
    assert_eq!(forward.instrument_for(ShardId(2)), None);

    assert_eq!(RouteTable::<0>::try_new([]), Err(RouteTableError::NoShards));
    assert_eq!(
        RouteTable::try_new([
            FIRST,
            InstrumentRoute {
                instrument_id: InstrumentId(22),
                shard_id: ShardId(0),
            },
        ]),
        Err(RouteTableError::DuplicateShardId(ShardId(0)))
    );
    assert_eq!(
        RouteTable::try_new([
            FIRST,
            InstrumentRoute {
                instrument_id: InstrumentId(11),
                shard_id: ShardId(1),
            },
        ]),
        Err(RouteTableError::DuplicateInstrument(InstrumentId(11)))
    );
    assert_eq!(
        RouteTable::try_new([
            FIRST,
            InstrumentRoute {
                instrument_id: InstrumentId(22),
                shard_id: ShardId(2),
            },
        ]),
        Err(RouteTableError::InvalidShardId(ShardId(2)))
    );
}

#[test]
fn dense_routes_resolve_offsets_without_changing_canonical_order() {
    let routes = [
        InstrumentRoute {
            instrument_id: InstrumentId(103),
            shard_id: ShardId(0),
        },
        InstrumentRoute {
            instrument_id: InstrumentId(100),
            shard_id: ShardId(2),
        },
        InstrumentRoute {
            instrument_id: InstrumentId(102),
            shard_id: ShardId(1),
        },
        InstrumentRoute {
            instrument_id: InstrumentId(101),
            shard_id: ShardId(3),
        },
    ];
    let table = RouteTable::try_new(routes).expect("dense routes");
    for route in routes {
        assert_eq!(table.shard_for(route.instrument_id), Some(route.shard_id));
        assert_eq!(
            table.instrument_for(route.shard_id),
            Some(route.instrument_id)
        );
    }
    assert_eq!(table.shard_for(InstrumentId(99)), None);
    assert_eq!(table.shard_for(InstrumentId(104)), None);
    assert_eq!(
        table.routes().map(|route| route.instrument_id),
        [
            InstrumentId(100),
            InstrumentId(101),
            InstrumentId(102),
            InstrumentId(103)
        ]
    );
}

#[test]
fn sparse_routes_search_displaced_ids_and_reject_holes() {
    let routes = [
        InstrumentRoute {
            instrument_id: InstrumentId(10),
            shard_id: ShardId(2),
        },
        InstrumentRoute {
            instrument_id: InstrumentId(11),
            shard_id: ShardId(4),
        },
        InstrumentRoute {
            instrument_id: InstrumentId(13),
            shard_id: ShardId(1),
        },
        InstrumentRoute {
            instrument_id: InstrumentId(900),
            shard_id: ShardId(0),
        },
        InstrumentRoute {
            instrument_id: InstrumentId(u32::MAX),
            shard_id: ShardId(3),
        },
    ];
    let table = RouteTable::try_new(routes).expect("sparse routes");
    for id in (0..=1_000).chain([u32::MAX - 1, u32::MAX]) {
        let expected = routes
            .iter()
            .find(|route| route.instrument_id.0 == id)
            .map(|route| route.shard_id);
        assert_eq!(table.shard_for(InstrumentId(id)), expected);
    }
    for route in routes {
        assert_eq!(
            table.instrument_for(route.shard_id),
            Some(route.instrument_id)
        );
    }
}

#[test]
fn dense_routes_preserve_instrument_id_boundaries() {
    for start in [0, u32::MAX - 2] {
        let table =
            RouteTable::try_new(std::array::from_fn::<_, 3, _>(|index| InstrumentRoute {
                instrument_id: InstrumentId(start + u32::try_from(index).expect("index")),
                shard_id: ShardId(u16::try_from(2 - index).expect("shard")),
            }))
            .expect("boundary routes");
        for index in 0_u16..3 {
            let instrument_id = InstrumentId(start + u32::from(index));
            let shard_id = ShardId(2 - index);
            assert_eq!(table.shard_for(instrument_id), Some(shard_id));
            assert_eq!(table.instrument_for(shard_id), Some(instrument_id));
        }
        assert_eq!(table.shard_for(InstrumentId(start.wrapping_sub(1))), None);
        assert_eq!(table.shard_for(InstrumentId(start.wrapping_add(3))), None);
    }
}

#[test]
fn routes_in_reverse_order_are_found_both_ways() {
    const SHARDS: usize = 1_024;
    let routes = std::array::from_fn::<_, SHARDS, _>(|index| InstrumentRoute {
        instrument_id: InstrumentId(u32::MAX - u32::try_from(index).expect("index")),
        shard_id: ShardId(u16::try_from(index).expect("shard")),
    });
    let table = RouteTable::try_new(routes).expect("routes");
    for shard in 0..1_024_u16 {
        let instrument_id = InstrumentId(u32::MAX - u32::from(shard));
        assert_eq!(table.instrument_for(ShardId(shard)), Some(instrument_id));
        assert_eq!(table.shard_for(instrument_id), Some(ShardId(shard)));
    }
    assert_eq!(table.instrument_for(ShardId(1_024)), None);
}

#[test]
fn reverse_route_index_uses_two_bytes_per_shard() {
    assert_eq!(core::mem::size_of::<RouteTable<4>>(), 44);
    assert_eq!(core::mem::size_of::<RouteTable<64>>(), 644);
    assert_eq!(core::mem::size_of::<RouteTable<1024>>(), 10_244);
}

#[test]
fn commands_and_events_stay_on_their_configured_shards() {
    let route_table = RouteTable::try_new([SECOND, FIRST]).expect("routes");
    let mut router = Router::<2, 2>::new(route_table, queues(), queues());
    let mut shard_zero =
        Worker::<2, 2>::try_new(FIRST, two_account_gateway(FIRST.instrument_id))
            .expect("shard zero");
    let mut shard_one =
        Worker::<2, 2>::try_new(SECOND, two_account_gateway(SECOND.instrument_id))
            .expect("shard one");

    let shard_one_before = shard_one.gateway.export_state();
    let first_frame = frame_of(shard_command(1, FIRST.instrument_id, 1));
    assert_eq!(router.route_frame(parse(&first_frame)), Ok(ShardId(0)));
    let (commands, events) = router.lane(ShardId(0));
    assert_eq!(
        shard_zero.try_process_one(commands, events),
        Ok(ShardStep::Processed(SequenceNumber(1)))
    );
    assert_eq!(shard_one.gateway.export_state(), shard_one_before);
    let (commands, events) = router.lane(ShardId(1));
    assert_eq!(
        shard_one.try_process_one(commands, events),
        Ok(ShardStep::Idle)
    );

    let second_frame = frame_of(shard_command(1, SECOND.instrument_id, 1));
    assert_eq!(router.route_frame(parse(&second_frame)), Ok(ShardId(1)));
    let (commands, events) = router.lane(ShardId(1));
    assert_eq!(
        shard_one.try_process_one(commands, events),
        Ok(ShardStep::Processed(SequenceNumber(1)))
    );

    for shard_id in [ShardId(0), ShardId(1)] {
        let batch = router
            .try_event(shard_id)
            .expect("known shard")
            .expect("event batch");
        let instrument = router
            .routes()
            .instrument_for(shard_id)
            .expect("instrument");
        assert!(batch.as_slice().iter().all(|event| {
            match event {
                Event::Accepted(event) => event.instrument_id == instrument,
                Event::TopOfBook(event) => event.instrument_id == instrument,
                _ => false,
            }
        }));
    }
    assert_eq!(
        router.try_event(ShardId(2)),
        Err(RouterError::UnknownShard(ShardId(2)))
    );
}

#[test]
fn unknown_instrument_and_full_command_queue_reject() {
    let mut router = Router::<1, 1>::new(
        RouteTable::try_new([FIRST, SECOND]).expect("routes"),
        queues(),
        queues(),
    );

    let unknown = shard_command(1, InstrumentId(33), 1);
    assert_eq!(
        router.route_command(unknown),
        Err(RouterError::UnknownInstrument(InstrumentId(33)))
    );
    let first = shard_command(1, FIRST.instrument_id, 1);
    let second = shard_command(2, FIRST.instrument_id, 2);
    assert_eq!(router.route_command(first), Ok(ShardId(0)));
    assert_eq!(
        router.route_command(second),
        Err(RouterError::CommandBackpressured(ShardId(0)))
    );
    assert_eq!(router.lane(ShardId(0)).0.try_pop(), Some(first));
    assert_eq!(router.lane(ShardId(0)).0.try_pop(), None);
    assert_eq!(router.lane(ShardId(1)).0.try_pop(), None);
}

#[test]
fn event_backpressure_retains_the_command_for_retry() {
    let mut commands = BoundedQueue::<Command, 2>::try_new().expect("command queue");
    let mut events = BoundedQueue::<EventBatch<6>, 1>::try_new().expect("event queue");
    let mut shard = Worker::<2, 1>::try_new(FIRST, two_account_gateway(FIRST.instrument_id))
        .expect("shard");

    assert_eq!(
        commands.try_push(shard_command(1, FIRST.instrument_id, 1)),
        Ok(())
    );
    assert_eq!(
        shard.try_process_one(&mut commands, &mut events),
        Ok(ShardStep::Processed(SequenceNumber(1)))
    );
    assert_eq!(
        commands.try_push(shard_command(2, FIRST.instrument_id, 2)),
        Ok(())
    );
    assert_eq!(
        shard.try_process_one(&mut commands, &mut events),
        Err(ShardError::EventBackpressured)
    );
    assert!(shard.shard.has_pending_command());
    assert_eq!(shard.gateway.expected_sequence(), SequenceNumber(2));

    assert!(events.try_pop().is_some());
    assert_eq!(
        shard.try_process_one(&mut commands, &mut events),
        Ok(ShardStep::Processed(SequenceNumber(2)))
    );
    assert!(!shard.shard.has_pending_command());
    assert_eq!(shard.gateway.expected_sequence(), SequenceNumber(3));
}

#[test]
fn pending_command_retries_before_the_next_queued_command() {
    let mut commands = BoundedQueue::<Command, 2>::try_new().expect("command queue");
    let mut events = BoundedQueue::<EventBatch<6>, 1>::try_new().expect("event queue");
    let mut shard = Worker::<2, 1>::try_new(FIRST, two_account_gateway(FIRST.instrument_id))
        .expect("shard");

    commands
        .try_push(shard_command(1, FIRST.instrument_id, 1))
        .expect("seed command");
    assert_eq!(
        shard.try_process_one(&mut commands, &mut events),
        Ok(ShardStep::Processed(SequenceNumber(1)))
    );

    commands
        .try_push(shard_command(2, FIRST.instrument_id, 2))
        .expect("command A");
    commands
        .try_push(shard_command(3, FIRST.instrument_id, 3))
        .expect("command B");
    for _ in 0..2 {
        assert_eq!(
            shard.try_process_one(&mut commands, &mut events),
            Err(ShardError::EventBackpressured)
        );
        assert!(shard.shard.has_pending_command());
        assert_eq!(shard.gateway.expected_sequence(), SequenceNumber(2));
    }

    assert!(events.try_pop().is_some());
    assert_eq!(
        shard.try_process_one(&mut commands, &mut events),
        Ok(ShardStep::Processed(SequenceNumber(2)))
    );
    let command_a = events.try_pop().expect("command A events");
    assert_eq!(command_a.len(), 2);
    assert!(command_a.as_slice().iter().all(|event| match event {
        Event::Accepted(event) => event.id.command_sequence == SequenceNumber(2),
        Event::TopOfBook(event) => event.id.command_sequence == SequenceNumber(2),
        _ => false,
    }));
    assert!(events.try_pop().is_none());

    assert_eq!(
        shard.try_process_one(&mut commands, &mut events),
        Ok(ShardStep::Processed(SequenceNumber(3)))
    );
    let command_b = events.try_pop().expect("command B events");
    assert_eq!(command_b.len(), 2);
    assert!(command_b.as_slice().iter().all(|event| match event {
        Event::Accepted(event) => event.id.command_sequence == SequenceNumber(3),
        Event::TopOfBook(event) => event.id.command_sequence == SequenceNumber(3),
        _ => false,
    }));
    assert!(events.try_pop().is_none());
    assert!(!shard.shard.has_pending_command());
    assert_eq!(shard.gateway.expected_sequence(), SequenceNumber(4));
    assert_eq!(
        shard.try_process_one(&mut commands, &mut events),
        Ok(ShardStep::Idle)
    );
}

#[test]
fn saturated_shard_does_not_block_the_other_shard() {
    let mut router = Router::<1, 1>::new(
        RouteTable::try_new([FIRST, SECOND]).expect("routes"),
        queues(),
        queues(),
    );

    let blocked = shard_command(1, FIRST.instrument_id, 1);
    assert_eq!(router.route_command(blocked), Ok(ShardId(0)));
    assert_eq!(
        router.route_command(shard_command(2, FIRST.instrument_id, 2)),
        Err(RouterError::CommandBackpressured(ShardId(0)))
    );

    for sequence in 1..=32 {
        let command = shard_command(sequence, SECOND.instrument_id, sequence);
        assert_eq!(router.route_command(command), Ok(ShardId(1)));
        assert_eq!(router.lane(ShardId(1)).0.try_pop(), Some(command));
    }
    assert_eq!(router.lane(ShardId(0)).0.try_pop(), Some(blocked));
    assert_eq!(router.lane(ShardId(0)).0.try_pop(), None);
    assert_eq!(router.lane(ShardId(1)).0.try_pop(), None);
}

#[test]
fn shard_constructor_rejects_instrument_mismatch() {
    let result =
        Worker::<1, 1>::try_new(FIRST, two_account_gateway(SECOND.instrument_id)).map(|_| ());
    assert!(matches!(
        result,
        Err(ShardConfigError::InstrumentMismatch {
            route: InstrumentId(11),
            gateway: InstrumentId(22),
        })
    ));
}

#[test]
fn misrouted_and_unparsed_commands_are_refused() {
    let mut commands = BoundedQueue::<Command, 2>::try_new().expect("command queue");
    let mut events = BoundedQueue::<EventBatch<6>, 1>::try_new().expect("event queue");
    let mut shard = Worker::<2, 1>::try_new(FIRST, two_account_gateway(FIRST.instrument_id))
        .expect("shard");
    assert_eq!(shard.shard.route(), FIRST);
    commands
        .try_push(shard_command(1, SECOND.instrument_id, 1))
        .expect("misrouted command");
    commands
        .try_push(shard_command(2, FIRST.instrument_id, 9))
        .expect("early command");
    assert_eq!(
        shard.try_process_one(&mut commands, &mut events),
        Err(ShardError::Misrouted {
            expected: FIRST.instrument_id,
            received: SECOND.instrument_id,
        })
    );
    assert!(!shard.shard.has_pending_command());
    assert_eq!(
        shard.try_process_one(&mut commands, &mut events),
        Err(ShardError::Engine(EventEngineError::Gateway(
            GatewayError::Sequence {
                expected: SequenceNumber(1),
                received: SequenceNumber(9),
            }
        )))
    );
    assert!(!shard.shard.has_pending_command());
    assert!(events.try_pop().is_none());
    assert!(matches!(
        MatchingShard::<4, 5, 1, 1>::try_new(FIRST, FIRST.instrument_id).map(|_| ()),
        Err(ShardConfigError::Events(
            EventEngineConfigError::BatchTooSmall
        ))
    ));

    let mut router = Router::<1, 1>::new(
        RouteTable::try_new([FIRST, SECOND]).expect("routes"),
        queues(),
        queues(),
    );
    assert_eq!(
        router.route_frame(parse(&[9])),
        Err(RouterError::Parse(ParseError { code: 1 }))
    );
    assert_eq!(router.lane(ShardId(0)).0.try_pop(), None);
}

type Desk16 = Gateway<2, 16, 4, 4>;
type Builder = EngineBuilder<2, 16, 4, 4, 4>;
const INSTRUMENT: InstrumentId = InstrumentId(7);

fn limits() -> RiskLimits {
    RiskLimits {
        max_quantity: Quantity(100),
        max_notional: 100_000,
        max_abs_position: Quantity(1_000),
        max_open_orders: 16,
        minimum_price: PriceTicks(1),
        maximum_price: PriceTicks(1_000),
    }
}

fn builder() -> (Builder, RiskEngine<2, 16>) {
    Builder::new(INSTRUMENT, &[(AccountId(1), limits())]).expect("builder")
}

fn order(sequence: u64, quantity: u64) -> NewOrder {
    NewOrder {
        order_id: OrderId(sequence),
        account_id: AccountId(1),
        instrument_id: INSTRUMENT,
        price: PriceTicks(100),
        quantity: Quantity(quantity),
        sequence: SequenceNumber(sequence),
        side: Side::Buy,
        time_in_force: TimeInForce::Gtc,
    }
}

fn unknown_cancel(sequence: u64) -> Command {
    Command::CancelOrder(CancelOrder {
        order_id: OrderId(sequence),
        account_id: AccountId(1),
        instrument_id: INSTRUMENT,
        sequence: SequenceNumber(sequence),
    })
}

#[derive(Default)]
struct Sink {
    bytes: Vec<u8>,
    flushes: usize,
    fail_write: bool,
    fail_flush: bool,
}

impl DurableSink for Sink {
    fn write(&mut self, bytes: &[u8]) -> Result<usize, StorageError> {
        if self.fail_write {
            return Err(StorageError::of(StorageErrorKind::Other));
        }
        let count = bytes.len().min(7);
        self.bytes.extend_from_slice(&bytes[..count]);
        Ok(count)
    }

    fn flush(&mut self) -> Result<(), StorageError> {
        if self.fail_flush {
            return Err(StorageError::of(StorageErrorKind::Other));
        }
        self.flushes += 1;
        Ok(())
    }
}

/// An engine with its gateway and its storage.
struct Desk<const EVENTS: usize> {
    gateway: Desk16,
    engine: Engine<4, 6, EVENTS>,
    storage: EngineStorage<6, EVENTS>,
}

impl<const EVENTS: usize> Desk<EVENTS> {
    fn open() -> (Self, JournalReader) {
        let (builder, risk) = builder();
        Self::build(builder, Gateway::new(risk, INSTRUMENT))
    }

    fn build(builder: Builder, gateway: Desk16) -> (Self, JournalReader) {
        let mut storage = EngineStorage::try_new().expect("storage");
        let EngineParts { engine, journal } = builder
            .build(&mut storage, gateway.expected_sequence())
            .expect("parts");
        (
            Desk {
                gateway,
                engine,
                storage,
            },
            journal,
        )
    }

    fn restore(state: &GatewayState<4, 4>) -> (Self, JournalReader) {
        let gateway = Gateway::from_state(state);
        let builder = Builder::restore(INSTRUMENT, Ok(gateway.instrument)).expect("restore");
        Self::build(builder, gateway)
    }

    fn check(&self, sequence: SequenceNumber) -> GatewayCheck {
        GatewayCheck {
            expected: self.gateway.expected_sequence(),
            sequence: self.gateway.check_sequence(sequence),
        }
    }

    fn apply(&mut self, admitted: AdmittedCommand) -> Result<(), EngineError> {
        let before = self.gateway.top();
        let mut reports = ReportBuffer::new();
        let result = self.gateway.execute(admitted.command(), &mut reports);
        let after = self.gateway.top();
        self.engine.apply_command(
            &mut self.storage,
            admitted,
            before,
            after,
            &reports,
            result,
        )
    }

    fn process_command(&mut self, command: Command) -> Result<(), EngineError> {
        let check = self.check(command.sequence());
        let admitted = self.engine.admit_command(
            &mut self.storage,
            command,
            check,
            &frame_of(command),
        )?;
        self.apply(admitted)
    }

    fn process_frame(&mut self, frame: &[u8]) -> Result<(), EngineError> {
        let parsed = parse(frame);
        let check = match parsed {
            Ok(command) => self.check(command.sequence()),
            Err(_) => self.check(self.gateway.expected_sequence()),
        };
        let admitted = self
            .engine
            .admit_frame(&mut self.storage, parsed, check, frame)?;
        self.apply(admitted)
    }

    fn try_pop(&mut self) -> Option<EventBatch<6>> {
        self.storage.events.try_pop()
    }

    fn health(&self) -> Health {
        self.engine
            .health(&self.storage, self.gateway.expected_sequence())
    }

    fn checkpoint(&self) -> Result<u64, CheckpointError> {
        self.engine
            .checkpoint(&self.storage, self.gateway.expected_sequence())
    }
}

#[test]
fn configuration_rejects_invalid_accounts_capacities_and_reused_storage() {
    assert!(matches!(
        Builder::new(INSTRUMENT, &[(AccountId(1), limits()); 2]).map(|_| ()),
        Err(BuildError::Registration(
            RegistrationError::DuplicateAccount
        ))
    ));
    assert!(matches!(
        EngineBuilder::<0, 16, 4, 4, 4>::new(INSTRUMENT, &[]).map(|_| ()),
        Err(BuildError::ZeroCapacity)
    ));
    let mut invalid = limits();
    invalid.max_quantity = Quantity(0);
    assert!(matches!(
        Builder::new(INSTRUMENT, &[(AccountId(1), invalid)]).map(|_| ()),
        Err(BuildError::Registration(RegistrationError::InvalidLimits))
    ));
    assert!(matches!(
        EngineStorage::<6, 3>::try_new().map(|_| ()),
        Err(QueueConfigError::CapacityNotPowerOfTwo)
    ));
    let mut short = EngineStorage::<5, 2>::try_new().expect("storage");
    assert!(matches!(
        builder()
            .0
            .build(&mut short, SequenceNumber(1))
            .map(|_| ()),
        Err(BuildError::Events(_))
    ));
    let mut storage = EngineStorage::<6, 2>::try_new().expect("storage");
    drop(
        builder()
            .0
            .build(&mut storage, SequenceNumber(1))
            .map(|_| ())
            .expect("parts"),
    );
    assert!(matches!(
        builder()
            .0
            .build(&mut storage, SequenceNumber(1))
            .map(|_| ()),
        Err(BuildError::StorageAlreadyUsed)
    ));
}

#[test]
fn frame_sequence_and_instrument_refusals_consume_nothing() {
    let (mut desk, journal) = Desk::<2>::open();
    let mut worker = PersistenceWorker::<_, 2>::new(
        journal,
        Sink::default(),
        FlushPolicy::OnShutdown,
        &mut desk.storage.journal,
    )
    .expect("worker");
    assert!(matches!(
        desk.process_frame(&[]),
        Err(EngineError::Parse(_))
    ));
    assert!(matches!(
        desk.process_command(Command::NewOrder(order(2, 1))),
        Err(EngineError::Admission(EventEngineError::Gateway(
            GatewayError::Sequence { .. }
        )))
    ));
    let mut wrong = order(1, 1);
    wrong.instrument_id = InstrumentId(8);
    assert_eq!(
        desk.process_command(Command::NewOrder(wrong)),
        Err(EngineError::UnknownInstrument(InstrumentId(8)))
    );
    assert_eq!(desk.gateway.expected_sequence(), SequenceNumber(1));
    assert!(desk.try_pop().is_none());
    assert_eq!(
        worker
            .drain_batch(&mut desk.storage.journal)
            .expect("empty"),
        0
    );
    desk.process_frame(&frame_of(Command::NewOrder(order(1, 2))))
        .expect("frame");
    assert!(desk.try_pop().is_some());
    desk.engine.stop_admission(&mut desk.storage);
    worker
        .shutdown(&mut desk.storage.journal)
        .expect("shutdown");
    let sink = worker
        .into_sink(&mut desk.storage.journal)
        .map_err(|_| ())
        .expect("sink");
    assert_eq!(sink.bytes.len(), RECORD_SIZE);
    let record = JournalRecord::decode(sink.bytes.as_slice().try_into().expect("record size"))
        .expect("record");
    assert_eq!(record.sequence(), SequenceNumber(1));
    assert_eq!(
        record.slice(),
        Some(frame_of(Command::NewOrder(order(1, 2))).as_slice())
    );
}

#[test]
fn event_pressure_and_journal_pressure_leave_one_retry() {
    let (mut desk, journal) = Desk::<2>::open();
    let mut worker = PersistenceWorker::<_, 1>::new(
        journal,
        Sink::default(),
        FlushPolicy::OnShutdown,
        &mut desk.storage.journal,
    )
    .expect("worker");
    for sequence in 1..=2 {
        desk.process_command(unknown_cancel(sequence))
            .expect("rejection");
    }
    assert_eq!(
        desk.process_command(unknown_cancel(3)),
        Err(EngineError::Admission(EventEngineError::Backpressured))
    );
    assert_eq!(desk.gateway.expected_sequence(), SequenceNumber(3));
    for sequence in 1..=2 {
        let batch = desk.try_pop().expect("batch");
        assert!(
            matches!(batch.as_slice().first(), Some(Event::Rejected(rejected)) if rejected.id.command_sequence.0 == sequence)
        );
    }
    let capacity = u64::try_from(RING_CAPACITY).expect("capacity");
    for sequence in 3..=capacity {
        desk.process_command(unknown_cancel(sequence))
            .expect("rejection");
        assert!(desk.try_pop().is_some());
    }
    let pending = unknown_cancel(capacity + 1);
    assert_eq!(
        desk.process_command(pending),
        Err(EngineError::Journal(JournalError::Saturated))
    );
    assert_eq!(
        desk.gateway.expected_sequence(),
        SequenceNumber(capacity + 1)
    );
    assert!(desk.try_pop().is_none());
    assert_eq!(
        worker
            .drain_batch(&mut desk.storage.journal)
            .expect("reclaim"),
        1
    );
    desk.process_command(pending).expect("retry");
    assert!(desk.try_pop().is_some());
    assert!(desk.try_pop().is_none());
    desk.engine.stop_admission(&mut desk.storage);
    worker
        .shutdown(&mut desk.storage.journal)
        .expect("shutdown");
    let sink = worker
        .into_sink(&mut desk.storage.journal)
        .map_err(|_| ())
        .expect("sink");
    assert_eq!(sink.bytes.len(), (RING_CAPACITY + 1) * RECORD_SIZE);
    for (index, bytes) in sink.bytes.chunks_exact(RECORD_SIZE).enumerate() {
        let sequence = u64::try_from(index).expect("index") + 1;
        let record = JournalRecord::decode(bytes.try_into().expect("record size")).expect("record");
        let command = parse(record.slice().expect("payload")).expect("wire");
        assert_eq!(record.sequence(), SequenceNumber(sequence));
        assert_eq!(command, unknown_cancel(sequence));
    }
}

#[test]
fn worker_failure_and_abandonment_close_admission() {
    for fault in 0..3 {
        let (mut desk, journal) = Desk::<2>::open();
        desk.process_command(Command::NewOrder(order(1, 1)))
            .expect("first");
        desk.try_pop().expect("first event");
        let mut worker = PersistenceWorker::<_, 1>::new(
            journal,
            Sink {
                fail_write: fault == 0,
                fail_flush: fault == 1,
                ..Sink::default()
            },
            FlushPolicy::EveryBatch,
            &mut desk.storage.journal,
        )
        .expect("worker");
        if fault < 2 {
            assert!(matches!(
                worker.drain_batch(&mut desk.storage.journal),
                Err(PersistError::Io(_))
            ));
        }
        worker.abandon(&mut desk.storage.journal);
        assert_eq!(desk.health().state, EngineState::Failed);
        assert_eq!(
            desk.process_command(Command::NewOrder(order(2, 1))),
            Err(EngineError::PersistenceFailed)
        );
        assert_eq!(
            desk.process_command(Command::NewOrder(order(2, 1))),
            Err(EngineError::Failed)
        );
        assert_eq!(desk.gateway.expected_sequence(), SequenceNumber(2));
        assert!(desk.health().journal.producer_closed);
        assert!(desk.try_pop().is_none());
        assert!(matches!(desk.checkpoint(), Err(CheckpointError::Failed)));
    }
}

#[test]
fn shutdown_snapshot_and_restart_preserve_the_next_sequence() {
    let (mut desk, journal) = Desk::<4>::open();
    let initial = desk.gateway.export_state();
    let mut worker = PersistenceWorker::<_, 2>::new(
        journal,
        Sink::default(),
        FlushPolicy::OnShutdown,
        &mut desk.storage.journal,
    )
    .expect("worker");
    assert!(matches!(
        desk.checkpoint(),
        Err(CheckpointError::AdmissionOpen)
    ));
    assert!(matches!(
        worker.shutdown(&mut desk.storage.journal),
        Err(PersistError::ProducerOpen)
    ));
    desk.process_command(Command::NewOrder(order(1, 4)))
        .expect("new");
    desk.process_command(Command::ReplaceOrder(ReplaceOrder {
        order_id: OrderId(1),
        account_id: AccountId(1),
        instrument_id: INSTRUMENT,
        sequence: SequenceNumber(2),
        price: PriceTicks(100),
        quantity: Quantity(2),
    }))
    .expect("replace");
    desk.process_command(Command::NewOrder(order(3, 101)))
        .expect("business rejection");
    assert_eq!(
        worker
            .drain_batch(&mut desk.storage.journal)
            .expect("write"),
        2
    );
    assert_eq!(desk.health().journal.next_durable_sequence, 1);
    desk.engine.stop_admission(&mut desk.storage);
    desk.engine.stop_admission(&mut desk.storage);
    assert_eq!(desk.health().state, EngineState::Stopping);
    assert_eq!(
        desk.process_command(unknown_cancel(4)),
        Err(EngineError::Stopped)
    );
    assert!(matches!(
        desk.checkpoint(),
        Err(CheckpointError::PersistencePending)
    ));
    worker
        .shutdown(&mut desk.storage.journal)
        .expect("shutdown");
    worker
        .shutdown(&mut desk.storage.journal)
        .expect("idempotent shutdown");
    assert_eq!(desk.health().state, EngineState::Stopped);
    assert_eq!(desk.checkpoint(), Ok(3));
    let snapshot = desk.gateway.export_state();
    let restored = Desk16::from_state(&snapshot);
    assert_eq!(restored.expected_sequence(), SequenceNumber(4));
    assert_eq!(
        restored
            .top()
            .bid
            .expect("bid")
            .aggregate_quantity,
        2
    );
    let mut seen = 0;
    while desk.try_pop().is_some() {
        seen += 1;
    }
    assert_eq!(seen, 3);
    let sink = worker
        .into_sink(&mut desk.storage.journal)
        .map_err(|_| ())
        .expect("sink");
    assert_eq!(sink.flushes, 1);
    assert!(matches!(
        Builder::restore(InstrumentId(8), Ok(restored.instrument)),
        Err(BuildError::InstrumentMismatch)
    ));
    assert!(matches!(
        Builder::restore(INSTRUMENT, Err(RestoreError { code: 3 })),
        Err(BuildError::Recovery(RestoreError { code: 3 }))
    ));
    assert_restart(&snapshot);
    let mut replayed = Desk16::from_state(&initial);
    for bytes in sink.bytes.chunks_exact(RECORD_SIZE) {
        let record = JournalRecord::decode(bytes.try_into().expect("record size")).expect("record");
        let command = parse(record.slice().expect("payload")).expect("wire");
        let _ = replayed.execute(command, &mut ReportBuffer::<4>::new());
    }
    assert_eq!(replayed.export_state(), snapshot);
    assert_restart(&replayed.export_state());
}

fn assert_restart(snapshot: &GatewayState<4, 4>) {
    let (mut desk, journal) = Desk::<2>::restore(snapshot);
    let mut resumed = PersistenceWorker::<_, 1>::new(
        journal,
        Sink::default(),
        FlushPolicy::OnShutdown,
        &mut desk.storage.journal,
    )
    .expect("worker");
    assert_eq!(desk.gateway.expected_sequence(), SequenceNumber(4));
    desk.process_command(Command::CancelOrder(CancelOrder {
        order_id: OrderId(1),
        account_id: AccountId(1),
        instrument_id: INSTRUMENT,
        sequence: SequenceNumber(4),
    }))
    .expect("cancel restored order");
    assert!(matches!(
        desk.try_pop().expect("event").as_slice().first(),
        Some(Event::Cancelled(_))
    ));
    let Desk {
        engine,
        mut storage,
        ..
    } = desk;
    engine.retire(&mut storage);
    resumed
        .shutdown(&mut storage.journal)
        .expect("drop closed producer");
    let sink = resumed
        .into_sink(&mut storage.journal)
        .map_err(|_| ())
        .expect("sink");
    assert_eq!(
        JournalRecord::decode(sink.bytes.as_slice().try_into().expect("record size"))
            .expect("record")
            .sequence(),
        SequenceNumber(4)
    );
}

#[test]
fn sequence_exhaustion_stops_without_journaling() {
    let mut state = Desk16::new(builder().1, INSTRUMENT).export_state();
    state.expected = SequenceNumber(u64::MAX);
    let (mut desk, journal) = Desk::<2>::restore(&state);
    let mut worker = PersistenceWorker::<_, 1>::new(
        journal,
        Sink::default(),
        FlushPolicy::OnShutdown,
        &mut desk.storage.journal,
    )
    .expect("worker");
    assert_eq!(
        desk.process_command(unknown_cancel(u64::MAX)),
        Err(EngineError::Admission(EventEngineError::Gateway(
            GatewayError::RiskState(RejectReason::ArithmeticOverflow)
        )))
    );
    assert_eq!(desk.health().state, EngineState::Failed);
    assert!(desk.try_pop().is_none());
    worker
        .shutdown(&mut desk.storage.journal)
        .expect("empty shutdown");
    assert!(worker
        .into_sink(&mut desk.storage.journal)
        .map_err(|_| ())
        .expect("sink")
        .bytes
        .is_empty());
}

#[test]
fn separate_workers_drain_the_last_command_after_close() {
    const COMMANDS: u64 = 4_096;
    let (mut desk, journal) = Desk::<2>::open();
    let mut worker = PersistenceWorker::<_, 7>::new(
        journal,
        Sink::default(),
        FlushPolicy::EveryBatch,
        &mut desk.storage.journal,
    )
    .expect("worker");
    let mut sequence = 1;
    let mut expected = 1;
    let mut turn = 0_u64;
    while sequence <= COMMANDS || expected <= COMMANDS {
        turn += 1;
        if sequence <= COMMANDS {
            match desk.process_command(unknown_cancel(sequence)) {
                Ok(()) => sequence += 1,
                Err(
                    EngineError::Admission(EventEngineError::Backpressured)
                    | EngineError::Journal(JournalError::Saturated),
                ) => {}
                Err(error) => panic!("admission failed: {error:?}"),
            }
            if sequence > COMMANDS {
                desk.engine.stop_admission(&mut desk.storage);
            }
        }
        if turn % 3 == 0 {
            while let Some(batch) = desk.try_pop() {
                assert_eq!(batch.len(), 1);
                assert!(
                    matches!(batch.as_slice().first(), Some(Event::Rejected(rejected))
                    if rejected.id.command_sequence.0 == expected)
                );
                expected += 1;
            }
        }
        if turn % 5 == 0 {
            worker
                .drain_batch(&mut desk.storage.journal)
                .expect("batch");
        }
    }
    assert!(desk.try_pop().is_none());
    worker
        .shutdown(&mut desk.storage.journal)
        .expect("shutdown");
    let sink = worker
        .into_sink(&mut desk.storage.journal)
        .map_err(|_| ())
        .expect("sink");
    assert_eq!(
        sink.bytes.len(),
        usize::try_from(COMMANDS).expect("commands") * RECORD_SIZE
    );
    assert_eq!(desk.health().state, EngineState::Stopped);
    assert_eq!(desk.health().journal.next_durable_sequence, COMMANDS + 1);
    assert_eq!(desk.checkpoint(), Ok(COMMANDS));
}

#[test]
fn a_gateway_fault_after_journaling_closes_the_engine() {
    let (mut desk, _journal) = Desk::<2>::open();
    let check = desk.check(SequenceNumber(1));
    let admitted = desk
        .engine
        .admit_command(
            &mut desk.storage,
            unknown_cancel(1),
            check,
            &frame_of(unknown_cancel(1)),
        )
        .expect("admission");
    let top = desk.gateway.top();
    let fault = GatewayError::RiskState(RejectReason::ArithmeticOverflow);
    assert_eq!(
        desk.engine.apply_command(
            &mut desk.storage,
            admitted,
            top,
            top,
            &ReportBuffer::new(),
            Err(fault),
        ),
        Err(EngineError::Apply(EventEngineError::Gateway(fault)))
    );
    assert_eq!(desk.health().state, EngineState::Failed);
    assert_eq!(desk.checkpoint(), Err(CheckpointError::Failed));
    assert_eq!(
        desk.process_command(unknown_cancel(1)),
        Err(EngineError::Failed)
    );
}

#[test]
fn journal_and_gateway_out_of_step_close_the_engine() {
    let (mut desk, _journal) = Desk::<2>::open();
    desk.gateway.expected = SequenceNumber(5);
    assert_eq!(
        desk.process_command(unknown_cancel(5)),
        Err(EngineError::SequenceInvariant)
    );
    assert_eq!(desk.health().state, EngineState::Failed);
    assert!(desk.try_pop().is_none());
}

#[test]
fn oversized_frame_is_not_applied() {
    let (mut desk, _journal) = Desk::<2>::open();
    let check = desk.check(SequenceNumber(1));
    assert!(matches!(
        desk.engine
            .admit_command(&mut desk.storage, unknown_cancel(1), check, &[0; 47]),
        Err(EngineError::Journal(JournalError::PayloadTooLarge { len: 47 }))
    ));
    assert_eq!(desk.gateway.expected_sequence(), SequenceNumber(1));
    assert!(desk.try_pop().is_none());
}
