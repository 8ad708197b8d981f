//! Identifiers, commands and results shared by every component.

use vstd::prelude::*;

verus! {

#[derive(Clone, Copy, Debug, PartialEq, Eq, Structural)]
pub struct OrderId(pub u64);

#[derive(Clone, Copy, Debug, PartialEq, Eq, Structural)]
pub struct AccountId(pub u32);

#[derive(Clone, Copy, Debug, PartialEq, Eq, Structural)]
pub struct InstrumentId(pub u32);

#[derive(Clone, Copy, Debug, PartialEq, Eq, Structural)]
pub struct PriceTicks(pub i64);

#[derive(Clone, Copy, Debug, PartialEq, Eq, Structural)]
pub struct Quantity(pub u64);

#[derive(Clone, Copy, Debug, PartialEq, Eq, Structural)]
pub struct SequenceNumber(pub u64);

#[derive(Clone, Copy, Debug, PartialEq, Eq, Structural)]
pub enum Side {
    Buy,
    Sell,
}

impl Side {
    /// The side that a taker on this side trades against.
    pub open spec fn opposing(self) -> Side {
        match self {
            Side::Buy => Side::Sell,
            Side::Sell => Side::Buy,
        }
    }

    pub fn opposite(self) -> (other: Side)
        ensures
            other == self.opposing(),
    {
        match self {
            Side::Buy => Side::Sell,
            Side::Sell => Side::Buy,
        }
    }
}

#[derive(Clone, Copy, Debug, PartialEq, Eq, Structural)]
pub enum TimeInForce {
    /// Trades what crosses and rests the remainder.
    Gtc,
    /// Trades what crosses and discards the remainder.
    Ioc,
    /// Trades in full at once or not at all.
    Fok,
    /// Rests in full or not at all.
    PostOnly,
}

#[derive(Clone, Copy, Debug, PartialEq, Eq, Structural)]
pub enum OrderState {
    Accepted,
    PartiallyFilled,
    Filled,
}

#[derive(Clone, Copy, Debug, PartialEq, Eq, Structural)]
pub struct NewOrder {
    pub order_id: OrderId,
    pub account_id: AccountId,
    pub instrument_id: InstrumentId,
    pub price: PriceTicks,
    pub quantity: Quantity,
    pub sequence: SequenceNumber,
    pub side: Side,
    pub time_in_force: TimeInForce,
}

#[derive(Clone, Copy, Debug, PartialEq, Eq, Structural)]
pub struct CancelOrder {
    pub order_id: OrderId,
    pub account_id: AccountId,
    pub instrument_id: InstrumentId,
    pub sequence: SequenceNumber,
}

#[derive(Clone, Copy, Debug, PartialEq, Eq, Structural)]
pub struct ReplaceOrder {
    pub order_id: OrderId,
    pub account_id: AccountId,
    pub instrument_id: InstrumentId,
    pub sequence: SequenceNumber,
    pub price: PriceTicks,
    pub quantity: Quantity,
}

#[derive(Clone, Copy, Debug, PartialEq, Eq, Structural)]
pub enum Command {
    NewOrder(NewOrder),
    CancelOrder(CancelOrder),
    ReplaceOrder(ReplaceOrder),
}

impl Command {
    pub open spec fn spec_sequence(self) -> SequenceNumber {
        match self {
            Command::NewOrder(command) => command.sequence,
            Command::CancelOrder(command) => command.sequence,
            Command::ReplaceOrder(command) => command.sequence,
        }
    }

    pub open spec fn spec_instrument_id(self) -> InstrumentId {
        match self {
            Command::NewOrder(command) => command.instrument_id,
            Command::CancelOrder(command) => command.instrument_id,
            Command::ReplaceOrder(command) => command.instrument_id,
        }
    }

    pub fn sequence(&self) -> (sequence: SequenceNumber)
        ensures
            sequence == self.spec_sequence(),
    {
        match self {
            Command::NewOrder(command) => command.sequence,
            Command::CancelOrder(command) => command.sequence,
            Command::ReplaceOrder(command) => command.sequence,
        }
    }

    pub fn instrument_id(&self) -> (instrument: InstrumentId)
        ensures
            instrument == self.spec_instrument_id(),
    {
        match self {
            Command::NewOrder(command) => command.instrument_id,
            Command::CancelOrder(command) => command.instrument_id,
            Command::ReplaceOrder(command) => command.instrument_id,
        }
    }
}

#[derive(Clone, Copy, Debug, PartialEq, Eq, Structural)]
pub enum RejectReason {
    InvalidInstrument,
    InvalidPrice,
    InvalidQuantity,
    DuplicateOrderId,
    PostOnlyWouldTrade,
    ReportCapacity,
    InsufficientLiquidity,
    PriceLevelOrderCapacity,
    PriceLevelCapacity,
    OrderCapacity,
    UnknownOrder,
    NotOrderOwner,
    ReplaceWouldCross,
    UnknownAccount,
    KillSwitch,
    QuantityLimit,
    PriceCollar,
    NotionalLimit,
    PositionLimit,
    OpenOrderLimit,
    ArithmeticOverflow,
}

/// One fill of a taker against one resting maker.
#[derive(Clone, Copy, Debug, PartialEq, Eq, Structural)]
pub struct ExecutionReport {
    pub maker_order_id: OrderId,
    pub taker_order_id: OrderId,
    pub instrument_id: InstrumentId,
    pub price: PriceTicks,
    pub quantity: Quantity,
    pub sequence: SequenceNumber,
}

#[derive(Clone, Copy, Debug, PartialEq, Eq, Structural)]
pub struct MatchSummary {
    pub state: OrderState,
    pub filled_quantity: Quantity,
    pub resting_quantity: Quantity,
    pub discarded_quantity: Quantity,
    pub report_count: usize,
}

/// Execution reports in emission order, at most `N` of them.
#[derive(Debug)]
pub struct ReportBuffer<const N: usize> {
    reports: Vec<ExecutionReport>,
}

impl<const N: usize> View for ReportBuffer<N> {
    type V = Seq<ExecutionReport>;

    closed spec fn view(&self) -> Seq<ExecutionReport> {
        self.reports@
    }
}

impl<const N: usize> ReportBuffer<N> {
    #[verifier::type_invariant]
    spec fn bounded(self) -> bool {
        self.reports@.len() <= N
    }

    pub fn new() -> (buffer: Self)
        ensures
            buffer@ == Seq::<ExecutionReport>::empty(),
    {
        ReportBuffer { reports: Vec::new() }
    }

    pub fn len(&self) -> (count: usize)
        ensures
            count == self@.len(),
            count <= N,
    {
        proof {
            use_type_invariant(self);
        }
        self.reports.len()
    }

    pub fn is_empty(&self) -> (empty: bool)
        ensures
            empty == (self@.len() == 0),
    {
        self.reports.len() == 0
    }

    pub fn remaining_capacity(&self) -> (free: usize)
        ensures
            free == N - self@.len(),
    {
        proof {
            use_type_invariant(self);
        }
        N - self.reports.len()
    }

    /// The reports in emission order.
    pub fn as_slice(&self) -> (reports: &[ExecutionReport])
        ensures
            reports@ == self@,
    {
        self.reports.as_slice()
    }

    /// The report at `index`, in emission order.
    pub fn get(&self, index: usize) -> (report: Option<ExecutionReport>)
        ensures
            report == if index < self@.len() {
                Some(self@[index as int])
            } else {
                None
            },
    {
        if index < self.reports.len() {
            Some(self.reports[index])
        } else {
            None
        }
    }

    /// Appends a report, or hands it back when the buffer is full.
    pub fn push(&mut self, report: ExecutionReport) -> (outcome: Result<(), ExecutionReport>)
        ensures
            outcome is Ok <==> old(self)@.len() < N,
            outcome is Ok ==> final(self)@ == old(self)@.push(report),
            outcome is Err ==> final(self)@ == old(self)@ && outcome == Err::<(), _>(report),
    {
        proof {
            use_type_invariant(&*self);
        }
        if self.reports.len() >= N {
            return Err(report);
        }
        let mut reports = Vec::new();
        std::mem::swap(&mut reports, &mut self.reports);
        reports.push(report);
        self.reports = reports;
        Ok(())
    }

    pub fn clear(&mut self)
        ensures
            final(self)@ == Seq::<ExecutionReport>::empty(),
    {
        self.reports = Vec::new();
    }
}

} // verus!
