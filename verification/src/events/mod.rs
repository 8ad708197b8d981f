//! The events that one command gives rise to.

pub mod batch;
pub mod engine;
pub mod laws;

use vstd::prelude::*;

use crate::book::{CancelledOrder, ReplacedOrder, TopLevel};
use crate::types::{
    AccountId, Command, InstrumentId, MatchSummary, OrderId, OrderState, PriceTicks, Quantity,
    RejectReason, SequenceNumber,
};

verus! {

#[derive(Clone, Copy, Debug, PartialEq, Eq, Structural)]
pub struct EventId {
    pub command_sequence: SequenceNumber,
    pub ordinal: u16,
}

#[derive(Clone, Copy, Debug, PartialEq, Eq, Structural)]
pub enum CommandKind {
    NewOrder,
    Cancel,
    Replace,
}

#[derive(Clone, Copy, Debug, PartialEq, Eq, Structural)]
pub struct Accepted {
    pub id: EventId,
    pub order_id: OrderId,
    pub account_id: AccountId,
    pub instrument_id: InstrumentId,
    pub state: OrderState,
    pub filled_quantity: Quantity,
    pub resting_quantity: Quantity,
    pub discarded_quantity: Quantity,
}

#[derive(Clone, Copy, Debug, PartialEq, Eq, Structural)]
pub struct Rejected {
    pub id: EventId,
    pub command: CommandKind,
    pub order_id: OrderId,
    pub account_id: AccountId,
    pub instrument_id: InstrumentId,
    pub reason: RejectReason,
}

#[derive(Clone, Copy, Debug, PartialEq, Eq, Structural)]
pub struct Trade {
    pub id: EventId,
    pub maker_order_id: OrderId,
    pub taker_order_id: OrderId,
    pub instrument_id: InstrumentId,
    pub price: PriceTicks,
    pub quantity: Quantity,
}

#[derive(Clone, Copy, Debug, PartialEq, Eq, Structural)]
pub struct Cancelled {
    pub id: EventId,
    pub order_id: OrderId,
    pub account_id: AccountId,
    pub instrument_id: InstrumentId,
    pub quantity: Quantity,
}

#[derive(Clone, Copy, Debug, PartialEq, Eq, Structural)]
pub struct Replaced {
    pub id: EventId,
    pub order_id: OrderId,
    pub account_id: AccountId,
    pub instrument_id: InstrumentId,
    pub old_quantity: Quantity,
    pub new_quantity: Quantity,
    pub price: PriceTicks,
    pub priority_lost: bool,
}

#[derive(Clone, Copy, Debug, PartialEq, Eq, Structural)]
pub struct TopOfBook {
    pub id: EventId,
    pub instrument_id: InstrumentId,
    pub bid: Option<TopLevel>,
    pub ask: Option<TopLevel>,
}

#[derive(Clone, Copy, Debug, PartialEq, Eq, Structural)]
pub enum Event {
    Accepted(Accepted),
    Rejected(Rejected),
    Trade(Trade),
    Cancelled(Cancelled),
    Replaced(Replaced),
    TopOfBook(TopOfBook),
}

impl Event {
    pub open spec fn spec_id(self) -> EventId {
        match self {
            Event::Accepted(event) => event.id,
            Event::Rejected(event) => event.id,
            Event::Trade(event) => event.id,
            Event::Cancelled(event) => event.id,
            Event::Replaced(event) => event.id,
            Event::TopOfBook(event) => event.id,
        }
    }

    #[must_use]
    pub fn id(&self) -> (id: EventId)
        ensures
            id == self.spec_id(),
    {
        match self {
            Event::Accepted(event) => event.id,
            Event::Rejected(event) => event.id,
            Event::Trade(event) => event.id,
            Event::Cancelled(event) => event.id,
            Event::Replaced(event) => event.id,
            Event::TopOfBook(event) => event.id,
        }
    }
}

#[derive(Clone, Copy, Debug, PartialEq, Eq, Structural)]
pub struct BatchFull;

#[derive(Clone, Copy, Debug, PartialEq, Eq, Structural)]
pub enum EventEngineConfigError {
    BatchTooSmall,
    TooManyEvents,
}

/// What the wire decoder found wrong with a frame, by the decoder's own code.
#[derive(Clone, Copy, Debug, PartialEq, Eq, Structural)]
pub struct ParseError {
    pub code: u16,
}

/// Why a gateway refuses a command. `Risk` and `Book` are business rejections:
/// the command is consumed. The others are not.
#[derive(Clone, Copy, Debug, PartialEq, Eq, Structural)]
pub enum GatewayError {
    Parse(ParseError),
    Sequence { expected: SequenceNumber, received: SequenceNumber },
    Risk(RejectReason),
    Book(RejectReason),
    RiskState(RejectReason),
}

/// What a gateway did with a command that it accepted.
#[derive(Clone, Copy, Debug, PartialEq, Eq, Structural)]
pub enum GatewayOutcome {
    NewOrder(MatchSummary),
    Cancelled(CancelledOrder),
    Replaced(ReplacedOrder),
}

#[derive(Clone, Copy, Debug, PartialEq, Eq, Structural)]
pub enum EventEngineError {
    Backpressured,
    Gateway(GatewayError),
    EventCapacityInvariant,
    PublicationInvariant,
}

/// What a command is about.
#[derive(Clone, Copy, Debug, PartialEq, Eq, Structural)]
pub struct CommandIdentity {
    pub kind: CommandKind,
    pub order_id: OrderId,
    pub account_id: AccountId,
    pub instrument_id: InstrumentId,
}

impl CommandIdentity {
    pub open spec fn spec_from_command(command: Command) -> CommandIdentity {
        match command {
            Command::NewOrder(order) => CommandIdentity {
                kind: CommandKind::NewOrder,
                order_id: order.order_id,
                account_id: order.account_id,
                instrument_id: order.instrument_id,
            },
            Command::CancelOrder(cancel) => CommandIdentity {
                kind: CommandKind::Cancel,
                order_id: cancel.order_id,
                account_id: cancel.account_id,
                instrument_id: cancel.instrument_id,
            },
            Command::ReplaceOrder(replace) => CommandIdentity {
                kind: CommandKind::Replace,
                order_id: replace.order_id,
                account_id: replace.account_id,
                instrument_id: replace.instrument_id,
            },
        }
    }

    #[must_use]
    pub fn from_command(command: Command) -> (identity: Self)
        ensures
            identity == CommandIdentity::spec_from_command(command),
    {
        match command {
            Command::NewOrder(order) => CommandIdentity {
                kind: CommandKind::NewOrder,
                order_id: order.order_id,
                account_id: order.account_id,
                instrument_id: order.instrument_id,
            },
            Command::CancelOrder(cancel) => CommandIdentity {
                kind: CommandKind::Cancel,
                order_id: cancel.order_id,
                account_id: cancel.account_id,
                instrument_id: cancel.instrument_id,
            },
            Command::ReplaceOrder(replace) => CommandIdentity {
                kind: CommandKind::Replace,
                order_id: replace.order_id,
                account_id: replace.account_id,
                instrument_id: replace.instrument_id,
            },
        }
    }
}

} // verus!
