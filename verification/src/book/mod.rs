//! Single-instrument, fixed-capacity price-time order book.

pub mod digest_laws;
pub mod laws;
pub mod level;
pub mod model;
pub mod order_book;
pub mod order_index;
pub mod queue_laws;
pub mod restore_laws;
pub mod side;
pub mod sorted;
pub mod state;
pub mod state_laws;

use vstd::prelude::*;

use crate::types::{AccountId, OrderId, PriceTicks, Quantity};

verus! {

#[derive(Clone, Copy, Debug, PartialEq, Eq, Structural)]
pub struct CancelledOrder {
    pub order_id: OrderId,
    pub account_id: AccountId,
    pub quantity: Quantity,
}

/// Outcome of an owned replace.
#[derive(Clone, Copy, Debug, PartialEq, Eq, Structural)]
pub struct ReplacedOrder {
    pub order_id: OrderId,
    pub account_id: AccountId,
    pub old_quantity: Quantity,
    pub new_quantity: Quantity,
    pub price: PriceTicks,
    /// False only for same-price quantity reductions, which keep priority.
    pub priority_lost: bool,
}

#[derive(Clone, Copy, Debug, PartialEq, Eq, Structural)]
pub struct TopLevel {
    pub price: PriceTicks,
    pub aggregate_quantity: u128,
    pub order_count: usize,
}

} // verus!
