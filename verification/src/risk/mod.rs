//! Deterministic, fixed-capacity pre-trade risk.

pub mod digest_laws;
pub mod engine;
pub mod laws;
pub mod limit_laws;
pub mod model;
pub mod pool;
pub mod probe_index;
pub mod restore_laws;
pub mod state;

use vstd::prelude::*;

use crate::types::{AccountId, OrderId, PriceTicks, Quantity, Side};

verus! {

#[derive(Clone, Copy, Debug, PartialEq, Eq, Structural)]
pub struct RiskLimits {
    pub max_quantity: Quantity,
    pub max_notional: u128,
    pub max_abs_position: Quantity,
    pub max_open_orders: u32,
    pub minimum_price: PriceTicks,
    pub maximum_price: PriceTicks,
}

#[derive(Clone, Copy, Debug, PartialEq, Eq, Structural)]
pub enum RegistrationError {
    DuplicateAccount,
    AccountCapacity,
    InvalidLimits,
}

#[derive(Clone, Copy, Debug, PartialEq, Eq, Structural)]
pub struct AccountRiskState {
    pub id: AccountId,
    pub limits: RiskLimits,
    pub settled_position: i128,
    pub reserved_buys: u128,
    pub reserved_sells: u128,
    pub open_orders: u32,
    pub killed: bool,
}

#[derive(Clone, Copy, Debug, PartialEq, Eq, Structural)]
pub struct ReservationRiskState {
    pub order_id: OrderId,
    pub account_id: AccountId,
    pub side: Side,
    pub quantity: Quantity,
}

/// Canonical state: accounts by identifier, reservations by order.
#[derive(Clone, Debug, PartialEq, Eq)]
pub struct RiskEngineState {
    pub accounts: Vec<AccountRiskState>,
    pub reservations: Vec<ReservationRiskState>,
    pub maximum_order_id: Option<OrderId>,
    pub killed: bool,
}

#[derive(Clone, Copy, Debug, PartialEq, Eq, Structural)]
pub enum RiskStateError {
    AccountCapacity,
    ReservationCapacity,
    DuplicateAccount,
    DuplicateOrder,
    NonCanonical,
    InvalidLimits,
    UnknownAccount,
    InvalidWatermark,
    ExposureMismatch,
    OpenOrderMismatch,
    PositionLimit,
    ArithmeticOverflow,
    InvalidQuantity,
}

} // verus!
