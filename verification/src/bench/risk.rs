//! Cells of the risk engine.

use vstd::prelude::*;

use crate::bench::cells::{
    extended, folded, least, lemma_extended_more, lemma_extended_none, lemma_extended_one, Cell,
};
use crate::bench::clock::{time_samples, warm_up, Workload};
use crate::bench::config::SuiteConfig;
use crate::bench::record::{
    appended, params_of, push_latency_record, recorded, BenchRecord, BenchView, Extra, ExtraView,
};
use crate::risk::engine::RiskEngine;
use crate::risk::model::{account_balanced, exposure, open_count, RiskView};
use crate::risk::{AccountRiskState, ReservationRiskState, RiskLimits};
use crate::types::{
    AccountId, InstrumentId, NewOrder, OrderId, PriceTicks, Quantity, RejectReason, SequenceNumber,
    Side, TimeInForce,
};

verus! {

/// Limits that no order of a cell comes near.
pub open spec fn spec_wide() -> RiskLimits {
    RiskLimits {
        max_quantity: Quantity(100_000),
        max_notional: 1_000_000_000_000,
        max_abs_position: Quantity(1_000_000),
        max_open_orders: 4096,
        minimum_price: PriceTicks(1),
        maximum_price: PriceTicks(1_000_000),
    }
}

/// Limits that no order of a cell comes near.
pub fn wide() -> (limits: RiskLimits)
    ensures
        limits == spec_wide(),
{
    RiskLimits {
        max_quantity: Quantity(100_000),
        max_notional: 1_000_000_000_000,
        max_abs_position: Quantity(1_000_000),
        max_open_orders: 4096,
        minimum_price: PriceTicks(1),
        maximum_price: PriceTicks(1_000_000),
    }
}

/// The account that an order of a cell belongs to.
pub open spec fn owner(id: u64) -> AccountId {
    AccountId((id % 60 + 1) as u32)
}

pub open spec fn side_of(id: u64) -> Side {
    if id % 2 == 0 {
        Side::Sell
    } else {
        Side::Buy
    }
}

/// The order that a cell reserves.
pub open spec fn spec_cell_order(id: u64, quantity: u64) -> NewOrder {
    NewOrder {
        time_in_force: TimeInForce::Gtc,
        order_id: OrderId(id),
        account_id: owner(id),
        instrument_id: InstrumentId(1),
        price: PriceTicks(100),
        quantity: Quantity(quantity),
        sequence: SequenceNumber(id),
        side: side_of(id),
    }
}

/// Accounts from one on, all with wide limits, and no position beyond `moved`.
pub open spec fn staffed(accounts: Seq<AccountRiskState>, count: nat, moved: nat) -> bool {
    &&& accounts.len() == count
    &&& forall|i: int|
        0 <= i < count ==> {
            &&& (#[trigger] accounts[i]).id.0 == i + 1
            &&& accounts[i].limits == spec_wide()
            &&& !accounts[i].killed
            &&& -moved <= accounts[i].settled_position <= moved
        }
}

/// Orders one to `live` have reservations of one unit each, and no other order
/// has one. No order beyond `top` was ever seen.
pub open spec fn stocked(view: RiskView, live: nat, top: nat, moved: nat) -> bool {
    &&& !view.killed
    &&& staffed(view.accounts, 60, moved)
    &&& view.slots.len() == 1024
    &&& live <= 1024
    &&& view.free.len() == 1024 - live
    &&& live <= top
    &&& top <= u64::MAX
    &&& view.maximum_order_id == if top == 0 {
        None::<OrderId>
    } else {
        Some(OrderId(top as u64))
    }
    &&& forall|s: int|
        0 <= s < 1024 && (#[trigger] view.slots[s]) is Some ==> {
            let reservation = view.slots[s]->0;
            &&& 1 <= reservation.order_id.0 <= live
            &&& reservation.quantity.0 == 1
            &&& reservation.account_id == owner(reservation.order_id.0)
        }
    &&& forall|id: u64| 1 <= id <= live ==> #[trigger] view.has_order(OrderId(id))
}

/// Reservations of one unit add up to no more than their number.
proof fn lemma_units(slots: Seq<Option<ReservationRiskState>>, account: AccountId, side: Side)
    requires
        forall|s: int|
            0 <= s < slots.len() && (#[trigger] slots[s]) is Some ==> slots[s]->0.quantity.0 == 1,
    ensures
        exposure(slots, account, side) <= slots.len(),
        open_count(slots, account) <= slots.len(),
    decreases slots.len(),
{
    if slots.len() > 0 {
        let init = slots.drop_last();
        assert forall|s: int| 0 <= s < init.len() && (#[trigger] init[s]) is Some implies
            init[s]->0.quantity.0 == 1 by {
            assert(slots[s] is Some);
        }
        lemma_units(init, account, side);
    }
}

/// The accounts of a stocked engine are found where they were registered.
proof fn lemma_owner(view: RiskView, id: u64, live: nat, top: nat, moved: nat)
    requires
        stocked(view, live, top, moved),
        view.sound(),
    ensures
        view.has_account(owner(id)),
        view.account_index(owner(id)) == id % 60,
        view.account(owner(id)) == view.accounts[(id % 60) as int],
        view.account(owner(id)).id == owner(id),
        view.account(owner(id)).limits == spec_wide(),
        !view.account(owner(id)).killed,
        -moved <= view.account(owner(id)).settled_position <= moved,
        view.account(owner(id)).reserved_buys <= 1024,
        view.account(owner(id)).reserved_sells <= 1024,
        view.account(owner(id)).open_orders <= 1024,
{
    let at = (id % 60) as int;
    assert(view.accounts[at].id == owner(id));
    assert(view.is_account(owner(id), at));
    assert(view.is_account(owner(id), view.account_index(owner(id))));
    assert(account_balanced(view.accounts[at], view.slots));
    lemma_units(view.slots, owner(id), Side::Buy);
    lemma_units(view.slots, owner(id), Side::Sell);
}

/// The next order is reserved.
proof fn lemma_reserve(view: RiskView, next: RiskView, live: nat, moved: nat)
    requires
        stocked(view, live, live, moved),
        view.sound(),
        live < 1024,
        moved <= 2048,
        next == view.reserved(spec_cell_order((live + 1) as u64, 1)),
        forall|i: int|
            0 <= i < view.free.len() ==> (#[trigger] view.free[i]) < 1024
                && view.slots[view.free[i] as int] is None,
    ensures
        view.reserve_refusal(spec_cell_order((live + 1) as u64, 1)) is None,
        stocked(next, live + 1, live + 1, moved),
{
    let id = (live + 1) as u64;
    let order = spec_cell_order(id, 1);
    lemma_owner(view, id, live, live, moved);
    let slot = view.free[0] as int;
    assert(view.slots[slot] is None);
    assert(crate::risk::model::notional(order.price, order.quantity) == 100);
    assert(next.slots == view.slots.update(slot, next.slots[slot]));
    assert forall|other: u64| 1 <= other <= live + 1 implies #[trigger] next.has_order(
        OrderId(other),
    ) by {
        if other == id {
            assert(next.is_order(OrderId(other), slot));
        } else {
            assert(view.has_order(OrderId(other)));
            let s = choose|s: int| view.is_order(OrderId(other), s);
            assert(next.is_order(OrderId(other), s));
        }
    }
    assert(staffed(next.accounts, 60, moved));
}

/// An order beyond its quantity limit is refused.
proof fn lemma_oversize(view: RiskView, id: u64, live: nat, top: nat, moved: nat)
    requires
        stocked(view, live, top, moved),
        view.sound(),
        live < 1024,
        id > top,
    ensures
        view.reserve_refusal(spec_cell_order(id, 100_001)) == Some(RejectReason::QuantityLimit),
{
    lemma_owner(view, id, live, top, moved);
}

/// A live order is found, with one unit and its owner.
proof fn lemma_found(view: RiskView, id: u64, live: nat, top: nat, moved: nat)
    requires
        stocked(view, live, top, moved),
        1 <= id <= live,
    ensures
        view.has_order(OrderId(id)),
        view.is_order(OrderId(id), view.slot_of(OrderId(id))),
        view.reservation(OrderId(id)).quantity.0 == 1,
        view.reservation(OrderId(id)).account_id == owner(id),
        view.reservation(OrderId(id)).order_id == OrderId(id),
        view.owner_refusal(OrderId(id), owner(id)) is None,
{
    assert(view.has_order(OrderId(id)));
    let s = choose|s: int| view.is_order(OrderId(id), s);
    assert(view.is_order(OrderId(id), view.slot_of(OrderId(id))));
}

/// The last live order is closed, and none other.
proof fn lemma_close(
    view: RiskView,
    next: RiskView,
    filled: Quantity,
    live: nat,
    top: nat,
    moved: nat,
)
    requires
        stocked(view, live, top, moved),
        view.sound(),
        0 < live,
        moved <= 2048,
        filled.0 <= 1,
        next == view.settled(OrderId(live as u64), filled),
    ensures
        view.settle_refusal(OrderId(live as u64), filled) is None,
        stocked(next, (live - 1) as nat, top, moved + filled.0 as nat),
{
    let id = live as u64;
    lemma_found(view, id, live, top, moved);
    lemma_owner(view, id, live, top, moved);
    let slot = view.slot_of(OrderId(id));
    let account = view.account(owner(id));
    assert(account_balanced(view.accounts[(id % 60) as int], view.slots));
    assert(next.slots == view.slots.update(slot, None));
    assert forall|other: u64| 1 <= other <= live - 1 implies #[trigger] next.has_order(
        OrderId(other),
    ) by {
        assert(view.has_order(OrderId(other)));
        let s = choose|s: int| view.is_order(OrderId(other), s);
        assert(next.is_order(OrderId(other), s));
    }
    assert forall|s: int| 0 <= s < 1024 && (#[trigger] next.slots[s]) is Some implies {
        let reservation = next.slots[s]->0;
        &&& 1 <= reservation.order_id.0 <= live - 1
        &&& reservation.quantity.0 == 1
        &&& reservation.account_id == owner(reservation.order_id.0)
    } by {
        assert(view.slots[s] is Some);
        assert(view.slots[slot] is Some);
    }
    assert(staffed(next.accounts, 60, moved + filled.0 as nat));
}

/// The order that a cell reserves.
pub fn cell_order(id: u64, quantity: u64) -> (order: NewOrder)
    ensures
        order == spec_cell_order(id, quantity),
{
    let side = if id % 2 == 0 {
        Side::Sell
    } else {
        Side::Buy
    };
    NewOrder {
        time_in_force: TimeInForce::Gtc,
        order_id: OrderId(id),
        account_id: AccountId((id % 60 + 1) as u32),
        instrument_id: InstrumentId(1),
        price: PriceTicks(100),
        quantity: Quantity(quantity),
        sequence: SequenceNumber(id),
        side,
    }
}

/// One reservation attempt shared by the risk cells.
pub fn reserve_one(risk: &mut RiskEngine<64, 1024>, id: u64, quantity: u64) -> (outcome: Result<
    (),
    RejectReason,
>)
    requires
        old(risk).wf(),
    ensures
        final(risk).wf(),
        match old(risk)@.reserve_refusal(spec_cell_order(id, quantity)) {
            Some(reason) => outcome == Err::<(), _>(reason) && *final(risk) == *old(risk),
            None => outcome == Ok::<_, RejectReason>(()) && final(risk)@ == old(risk)@.reserved(
                spec_cell_order(id, quantity),
            ),
        },
{
    risk.check_and_reserve(cell_order(id, quantity))
}

/// An engine with `count` registered accounts.
pub fn account_fixture(count: u32) -> (risk: RiskEngine<64, 1024>)
    requires
        count <= 64,
    ensures
        risk.wf(),
        staffed(risk@.accounts, count as nat, 0),
        !risk@.killed,
        risk@.free.len() == 1024,
        risk@.maximum_order_id is None,
        forall|s: int| 0 <= s < 1024 ==> (#[trigger] risk@.slots[s]) is None,
{
    let mut risk: RiskEngine<64, 1024> = RiskEngine::new();
    let mut done: u32 = 0;
    while done < count
        invariant
            done <= count <= 64,
            risk.wf(),
            staffed(risk@.accounts, done as nat, 0),
            !risk@.killed,
            risk@.free.len() == 1024,
            risk@.maximum_order_id is None,
            forall|s: int| 0 <= s < 1024 ==> (#[trigger] risk@.slots[s]) is None,
        decreases count - done,
    {
        let id = AccountId(done + 1);
        assert(!risk@.has_account(id)) by {
            if risk@.has_account(id) {
                let i = choose|i: int| risk@.is_account(id, i);
                assert(risk@.accounts[i].id.0 == i + 1);
            }
        }
        let outcome = risk.register_account(id, wide());
        assert(outcome is Ok);
        done = done + 1;
    }
    risk
}

/// Engine at the stated reservation occupancy with sixty registered accounts.
pub fn risk_fixture(occupancy: u64) -> (risk: RiskEngine<64, 1024>)
    requires
        occupancy <= 1024,
    ensures
        risk.wf(),
        stocked(risk@, occupancy as nat, occupancy as nat, 0),
{
    let mut risk = account_fixture(60);
    proof {
        risk.law_sound();
    }
    let mut live: u64 = 0;
    while live < occupancy
        invariant
            live <= occupancy <= 1024,
            risk.wf(),
            stocked(risk@, live as nat, live as nat, 0),
        decreases occupancy - live,
    {
        let ghost before = risk@;
        proof {
            risk.law_sound();
            lemma_reserve(
                before,
                before.reserved(spec_cell_order((live + 1) as u64, 1)),
                live as nat,
                0,
            );
        }
        let outcome = reserve_one(&mut risk, live + 1, 1);
        assert(outcome is Ok);
        live = live + 1;
    }
    risk
}

/// What a risk cell repeats.
#[derive(Clone, Copy, Debug, PartialEq, Eq, Structural)]
pub enum RiskOp {
    /// Reserves fresh orders.
    Check,
    /// Probes live reservations without mutation.
    Lookup,
    /// Fills live reservations.
    Fill,
    /// Releases live reservations.
    Cancel,
    /// Settles live reservations with their full quantity.
    Settle,
    /// Fails the quantity limit.
    Reject,
}

impl RiskOp {
    pub open spec fn spec_name(self) -> Seq<char> {
        match self {
            RiskOp::Check => "risk_check"@,
            RiskOp::Lookup => "reservation_lookup"@,
            RiskOp::Fill => "fill"@,
            RiskOp::Cancel => "cancel"@,
            RiskOp::Settle => "settle"@,
            RiskOp::Reject => "reject"@,
        }
    }

    #[must_use]
    pub fn name(self) -> (name: &'static str)
        ensures
            name@ == self.spec_name(),
    {
        match self {
            RiskOp::Check => "risk_check",
            RiskOp::Lookup => "reservation_lookup",
            RiskOp::Fill => "fill",
            RiskOp::Cancel => "cancel",
            RiskOp::Settle => "settle",
            RiskOp::Reject => "reject",
        }
    }

    /// The operation closes reservations, from the last one down.
    pub open spec fn closes(self) -> bool {
        self == RiskOp::Fill || self == RiskOp::Cancel || self == RiskOp::Settle
    }

    /// The order that the operation is about, the `index`-th time.
    pub open spec fn order_id(self, target: u64, first: u64, index: nat) -> u64 {
        match self {
            RiskOp::Check => (first + index) as u64,
            RiskOp::Reject => (first + index) as u64,
            RiskOp::Lookup => (index % (target as nat) + 1) as u64,
            _ => (first - index) as u64,
        }
    }

    /// The orders that the operation is about.
    pub open spec fn series(self, target: u64, first: u64) -> spec_fn(nat) -> u64 {
        |i: nat| self.order_id(target, first, i)
    }

    /// How many reservations are live once the operation has run `done` times.
    pub open spec fn live(self, target: u64, first: u64, done: nat) -> int {
        if self == RiskOp::Check {
            first + done - 1
        } else if self.closes() {
            first - done
        } else {
            target as int
        }
    }
}

/// One operation on a populated engine, and the checksum of its orders.
pub struct RiskWork {
    op: RiskOp,
    risk: RiskEngine<64, 1024>,
    target: u64,
    first: u64,
    start: u64,
    checksum: u64,
    top: Ghost<nat>,
    moved: Ghost<nat>,
}

/// What a risk cell is about.
pub struct RiskJob {
    pub op: RiskOp,
    pub target: u64,
    pub first: u64,
    pub start: u64,
    pub top: nat,
    pub moved: nat,
}

impl RiskWork {
    /// The orders that the work is about.
    spec fn series(self) -> spec_fn(nat) -> u64 {
        self.op.series(self.target, self.first)
    }

    spec fn steady(self, done: nat) -> bool {
        let live = self.op.live(self.target, self.first, done);
        &&& self.risk.wf()
        &&& 0 < self.target <= 921
        &&& done <= self.limit()
        &&& 0 <= live
        &&& stocked(
            self.risk@,
            live as nat,
            if self.op == RiskOp::Check {
                live as nat
            } else {
                self.top@
            },
            self.moved@ + done,
        )
        &&& self.moved@ <= 512
        &&& self.op == RiskOp::Reject ==> self.first > self.top@
        &&& self.checksum == folded(self.start, self.series(), done)
    }
}

impl Workload for RiskWork {
    type Job = RiskJob;

    closed spec fn job(&self) -> RiskJob {
        RiskJob {
            op: self.op,
            target: self.target,
            first: self.first,
            start: self.start,
            top: self.top@,
            moved: self.moved@,
        }
    }

    closed spec fn limit(&self) -> nat {
        match self.op {
            RiskOp::Check => (1025 - self.first) as nat,
            RiskOp::Lookup => 1024,
            RiskOp::Reject => 1024,
            _ => self.first as nat,
        }
    }

    closed spec fn ready(&self, done: nat) -> bool {
        self.steady(done) && self.first <= 100_000 && (self.op == RiskOp::Check
            || self.op.closes() ==> 1 <= self.first <= 1024)
    }

    closed spec fn ran(&self, done: nat) -> bool {
        self.ready(done + 1)
    }

    fn run(&mut self, index: u64) {
        let ghost before = *self;
        let ghost moved = self.moved@ + index as nat;
        let ghost live = self.op.live(self.target, self.first, index as nat);
        proof {
            self.risk.law_sound();
        }
        match self.op {
            RiskOp::Check => {
                let id: u64 = self.first + index;
                proof {
                    lemma_reserve(
                        before.risk@,
                        before.risk@.reserved(spec_cell_order(id, 1)),
                        live as nat,
                        moved,
                    );
                }
                let outcome = reserve_one(&mut self.risk, id, 1);
                assert(outcome is Ok);
                if outcome.is_ok() {
                    self.checksum = self.checksum ^ id;
                }
                proof {
                    lemma_moved(self.risk@, live as nat + 1, live as nat + 1, moved);
                }
            },
            RiskOp::Lookup => {
                let id: u64 = index % self.target + 1;
                let found = self.risk.can_cancel(OrderId(id), AccountId((id % 60 + 1) as u32));
                proof {
                    lemma_found(before.risk@, id, live as nat, self.top@, moved);
                    assert(found is Ok);
                    lemma_moved(self.risk@, live as nat, self.top@, moved);
                }
                self.checksum = self.checksum ^ id;
            },
            RiskOp::Fill => {
                let id: u64 = self.first - index;
                proof {
                    lemma_found(before.risk@, id, live as nat, self.top@, moved);
                    lemma_close(
                        before.risk@,
                        before.risk@.settled(OrderId(id), Quantity(1)),
                        Quantity(1),
                        live as nat,
                        self.top@,
                        moved,
                    );
                }
                let outcome = self.risk.record_fill(OrderId(id), Quantity(1));
                assert(outcome is Ok);
                if outcome.is_ok() {
                    self.checksum = self.checksum ^ id;
                }
            },
            RiskOp::Cancel => {
                let id: u64 = self.first - index;
                proof {
                    lemma_found(before.risk@, id, live as nat, self.top@, moved);
                    lemma_close(
                        before.risk@,
                        before.risk@.settled(OrderId(id), Quantity(0)),
                        Quantity(0),
                        live as nat,
                        self.top@,
                        moved,
                    );
                }
                let released = self.risk.cancel_reservation(
                    OrderId(id),
                    AccountId((id % 60 + 1) as u32),
                );
                proof {
                    assert(released is Ok);
                    lemma_moved(self.risk@, (live - 1) as nat, self.top@, moved);
                }
                self.checksum = self.checksum ^ id;
            },
            RiskOp::Settle => {
                let id: u64 = self.first - index;
                proof {
                    lemma_found(before.risk@, id, live as nat, self.top@, moved);
                    lemma_close(
                        before.risk@,
                        before.risk@.settled(OrderId(id), Quantity(1)),
                        Quantity(1),
                        live as nat,
                        self.top@,
                        moved,
                    );
                }
                let settled = self.risk.settle(OrderId(id), Quantity(1));
                assert(settled is Ok);
                self.checksum = self.checksum ^ id;
            },
            RiskOp::Reject => {
                let id: u64 = self.first + index;
                proof {
                    lemma_oversize(before.risk@, id, live as nat, self.top@, moved);
                }
                let rejected = reserve_one(&mut self.risk, id, 100_001);
                proof {
                    assert(rejected == Err::<(), _>(RejectReason::QuantityLimit));
                    lemma_moved(self.risk@, live as nat, self.top@, moved);
                }
                self.checksum = self.checksum ^ id;
            },
        }
        proof {
            assert(self.series()(index as nat) == self.op.order_id(
                self.target,
                self.first,
                index as nat,
            ));
        }
    }

    fn restore(&mut self, index: u64) {
    }
}

/// A bound on the positions can be widened.
proof fn lemma_moved(view: RiskView, live: nat, top: nat, moved: nat)
    requires
        stocked(view, live, top, moved),
    ensures
        stocked(view, live, top, moved + 1),
{
}

/// Looks accounts up, and the checksum of their numbers.
pub struct AccountWork {
    risk: RiskEngine<64, 1024>,
    target: u64,
    start: u64,
    checksum: u64,
}

/// The accounts that are looked up in turn.
pub open spec fn account_series(target: u64) -> spec_fn(nat) -> u64 {
    |i: nat| (i % (target as nat) + 1) as u64
}

impl Workload for AccountWork {
    type Job = (u64, u64);

    closed spec fn job(&self) -> (u64, u64) {
        (self.target, self.start)
    }

    closed spec fn limit(&self) -> nat {
        1024
    }

    closed spec fn ready(&self, done: nat) -> bool {
        &&& self.risk.wf()
        &&& 0 < self.target <= 64
        &&& self.checksum == folded(self.start, account_series(self.target), done)
    }

    closed spec fn ran(&self, done: nat) -> bool {
        self.ready(done + 1)
    }

    fn run(&mut self, index: u64) {
        let account: u64 = index % self.target + 1;
        let snapshot = self.risk.account_snapshot(AccountId(account as u32));
        assert(account_series(self.target)(index as nat) == account);
        self.checksum = self.checksum ^ account;
    }

    fn restore(&mut self, index: u64) {
    }
}

impl RiskOp {
    /// How often the operation runs untimed.
    pub open spec fn warm(self, target: u64, config: SuiteConfig) -> nat {
        if self == RiskOp::Check {
            least(config.risk_warmup as nat, ((1024 - target) / 4) as nat)
        } else {
            config.risk_warmup as nat
        }
    }

    /// How often the operation is timed. An operation that consumes reservations
    /// is capped by their number, one that makes them by what is free.
    pub open spec fn samples(self, target: u64, config: SuiteConfig) -> nat {
        if self == RiskOp::Check {
            least(config.risk_samples as nat, (1024 - target - self.warm(target, config)) as nat)
        } else if self.closes() {
            least(config.risk_samples as nat, target as nat)
        } else {
            256
        }
    }

    /// The checksum of the orders of a cell.
    pub open spec fn checksum(self, target: u64, config: SuiteConfig) -> u64 {
        let warm = self.warm(target, config);
        let samples = self.samples(target, config);
        if self == RiskOp::Check {
            folded(0, self.series(target, (target + 1) as u64), warm + samples)
        } else if self.closes() {
            folded(0, self.series(target, (target + config.risk_warmup) as u64), warm + samples)
        } else {
            folded(
                folded(0, self.series(target, (target + 20_000) as u64), warm),
                self.series(target, (target + 30_000) as u64),
                samples,
            )
        }
    }

    /// What the cell of the operation records.
    pub open spec fn cell(self, target: u64, config: SuiteConfig) -> Cell {
        Cell {
            base: risk_base(
                self.spec_name(),
                "reservation"@,
                target,
                self.checksum(target, config),
            ),
            samples: self.samples(target, config),
            brief_rate: 0,
        }
    }
}

/// A record of a risk cell with nothing measured.
pub open spec fn risk_base(
    op: Seq<char>,
    index: Seq<char>,
    occupancy: u64,
    checksum: u64,
) -> BenchView {
    BenchView::blank(
        "component"@,
        "risk"@,
        op,
        seq![
            ("index"@, ExtraView::Text(index)),
            ("occupancy"@, ExtraView::U64(occupancy)),
            (
                "engine_bytes"@,
                ExtraView::U64(vstd::layout::size_of::<RiskEngine<64, 1024>>() as u64),
            ),
        ],
        checksum,
    )
}

/// What an account cell records.
pub open spec fn account_cell(target: u64, config: SuiteConfig) -> Cell {
    let series = account_series(target);
    Cell {
        base: risk_base(
            "account_lookup"@,
            "account"@,
            target,
            folded(folded(0, series, config.risk_warmup as nat), series, 256),
        ),
        samples: 256,
        brief_rate: 0,
    }
}

pub fn push_risk_record(
    out: &mut Vec<BenchRecord>,
    op: &'static str,
    index: &'static str,
    occupancy: u64,
    checksum: u64,
    samples: Vec<u64>,
)
    requires
        samples@.len() > 0,
    ensures
        recorded(
            old(out)@,
            final(out)@,
            risk_base(op@, index@, occupancy, checksum),
            samples@,
            0,
        ),
{
    let bytes: usize = core::mem::size_of::<RiskEngine<64, 1024>>();
    let mut params: Vec<(&'static str, Extra)> = Vec::new();
    params.push(("index", Extra::Text(index)));
    params.push(("occupancy", Extra::U64(occupancy)));
    params.push(("engine_bytes", Extra::U64(bytes as u64)));
    assert(params_of(params@) =~= risk_base(op@, index@, occupancy, checksum).params);
    let record = BenchRecord::new("component", "risk", op, params, checksum);
    push_latency_record(out, record, samples);
}

/// The configuration leaves room for the warm-up of every occupancy.
pub open spec fn risk_config_fits(config: SuiteConfig) -> bool {
    &&& 0 < config.risk_samples <= 256
    &&& config.risk_warmup <= 103
}

/// Times one operation at one occupancy.
fn risk_cell(config: SuiteConfig, op: RiskOp, target: u64, out: &mut Vec<BenchRecord>)
    requires
        risk_config_fits(config),
        0 < target <= 921,
    ensures
        appended(
            old(out)@,
            final(out)@,
            op.cell(target, config),
        ),
{
    match op {
        RiskOp::Check => {
            let budget: u64 = 1024 - target;
            let warm: u64 = if config.risk_warmup < budget / 4 {
                config.risk_warmup
            } else {
                budget / 4
            };
            let spare: u64 = budget - warm;
            let measured: usize = if (config.risk_samples as u64) < spare {
                config.risk_samples
            } else {
                spare as usize
            };
            let mut work = RiskWork {
                op,
                risk: risk_fixture(target),
                target,
                first: target + 1,
                start: 0,
                checksum: 0,
                top: Ghost(target as nat),
                moved: Ghost(0),
            };
            warm_up(&mut work, warm);
            let samples = time_samples(&mut work, warm, measured);
            push_risk_record(out, op.name(), "reservation", target, work.checksum, samples);
        },
        RiskOp::Lookup | RiskOp::Reject => {
            let mut work = RiskWork {
                op,
                risk: risk_fixture(target),
                target,
                first: target + 20_000,
                start: 0,
                checksum: 0,
                top: Ghost(target as nat),
                moved: Ghost(0),
            };
            warm_up(&mut work, config.risk_warmup);
            let mut timed = RiskWork {
                op,
                risk: work.risk,
                target,
                first: target + 30_000,
                start: work.checksum,
                checksum: work.checksum,
                top: Ghost(target as nat),
                moved: Ghost(config.risk_warmup as nat),
            };
            let samples = time_samples(&mut timed, 0, 256);
            push_risk_record(out, op.name(), "reservation", target, timed.checksum, samples);
        },
        RiskOp::Fill | RiskOp::Cancel | RiskOp::Settle => {
            let live: usize = if config.risk_samples < target as usize {
                config.risk_samples
            } else {
                target as usize
            };
            let first: u64 = target + config.risk_warmup;
            let mut work = RiskWork {
                op,
                risk: risk_fixture(first),
                target,
                first,
                start: 0,
                checksum: 0,
                top: Ghost(first as nat),
                moved: Ghost(0),
            };
            warm_up(&mut work, config.risk_warmup);
            let samples = time_samples(&mut work, config.risk_warmup, live);
            push_risk_record(out, op.name(), "reservation", target, work.checksum, samples);
        },
    }
}

/// Times account lookups at one occupancy of the account index.
fn account_cell_benchmark(config: SuiteConfig, target: u32, out: &mut Vec<BenchRecord>)
    requires
        risk_config_fits(config),
        0 < target <= 64,
    ensures
        appended(
            old(out)@,
            final(out)@,
            account_cell(target as u64, config),
        ),
{
    let mut work = AccountWork {
        risk: account_fixture(target),
        target: target as u64,
        start: 0,
        checksum: 0,
    };
    warm_up(&mut work, config.risk_warmup);
    let mut timed = AccountWork {
        risk: work.risk,
        target: target as u64,
        start: work.checksum,
        checksum: work.checksum,
    };
    let samples = time_samples(&mut timed, 0, 256);
    push_risk_record(out, "account_lookup", "account", target as u64, timed.checksum, samples);
}

/// What the reservation cells at one occupancy record.
pub open spec fn reservation_cells(target: u64, config: SuiteConfig) -> Seq<Cell> {
    seq![
        RiskOp::Check.cell(target, config),
        RiskOp::Lookup.cell(target, config),
        RiskOp::Fill.cell(target, config),
        RiskOp::Cancel.cell(target, config),
        RiskOp::Settle.cell(target, config),
        RiskOp::Reject.cell(target, config),
    ]
}

/// What the risk cells record: every operation at a tenth, a half and nine
/// tenths of the reservations, then account lookups at the same shares.
pub open spec fn risk_cells(config: SuiteConfig) -> Seq<Cell> {
    reservation_cells(102, config) + reservation_cells(512, config) + reservation_cells(
        921,
        config,
    ) + seq![account_cell(6, config), account_cell(32, config), account_cell(57, config)]
}

fn reservation_benchmark(config: SuiteConfig, target: u64, out: &mut Vec<BenchRecord>)
    requires
        risk_config_fits(config),
        0 < target <= 921,
    ensures
        extended(old(out)@, final(out)@, reservation_cells(target, config)),
{
    let ghost before = out@;
    let ops: [RiskOp; 6] = [
        RiskOp::Check,
        RiskOp::Lookup,
        RiskOp::Fill,
        RiskOp::Cancel,
        RiskOp::Settle,
        RiskOp::Reject,
    ];
    let ghost cells = reservation_cells(target, config);
    let mut index: usize = 0;
    proof {
        lemma_extended_none(before);
        assert(cells.take(0) =~= Seq::<Cell>::empty());
    }
    while index < 6
        invariant
            index <= 6,
            risk_config_fits(config),
            0 < target <= 921,
            ops@ == seq![
                RiskOp::Check,
                RiskOp::Lookup,
                RiskOp::Fill,
                RiskOp::Cancel,
                RiskOp::Settle,
                RiskOp::Reject,
            ],
            cells == reservation_cells(target, config),
            extended(before, out@, cells.take(index as int)),
        decreases 6 - index,
    {
        let ghost middle = out@;
        risk_cell(config, ops[index], target, out);
        proof {
            assert(ops@[index as int].cell(target, config) == cells[index as int]);
            lemma_extended_one(
                before,
                middle,
                out@,
                cells.take(index as int),
                cells[index as int],
            );
            assert(cells.take(index + 1) =~= cells.take(index as int).push(cells[index as int]));
        }
        index = index + 1;
    }
    assert(cells.take(6) =~= cells);
}

/// Times every risk operation. Reservation occupancy is swept first, at a tenth,
/// a half and nine tenths of the capacity. Every operation runs against a freshly
/// populated engine, so destructive operations measure live reservations. Account
/// lookups follow at the same shares of the account index.
pub fn risk_benchmark(config: SuiteConfig, out: &mut Vec<BenchRecord>)
    requires
        risk_config_fits(config),
    ensures
        extended(old(out)@, final(out)@, risk_cells(config)),
{
    let ghost before = out@;
    reservation_benchmark(config, 102, out);
    let ghost first = out@;
    reservation_benchmark(config, 512, out);
    let ghost second = out@;
    reservation_benchmark(config, 921, out);
    let ghost third = out@;
    let ghost cells = reservation_cells(102, config) + reservation_cells(512, config);
    proof {
        lemma_extended_more(
            before,
            first,
            second,
            reservation_cells(102, config),
            reservation_cells(512, config),
        );
        lemma_extended_more(before, second, third, cells, reservation_cells(921, config));
    }
    let ghost cells = cells + reservation_cells(921, config);
    account_cell_benchmark(config, 6, out);
    let ghost fourth = out@;
    account_cell_benchmark(config, 32, out);
    let ghost fifth = out@;
    account_cell_benchmark(config, 57, out);
    proof {
        lemma_extended_one(before, third, fourth, cells, account_cell(6, config));
        let cells = cells.push(account_cell(6, config));
        lemma_extended_one(before, fourth, fifth, cells, account_cell(32, config));
        let cells = cells.push(account_cell(32, config));
        lemma_extended_one(before, fifth, out@, cells, account_cell(57, config));
        assert(cells.push(account_cell(57, config)) =~= risk_cells(config));
    }
}

} // verus!
