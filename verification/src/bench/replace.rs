//! Replace cells: book mutation cost and risk adjustment cost, measured
//! separately on pre-seeded fixtures.

use vstd::prelude::*;

use crate::bench::book::{book_base, fan_fixture, makers, push_book_record};
use crate::bench::cells::{
    extended, folded, lemma_extended_none, lemma_extended_one, summed, Cell,
};
use crate::bench::clock::{time_samples, warm_up, Workload};
use crate::bench::record::{
    appended, params_of, push_latency_record, BenchRecord, BenchView, Extra, ExtraView,
};
use crate::bench::shapes::{asks_only, bench_order, fan, lemma_absent, unused};
use crate::book::model::has_level;
use crate::book::order_book::OrderBook;
use crate::risk::engine::RiskEngine;
use crate::risk::model::{notional, RiskView};
use crate::risk::{AccountRiskState, ReservationRiskState, RiskLimits};
use crate::types::{
    AccountId, InstrumentId, OrderId, PriceTicks, Quantity, RejectReason, ReplaceOrder,
    SequenceNumber, Side, TimeInForce,
};

verus! {

/// Untimed replacements before sampling starts.
pub const REPLACE_WARMUP: u64 = 32;

/// The number of the first maker.
pub const FIRST_MAKER: u64 = 1_000_000;

/// What a refused replacement adds to the checksum.
pub const UNKNOWN_CHECKSUM: u64 = 0x9e;

/// A replacement, and whether it names an order that does not rest.
#[derive(Clone, Copy, Debug, PartialEq, Eq, Structural)]
pub struct Amendment {
    pub price: i64,
    pub quantity: u64,
    pub unknown: bool,
}

impl Amendment {
    /// The replacement of a cell. Its label says whether the order is unknown.
    pub open spec fn of(scenario: Seq<char>, price: i64, quantity: u64) -> Amendment {
        Amendment { price, quantity, unknown: scenario == "replace_reject_unknown"@ }
    }

    /// The book can do what the replacement asks for, or does not know the order.
    pub open spec fn fits(self) -> bool {
        self.unknown || self.price > 0 && self.quantity > 0
    }

    /// The request for the maker with this number.
    pub open spec fn request(self, maker: u64) -> ReplaceOrder {
        ReplaceOrder {
            order_id: OrderId(
                if self.unknown {
                    (maker + 1) as u64
                } else {
                    maker
                },
            ),
            account_id: AccountId(1),
            instrument_id: InstrumentId(1),
            sequence: SequenceNumber(maker),
            price: PriceTicks(self.price),
            quantity: Quantity(self.quantity),
        }
    }

    /// What one replacement adds to the checksum.
    pub open spec fn contribution(self) -> u64 {
        if self.unknown {
            UNKNOWN_CHECKSUM
        } else {
            self.quantity
        }
    }
}

/// One maker at 100, and a replacement of it or of another.
proof fn lemma_amend(maker: u64, amendment: Amendment, levels: nat, depth: nat)
    requires
        maker < u64::MAX,
        amendment.fits(),
        asks_only(fan(100, makers(maker, 1, 10))).unique_ids(),
    ensures
        asks_only(fan(100, makers(maker, 1, 10))).replace_refusal(
            amendment.request(maker),
            levels,
            depth,
        ) == if amendment.unknown {
            Some(RejectReason::UnknownOrder)
        } else {
            None::<RejectReason>
        },
{
    let view = asks_only(fan(100, makers(maker, 1, 10)));
    let request = amendment.request(maker);
    if amendment.unknown {
        assert(unused(makers(maker, 1, 10), (maker + 1) as u64));
        lemma_absent(100, makers(maker, 1, 10), (maker + 1) as u64);
    } else {
        assert(view.rests_at(OrderId(maker), Side::Sell, 0, 0));
        let (side, i, k) = view.place(OrderId(maker));
        assert(view.rests_at(OrderId(maker), side, i, k));
        assert(has_level(view.asks, request.price) ==> request.price.0 == 100);
    }
}

/// One replacement on a fresh book, again and again.
pub struct ReplaceWork {
    amendment: Amendment,
    book: OrderBook<128, 8>,
    first: u64,
    maker: u64,
    checksum: u64,
    limit: Ghost<nat>,
}

impl ReplaceWork {
    spec fn counted(self, done: nat) -> bool {
        &&& self.first + self.limit@ + 1 <= u64::MAX
        &&& self.amendment.fits()
        &&& self.checksum == summed(self.amendment.contribution(), done)
    }
}

impl Workload for ReplaceWork {
    type Job = (Amendment, u64);

    closed spec fn job(&self) -> (Amendment, u64) {
        (self.amendment, self.first)
    }

    closed spec fn limit(&self) -> nat {
        self.limit@
    }

    closed spec fn ready(&self, done: nat) -> bool {
        &&& self.counted(done)
        &&& done <= self.limit@
        &&& self.maker == self.first + done
        &&& self.book.wf()
        &&& self.book@ == asks_only(fan(100, makers(self.maker, 1, 10)))
    }

    closed spec fn ran(&self, done: nat) -> bool {
        &&& self.counted(done + 1)
        &&& done < self.limit@
        &&& self.maker == self.first + done
    }

    fn run(&mut self, index: u64) {
        let amendment = self.amendment;
        let id: u64 = if amendment.unknown {
            self.maker + 1
        } else {
            self.maker
        };
        let request = ReplaceOrder {
            order_id: OrderId(id),
            account_id: AccountId(1),
            instrument_id: InstrumentId(1),
            sequence: SequenceNumber(self.maker),
            price: PriceTicks(amendment.price),
            quantity: Quantity(amendment.quantity),
        };
        proof {
            self.book.law_sound();
            lemma_amend(self.maker, amendment, 128, 8);
        }
        let contribution: u64 = match self.book.replace(request) {
            Ok(replaced) => replaced.new_quantity.0,
            Err(reason) => UNKNOWN_CHECKSUM,
        };
        self.checksum = self.checksum.wrapping_add(contribution);
    }

    fn restore(&mut self, index: u64) {
        self.maker = self.maker + 1;
        self.book = fan_fixture(1, 100, self.maker, 10);
    }
}

/// What a replacement cell records.
pub open spec fn replace_cell(samples: usize, scenario: Seq<char>, amendment: Amendment) -> Cell {
    Cell {
        base: book_base(
            scenario,
            seq![("tif"@, ExtraView::Text("replace"@))],
            summed(amendment.contribution(), samples as nat),
        ),
        samples: samples as nat,
        brief_rate: 0,
    }
}

/// Times one replacement on a fresh book each time.
pub fn replace_book_cell(
    samples: usize,
    scenario: &'static str,
    new_price: i64,
    new_quantity: u64,
    out: &mut Vec<BenchRecord>,
)
    requires
        FIRST_MAKER + REPLACE_WARMUP + samples + 2 <= u64::MAX,
        samples > 0 ==> Amendment::of(scenario@, new_price, new_quantity).fits(),
    ensures
        samples == 0 ==> final(out)@ == old(out)@,
        samples > 0 ==> ({
            let amendment = Amendment::of(scenario@, new_price, new_quantity);
            appended(
                old(out)@,
                final(out)@,
                replace_cell(samples, scenario@, amendment),
            )
        }),
{
    if samples == 0 {
        return;
    }
    let unknown = scenario.to_owned() == "replace_reject_unknown".to_owned();
    let amendment = Amendment { price: new_price, quantity: new_quantity, unknown };
    let mut warm = ReplaceWork {
        amendment,
        book: fan_fixture(1, 100, FIRST_MAKER, 10),
        first: FIRST_MAKER,
        maker: FIRST_MAKER,
        checksum: 0,
        limit: Ghost(REPLACE_WARMUP as nat),
    };
    warm_up(&mut warm, REPLACE_WARMUP);
    let mut work = ReplaceWork {
        amendment,
        book: warm.book,
        first: warm.maker,
        maker: warm.maker,
        checksum: 0,
        limit: Ghost(samples as nat),
    };
    let taken = time_samples(&mut work, 0, samples);
    let mut params: Vec<(&'static str, Extra)> = Vec::new();
    params.push(("tif", Extra::Text("replace")));
    assert(params_of(params@) =~= seq![("tif"@, ExtraView::Text("replace"@))]);
    push_book_record(out, scenario, params, work.checksum, taken);
}

/// The limits of the risk cell.
pub open spec fn spec_narrow() -> RiskLimits {
    RiskLimits {
        max_quantity: Quantity(16),
        max_notional: 1_000_000_000,
        max_abs_position: Quantity(1_000),
        max_open_orders: 32,
        minimum_price: PriceTicks(1),
        maximum_price: PriceTicks(10_000),
    }
}

/// The order whose reservation is adjusted.
pub const SEED_ID: u64 = 500;

/// One account with one reservation of `quantity` to sell.
pub open spec fn seeded(view: RiskView, quantity: u64) -> bool {
    &&& view.accounts.len() == 1
    &&& view.accounts[0] == (AccountRiskState {
        id: AccountId(1),
        limits: spec_narrow(),
        settled_position: 0,
        reserved_buys: 0,
        reserved_sells: quantity as u128,
        open_orders: 1,
        killed: false,
    })
    &&& view.has_order(OrderId(SEED_ID))
    &&& forall|s: int|
        view.is_order(OrderId(SEED_ID), s) ==> #[trigger] view.slots[s] == Some(
            ReservationRiskState {
                order_id: OrderId(SEED_ID),
                account_id: AccountId(1),
                side: Side::Sell,
                quantity: Quantity(quantity),
            },
        )
}

/// What the reservation is before the `index`-th adjustment.
pub open spec fn total_before(index: nat) -> u64 {
    if index % 2 == 0 {
        1
    } else {
        4
    }
}

/// What each adjustment releases.
pub open spec fn released_series() -> spec_fn(nat) -> u64 {
    |i: nat|
        if i % 2 == 0 {
            0
        } else {
            3
        }
}

/// The reservation is adjusted, up or down.
proof fn lemma_adjust(view: RiskView, from: u64, to: u64)
    requires
        seeded(view, from),
        view.sound(),
        from <= 4,
        0 < to <= 4,
    ensures
        view.adjust_refusal(
            OrderId(SEED_ID),
            AccountId(1),
            PriceTicks(100),
            Quantity(to),
        ) is None,
        view.reservation(OrderId(SEED_ID)).quantity.0 == from,
        seeded(view.adjusted(OrderId(SEED_ID), Quantity(to)), to),
{
    let id = OrderId(SEED_ID);
    let slot = view.slot_of(id);
    assert(view.is_order(id, slot));
    assert(view.is_account(AccountId(1), 0));
    assert(view.is_account(AccountId(1), view.account_index(AccountId(1))));
    assert(notional(PriceTicks(100), Quantity(to)) == 100 * to);
    let next = view.adjusted(id, Quantity(to));
    assert(next.is_order(id, slot));
    assert forall|s: int| next.is_order(id, s) implies #[trigger] next.slots[s] == Some(
        ReservationRiskState {
            order_id: id,
            account_id: AccountId(1),
            side: Side::Sell,
            quantity: Quantity(to),
        },
    ) by {
        if s != slot {
            assert(view.is_order(id, s));
            assert(view.slots[s] is Some && view.slots[slot] is Some);
        }
    }
    assert(next.accounts[0] == (AccountRiskState {
        reserved_sells: to as u128,
        ..view.accounts[0]
    }));
}

/// Adjusts one reservation up and down.
pub struct AdjustWork {
    risk: RiskEngine<2, 64>,
    checksum: u64,
}

impl Workload for AdjustWork {
    type Job = ();

    closed spec fn job(&self) -> () {
        ()
    }

    closed spec fn limit(&self) -> nat {
        u64::MAX as nat
    }

    closed spec fn ready(&self, done: nat) -> bool {
        &&& self.risk.wf()
        &&& seeded(self.risk@, total_before(done))
        &&& self.checksum == folded(0, released_series(), done)
    }

    closed spec fn ran(&self, done: nat) -> bool {
        self.ready(done + 1)
    }

    fn run(&mut self, index: u64) {
        let target: u64 = if index % 2 == 0 {
            4
        } else {
            1
        };
        proof {
            self.risk.law_sound();
            lemma_adjust(self.risk@, total_before(index as nat), target);
        }
        let adjusted = self.risk.adjust_reservation(
            OrderId(SEED_ID),
            AccountId(1),
            PriceTicks(100),
            Quantity(target),
        );
        if let Ok((released, prior)) = adjusted {
            assert(released_series()(index as nat) == released.0);
            self.checksum = self.checksum ^ released.0;
        }
    }

    fn restore(&mut self, index: u64) {
    }
}

/// A risk engine with one account and one reservation of one unit.
fn adjust_fixture() -> (risk: RiskEngine<2, 64>)
    ensures
        risk.wf(),
        seeded(risk@, 1),
{
    let mut risk: RiskEngine<2, 64> = RiskEngine::new();
    let limits = RiskLimits {
        max_quantity: Quantity(16),
        max_notional: 1_000_000_000,
        max_abs_position: Quantity(1_000),
        max_open_orders: 32,
        minimum_price: PriceTicks(1),
        maximum_price: PriceTicks(10_000),
    };
    let registered = risk.register_account(AccountId(1), limits);
    assert(registered is Ok);
    let order = bench_order(SEED_ID, 1, 100, 1, Side::Sell, TimeInForce::Gtc);
    proof {
        let view = risk@;
        risk.law_sound();
        assert(view.is_account(AccountId(1), 0));
        assert(view.is_account(AccountId(1), view.account_index(AccountId(1))));
        assert(notional(order.price, order.quantity) == 100);
    }
    let reserved = risk.check_and_reserve(order);
    assert(reserved is Ok);
    proof {
        assert(risk@.is_order(OrderId(SEED_ID), 0));
    }
    risk
}

/// What the adjustment cell records.
pub open spec fn adjust_cell(samples: usize) -> Cell {
    Cell {
        base: BenchView::blank(
            "component"@,
            "risk"@,
            "replace_risk_adjust"@,
            seq![("tif"@, ExtraView::Text("replace"@))],
            folded(0, released_series(), samples as nat),
        ),
        samples: samples as nat,
        brief_rate: 0,
    }
}

/// Times risk-only reservation adjustments at fixed totals, one and four in turn.
pub fn replace_risk_cell(samples: usize, out: &mut Vec<BenchRecord>)
    ensures
        samples == 0 ==> final(out)@ == old(out)@,
        samples > 0 ==> appended(
            old(out)@,
            final(out)@,
            adjust_cell(samples),
        ),
{
    if samples == 0 {
        return;
    }
    let mut work = AdjustWork { risk: adjust_fixture(), checksum: 0 };
    let taken = time_samples(&mut work, 0, samples);
    let mut params: Vec<(&'static str, Extra)> = Vec::new();
    params.push(("tif", Extra::Text("replace")));
    assert(params_of(params@) =~= seq![("tif"@, ExtraView::Text("replace"@))]);
    let record = BenchRecord::new(
        "component",
        "risk",
        "replace_risk_adjust",
        params,
        work.checksum,
    );
    push_latency_record(out, record, taken);
}

/// What the replace cells record.
pub open spec fn replace_suite(samples: usize) -> Seq<Cell> {
    if samples == 0 {
        Seq::empty()
    } else {
        seq![
            replace_cell(
                samples,
                "replace_reduce"@,
                Amendment { price: 100, quantity: 5, unknown: false },
            ),
            replace_cell(
                samples,
                "replace_increase"@,
                Amendment { price: 100, quantity: 12, unknown: false },
            ),
            replace_cell(
                samples,
                "replace_reprice"@,
                Amendment { price: 101, quantity: 10, unknown: false },
            ),
            replace_cell(
                samples,
                "replace_reject_unknown"@,
                Amendment { price: 99, quantity: 5, unknown: true },
            ),
            adjust_cell(samples),
        ]
    }
}

/// Times every replacement: a reduction, an increase, a new price, an unknown
/// order, and the adjustment of the reservation alone.
pub fn replace_benchmarks(samples: usize, out: &mut Vec<BenchRecord>)
    requires
        FIRST_MAKER + REPLACE_WARMUP + samples + 2 <= u64::MAX,
    ensures
        extended(old(out)@, final(out)@, replace_suite(samples)),
{
    let ghost before = out@;
    if samples == 0 {
        proof {
            lemma_extended_none(before);
        }
        return;
    }
    proof {
        reveal_strlit("replace_reduce");
        reveal_strlit("replace_increase");
        reveal_strlit("replace_reprice");
        reveal_strlit("replace_reject_unknown");
        assert("replace_reduce"@.len() == 14);
        assert("replace_increase"@.len() == 16);
        assert("replace_reprice"@.len() == 15);
        assert("replace_reject_unknown"@.len() == 22);
    }
    replace_book_cell(samples, "replace_reduce", 100, 5, out);
    let ghost first = out@;
    replace_book_cell(samples, "replace_increase", 100, 12, out);
    let ghost second = out@;
    replace_book_cell(samples, "replace_reprice", 101, 10, out);
    let ghost third = out@;
    replace_book_cell(samples, "replace_reject_unknown", 99, 5, out);
    let ghost fourth = out@;
    replace_risk_cell(samples, out);
    proof {
        let cells = replace_suite(samples);
        let none = Seq::<Cell>::empty();
        lemma_extended_none(before);
        lemma_extended_one(before, before, first, none, cells[0]);
        let one = none.push(cells[0]);
        lemma_extended_one(before, first, second, one, cells[1]);
        let two = one.push(cells[1]);
        lemma_extended_one(before, second, third, two, cells[2]);
        let three = two.push(cells[2]);
        lemma_extended_one(before, third, fourth, three, cells[3]);
        let four = three.push(cells[3]);
        lemma_extended_one(before, fourth, out@, four, cells[4]);
        assert(four.push(cells[4]) =~= cells);
    }
}

} // verus!
