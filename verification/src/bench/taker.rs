//! One taker order, again and again, against a fan of asks.

use vstd::prelude::*;

use crate::bench::cells::{constant, folded};
use crate::bench::clock::Workload;
use crate::bench::shapes::{
    asks_only, bench_cancel, bench_order, fan, lemma_absent, lemma_below, lemma_cancel_bid,
    lemma_front, lemma_part, lemma_rest_first, lemma_rest_last, lemma_sweep, priced, resting,
    spec_bench_order, unused, with_bid,
};
use crate::book::model::{has_level, lemma_rank, rested, BookView, LevelView, OrderView};
use crate::book::order_book::OrderBook;
use crate::types::{NewOrder, PriceTicks, RejectReason, ReportBuffer, Side, TimeInForce};

verus! {

/// What becomes of the taker.
#[derive(Clone, Copy, Debug, PartialEq, Eq, Structural)]
pub enum Fate {
    /// It trades nothing and does not rest.
    Miss,
    /// It fills from a front order that is never used up.
    Part,
    /// It takes the front order, which is put back untimed.
    Whole,
    /// It takes every order, and they are put back untimed.
    Sweep,
    /// It is refused and changes nothing.
    Refused,
    /// It rests as a bid, which is cancelled untimed.
    Bid,
    /// It takes the only order and the rest of it rests as a bid. The bid is
    /// cancelled and the order put back untimed.
    PartBid,
}

/// What of a taker goes into the checksum.
#[derive(Clone, Copy, Debug, PartialEq, Eq, Structural)]
pub enum Share {
    Nothing,
    Filled,
    Rested,
    Constant(u64),
}

/// A taker, and the asks that it meets.
#[derive(Clone, Copy, Debug, PartialEq, Eq, Structural)]
pub struct Probe {
    pub fate: Fate,
    pub price: i64,
    pub quantity: u64,
    pub time_in_force: TimeInForce,
    pub share: Share,
    pub maker_price: i64,
    pub maker_quantity: u64,
}

impl Probe {
    /// What the taker fills each time.
    pub open spec fn filled(self) -> u64 {
        match self.fate {
            Fate::Part | Fate::Sweep => self.quantity,
            Fate::Whole | Fate::PartBid => self.maker_quantity,
            _ => 0,
        }
    }

    /// What one taker adds to the checksum.
    pub open spec fn contribution(self) -> u64 {
        match self.share {
            Share::Nothing => 0,
            Share::Filled => self.filled(),
            Share::Rested => self.quantity,
            Share::Constant(value) => value,
        }
    }

    /// What the takers add to the checksum.
    pub open spec fn series(self) -> spec_fn(nat) -> u64 {
        constant(self.contribution())
    }

    /// How many asks are put back each time.
    pub open spec fn restocks(self) -> nat {
        match self.fate {
            Fate::Whole | Fate::PartBid => 1,
            Fate::Sweep => self.quantity as nat,
            _ => 0,
        }
    }

    /// The taker meets its fate at these asks, where it has met it `done` times of
    /// `limit` before.
    pub open spec fn meets(
        self,
        orders: Seq<OrderView>,
        done: nat,
        limit: nat,
        reports: nat,
    ) -> bool {
        &&& self.quantity > 0
        &&& self.price > 0
        &&& self.share == Share::Rested ==> self.fate == Fate::Bid
        &&& match self.fate {
            Fate::Miss => {
                &&& self.price < self.maker_price
                &&& self.time_in_force == TimeInForce::Ioc
            },
            Fate::Part => {
                &&& orders.len() > 0
                &&& self.price >= self.maker_price
                &&& orders[0].quantity.0 == self.maker_quantity - done * self.quantity
                &&& limit * self.quantity < self.maker_quantity
                &&& self.time_in_force != TimeInForce::PostOnly
                &&& reports >= 1
            },
            Fate::Whole => {
                &&& orders.len() > 0
                &&& self.price >= self.maker_price
                &&& orders[0].quantity.0 == self.maker_quantity
                &&& 0 < self.maker_quantity
                &&& self.maker_quantity == self.quantity || self.maker_quantity < self.quantity
                    && orders.len() == 1 && self.time_in_force == TimeInForce::Ioc
                &&& self.time_in_force != TimeInForce::PostOnly
                &&& reports >= 1
            },
            Fate::Sweep => {
                &&& orders.len() == self.quantity
                &&& forall|k: int| 0 <= k < orders.len() ==> (#[trigger] orders[k]).quantity.0 == 1
                &&& self.price >= self.maker_price + self.quantity
                &&& self.maker_quantity == 1
                &&& self.time_in_force != TimeInForce::PostOnly
                &&& reports >= self.quantity
            },
            Fate::Refused => self.refusal(orders, reports) is Some,
            Fate::Bid => {
                &&& self.price < self.maker_price
                &&& self.time_in_force == TimeInForce::Gtc || self.time_in_force
                    == TimeInForce::PostOnly
            },
            Fate::PartBid => {
                &&& orders.len() == 1
                &&& self.price >= self.maker_price
                &&& orders[0].quantity.0 == self.maker_quantity
                &&& 0 < self.maker_quantity < self.quantity
                &&& self.time_in_force == TimeInForce::Gtc
                &&& reports >= 1
            },
        }
    }

    /// Why a taker is refused at these asks.
    pub open spec fn refusal(self, orders: Seq<OrderView>, reports: nat) -> Option<RejectReason> {
        if orders.len() == 0 || self.price < self.maker_price {
            None
        } else if self.time_in_force == TimeInForce::PostOnly {
            Some(RejectReason::PostOnlyWouldTrade)
        } else if self.time_in_force == TimeInForce::Fok && orders.len() == 1 && 0
            < orders[0].quantity.0 < self.quantity && reports >= 1 {
            Some(RejectReason::InsufficientLiquidity)
        } else if self.time_in_force == TimeInForce::Gtc && orders.len() == self.quantity && (
        forall|k: int| 0 <= k < orders.len() ==> (#[trigger] orders[k]).quantity.0 == 1)
            && self.price >= self.maker_price + self.quantity && reports < self.quantity {
            Some(RejectReason::ReportCapacity)
        } else {
            None
        }
    }

    /// The taker with this number.
    pub open spec fn taker(self, id: u64) -> NewOrder {
        spec_bench_order(id, 2, self.price, self.quantity, Side::Buy, self.time_in_force)
    }

    /// The asks that an accepted taker leaves.
    pub open spec fn left(self, orders: Seq<OrderView>) -> Seq<OrderView> {
        match self.fate {
            Fate::Part => orders.update(
                0,
                OrderView {
                    quantity: crate::types::Quantity(
                        (orders[0].quantity.0 - self.quantity) as u64,
                    ),
                    ..orders[0]
                },
            ),
            Fate::Whole | Fate::PartBid => orders.skip(1),
            Fate::Sweep => Seq::empty(),
            _ => orders,
        }
    }

    /// The price of the first ask that an accepted taker leaves.
    pub open spec fn left_price(self) -> int {
        match self.fate {
            Fate::Whole | Fate::PartBid => self.maker_price + 1,
            _ => self.maker_price as int,
        }
    }

    /// The book that the taker leaves.
    pub open spec fn after(self, orders: Seq<OrderView>, id: u64) -> BookView {
        let asks = fan(self.left_price(), self.left(orders));
        match self.fate {
            Fate::Bid => with_bid(asks, PriceTicks(self.price), resting(id, 2, self.quantity)),
            Fate::PartBid => with_bid(
                asks,
                PriceTicks(self.price),
                resting(id, 2, (self.quantity - self.maker_quantity) as u64),
            ),
            _ => asks_only(asks),
        }
    }
}

/// A bid on a side without any.
proof fn lemma_first_bid(price: PriceTicks, bid: OrderView)
    ensures
        rested(Seq::<LevelView>::empty(), Side::Buy, price, bid) == seq![
            LevelView { price, orders: seq![bid] },
        ],
        !has_level(Seq::<LevelView>::empty(), price),
{
    lemma_rank(Seq::<LevelView>::empty(), Side::Buy, price, 0);
    assert(rested(Seq::<LevelView>::empty(), Side::Buy, price, bid) =~= seq![
        LevelView { price, orders: seq![bid] },
    ]);
}

/// The taker meets its fate.
pub proof fn lemma_fate(
    probe: Probe,
    orders: Seq<OrderView>,
    id: u64,
    done: nat,
    limit: nat,
    reports: nat,
    levels: nat,
    depth: nat,
)
    requires
        probe.meets(orders, done, limit, reports),
        done < limit,
        priced(probe.maker_price as int, orders.len() + 1),
        unused(orders, id),
        levels > 0,
        depth > 0,
    ensures
        ({
            let view = asks_only(fan(probe.maker_price as int, orders));
            let order = probe.taker(id);
            let refusal = view.refusal(order, reports, levels, depth);
            &&& probe.fate == Fate::Refused ==> refusal == probe.refusal(orders, reports)
            &&& probe.fate != Fate::Refused ==> {
                &&& refusal is None
                &&& view.submitted(order) == probe.after(orders, id)
                &&& view.summary(order).filled_quantity.0 == probe.filled()
                &&& probe.fate == Fate::Bid ==> view.summary(order).resting_quantity.0
                    == probe.quantity
                &&& probe.fate == Fate::Part ==> probe.left(orders)[0].quantity.0
                    == probe.maker_quantity - (done + 1) * probe.quantity
            }
        }),
{
    let price = probe.maker_price as int;
    let limit_price = PriceTicks(probe.price);
    let quantity = probe.quantity as nat;
    let view = asks_only(fan(price, orders));
    let order = probe.taker(id);
    lemma_absent(price, orders, id);
    match probe.fate {
        Fate::Miss => {
            lemma_below(price, orders, limit_price, quantity);
        },
        Fate::Part => {
            assert((done + 1) * probe.quantity <= limit * probe.quantity) by (nonlinear_arith)
                requires
                    done + 1 <= limit,
            ;
            assert((done + 1) * probe.quantity == done * probe.quantity + probe.quantity)
                by (nonlinear_arith);
            lemma_part(price, orders, limit_price, quantity);
        },
        Fate::Whole => {
            lemma_front(price, orders, limit_price, quantity);
            lemma_below(
                price + 1,
                orders.skip(1),
                limit_price,
                (quantity - probe.maker_quantity) as nat,
            );
        },
        Fate::Sweep => {
            lemma_sweep(price, orders, limit_price);
            assert(fan(price, Seq::<OrderView>::empty()) =~= Seq::<LevelView>::empty());
        },
        Fate::Refused => {
            if probe.time_in_force == TimeInForce::Fok {
                lemma_front(price, orders, limit_price, quantity);
                lemma_below(
                    price + 1,
                    orders.skip(1),
                    limit_price,
                    (quantity - orders[0].quantity.0) as nat,
                );
            } else if probe.time_in_force == TimeInForce::Gtc {
                lemma_sweep(price, orders, limit_price);
            }
        },
        Fate::Bid => {
            lemma_below(price, orders, limit_price, quantity);
            lemma_first_bid(limit_price, resting(id, 2, probe.quantity));
        },
        Fate::PartBid => {
            lemma_front(price, orders, limit_price, quantity);
            lemma_below(
                price + 1,
                orders.skip(1),
                limit_price,
                (quantity - probe.maker_quantity) as nat,
            );
            lemma_first_bid(
                limit_price,
                resting(id, 2, (probe.quantity - probe.maker_quantity) as u64),
            );
        },
    }
    if probe.fate != Fate::Refused {
        assert(view.submitted(order) =~= probe.after(orders, id));
    }
}

/// One round more stays within the rounds that there are.
proof fn lemma_rounds(done: nat, limit: nat, each: nat)
    requires
        done < limit,
    ensures
        (done + 1) * each == done * each + each,
        done * each + each <= limit * each,
{
    assert((done + 1) * each == done * each + each) by (nonlinear_arith);
    assert((done + 1) * each <= limit * each) by (nonlinear_arith)
        requires
            done + 1 <= limit,
    ;
}

/// What a taker cell is about.
pub struct TakerJob {
    pub probe: Probe,
    pub first_taker: u64,
    pub first_maker: u64,
    pub start: u64,
    pub limit: nat,
}

/// A taker again and again, the book that it meets, and the checksum.
pub struct TakerWork<const LEVELS: usize, const DEPTH: usize, const REPORTS: usize> {
    probe: Probe,
    book: OrderBook<LEVELS, DEPTH>,
    reports: ReportBuffer<REPORTS>,
    next_taker: u64,
    next_maker: u64,
    checksum: u64,
    job: Ghost<TakerJob>,
    orders: Ghost<Seq<OrderView>>,
}

impl<const LEVELS: usize, const DEPTH: usize, const REPORTS: usize> TakerWork<
    LEVELS,
    DEPTH,
    REPORTS,
> {
    /// The numbers of the asks are below the next one, and no taker has them.
    pub open spec fn apart(job: TakerJob, orders: Seq<OrderView>, next_maker: int) -> bool {
        forall|k: int|
            0 <= k < orders.len() ==> {
                &&& (#[trigger] orders[k]).id.0 < next_maker
                &&& orders[k].id.0 < job.first_taker || orders[k].id.0 >= job.first_taker
                    + job.limit
            }
    }

    /// What holds before, between and after the two parts of one round.
    spec fn steady(self, takers: nat, rounds: nat) -> bool {
        let job = self.job@;
        &&& self.probe == job.probe
        &&& LEVELS > 0
        &&& DEPTH > 0
        &&& self.book.wf()
        &&& self.next_taker == job.first_taker + takers
        &&& job.first_taker + job.limit <= u64::MAX
        &&& self.next_maker == job.first_maker + rounds * job.probe.restocks()
        &&& job.first_maker + job.limit * job.probe.restocks() <= u64::MAX
        &&& job.probe.restocks() > 0 ==> job.first_maker >= job.first_taker + job.limit
        &&& Self::apart(job, self.orders@, self.next_maker as int)
        &&& self.checksum == folded(job.start, job.probe.series(), takers)
        &&& takers <= job.limit
    }

    /// The taker has met its fate at `before` and nothing is put back yet.
    spec fn left_of(self, before: Seq<OrderView>, done: nat) -> bool {
        &&& self.steady(done + 1, done)
        &&& before.len() <= LEVELS
        &&& priced(self.probe.maker_price as int, before.len() + 1)
        &&& self.probe.meets(before, done, self.job@.limit, REPORTS as nat)
        &&& self.orders@ == self.probe.left(before)
        &&& self.book@ == if self.probe.fate == Fate::Refused {
            asks_only(fan(self.probe.maker_price as int, before))
        } else {
            self.probe.after(before, (self.next_taker - 1) as u64)
        }
        &&& self.probe.fate == Fate::Part ==> self.orders@[0].quantity.0
            == self.probe.maker_quantity - (done + 1) * self.probe.quantity
    }

    pub closed spec fn spec_checksum(&self) -> u64 {
        self.checksum
    }

    pub closed spec fn spec_next_taker(&self) -> u64 {
        self.next_taker
    }

    pub closed spec fn spec_next_maker(&self) -> u64 {
        self.next_maker
    }

    pub fn checksum(&self) -> (checksum: u64)
        ensures
            checksum == self.spec_checksum(),
    {
        self.checksum
    }

    pub fn next_taker(&self) -> (next: u64)
        ensures
            next == self.spec_next_taker(),
    {
        self.next_taker
    }

    pub fn next_maker(&self) -> (next: u64)
        ensures
            next == self.spec_next_maker(),
    {
        self.next_maker
    }

    /// What is known of the work once it has run `done` times.
    pub proof fn lemma_done(&self, done: nat)
        requires
            self.ready(done),
        ensures
            self.spec_checksum() == folded(self.job().start, self.job().probe.series(), done),
            self.spec_next_taker() == self.job().first_taker + done,
            self.spec_next_maker() == self.job().first_maker + done * self.job().probe.restocks(),
    {
    }

    /// Puts the book and the taker together.
    pub(crate) fn new(
        probe: Probe,
        book: OrderBook<LEVELS, DEPTH>,
        first_taker: u64,
        first_maker: u64,
        start: u64,
        Ghost(orders): Ghost<Seq<OrderView>>,
        Ghost(limit): Ghost<nat>,
    ) -> (work: Self)
        requires
            LEVELS > 0,
            DEPTH > 0,
            book.wf(),
            book@ == asks_only(fan(probe.maker_price as int, orders)),
            priced(probe.maker_price as int, orders.len() + 1),
            orders.len() <= LEVELS,
            probe.meets(orders, 0, limit, REPORTS as nat),
            first_taker + limit <= u64::MAX,
            first_maker + limit * probe.restocks() <= u64::MAX,
            probe.restocks() > 0 ==> first_maker >= first_taker + limit,
            Self::apart(
                (TakerJob { probe, first_taker, first_maker, start, limit }),
                orders,
                first_maker as int,
            ),
        ensures
            work.ready(0),
            work.job() == (TakerJob { probe, first_taker, first_maker, start, limit }),
            work.limit() == limit,
    {
        TakerWork {
            probe,
            book,
            reports: ReportBuffer::new(),
            next_taker: first_taker,
            next_maker: first_maker,
            checksum: start,
            job: Ghost(TakerJob { probe, first_taker, first_maker, start, limit }),
            orders: Ghost(orders),
        }
    }

    /// Puts one ask behind those that are there.
    fn rest_last(&mut self, price: i64)
        requires
            old(self).book.wf(),
            LEVELS > 0,
            DEPTH > 0,
            old(self).book@ == asks_only(
                fan(old(self).probe.maker_price as int, old(self).orders@),
            ),
            price == old(self).probe.maker_price + old(self).orders@.len(),
            priced(old(self).probe.maker_price as int, old(self).orders@.len() + 1),
            old(self).orders@.len() < LEVELS,
            old(self).probe.maker_quantity > 0,
            old(self).next_maker < u64::MAX,
            unused(old(self).orders@, old(self).next_maker),
            old(self).reports@.len() == 0,
        ensures
            final(self).book.wf(),
            final(self).probe == old(self).probe,
            final(self).job == old(self).job,
            final(self).next_taker == old(self).next_taker,
            final(self).next_maker == old(self).next_maker + 1,
            final(self).checksum == old(self).checksum,
            final(self).reports@.len() == 0,
            final(self).orders@ == old(self).orders@.push(
                resting(old(self).next_maker, 1, old(self).probe.maker_quantity),
            ),
            final(self).book@ == asks_only(
                fan(final(self).probe.maker_price as int, final(self).orders@),
            ),
    {
        let id: u64 = self.next_maker;
        let order = bench_order(
            id,
            1,
            price,
            self.probe.maker_quantity,
            Side::Sell,
            TimeInForce::Gtc,
        );
        proof {
            lemma_rest_last(
                self.probe.maker_price as int,
                self.orders@,
                order,
                REPORTS as nat,
                LEVELS as nat,
                DEPTH as nat,
            );
        }
        let outcome = self.book.submit(order, &mut self.reports);
        assert(outcome is Ok);
        self.reports.clear();
        self.next_maker = id + 1;
        self.orders = Ghost(self.orders@.push(resting(id, 1, self.probe.maker_quantity)));
    }

    /// Puts one ask before those that are there.
    fn rest_first(&mut self)
        requires
            old(self).book.wf(),
            LEVELS > 0,
            DEPTH > 0,
            old(self).book@ == asks_only(
                fan(old(self).probe.maker_price + 1, old(self).orders@),
            ),
            priced(old(self).probe.maker_price as int, old(self).orders@.len() + 1),
            old(self).orders@.len() < LEVELS,
            old(self).probe.maker_quantity > 0,
            old(self).next_maker < u64::MAX,
            unused(old(self).orders@, old(self).next_maker),
            old(self).reports@.len() == 0,
        ensures
            final(self).book.wf(),
            final(self).probe == old(self).probe,
            final(self).job == old(self).job,
            final(self).next_taker == old(self).next_taker,
            final(self).next_maker == old(self).next_maker + 1,
            final(self).checksum == old(self).checksum,
            final(self).reports@.len() == 0,
            final(self).orders@ == seq![
                resting(old(self).next_maker, 1, old(self).probe.maker_quantity),
            ] + old(self).orders@,
            final(self).book@ == asks_only(
                fan(final(self).probe.maker_price as int, final(self).orders@),
            ),
    {
        let id: u64 = self.next_maker;
        let order = bench_order(
            id,
            1,
            self.probe.maker_price,
            self.probe.maker_quantity,
            Side::Sell,
            TimeInForce::Gtc,
        );
        proof {
            lemma_rest_first(
                self.probe.maker_price as int,
                self.orders@,
                order,
                REPORTS as nat,
                LEVELS as nat,
                DEPTH as nat,
            );
        }
        let outcome = self.book.submit(order, &mut self.reports);
        assert(outcome is Ok);
        self.reports.clear();
        self.next_maker = id + 1;
        self.orders = Ghost(seq![resting(id, 1, self.probe.maker_quantity)] + self.orders@);
    }
}

impl<const LEVELS: usize, const DEPTH: usize, const REPORTS: usize> Workload for TakerWork<
    LEVELS,
    DEPTH,
    REPORTS,
> {
    type Job = TakerJob;

    closed spec fn job(&self) -> TakerJob {
        self.job@
    }

    closed spec fn limit(&self) -> nat {
        self.job@.limit
    }

    closed spec fn ready(&self, done: nat) -> bool {
        &&& self.steady(done, done)
        &&& self.reports@.len() == 0
        &&& self.orders@.len() <= LEVELS
        &&& priced(self.probe.maker_price as int, self.orders@.len() + 1)
        &&& self.book@ == asks_only(fan(self.probe.maker_price as int, self.orders@))
        &&& self.probe.meets(self.orders@, done, self.job@.limit, REPORTS as nat)
    }

    closed spec fn ran(&self, done: nat) -> bool {
        exists|before: Seq<OrderView>| self.left_of(before, done)
    }

    fn run(&mut self, index: u64) {
        let ghost before = *self;
        let ghost done = index as nat;
        let id: u64 = self.next_taker;
        let order = bench_order(
            id,
            2,
            self.probe.price,
            self.probe.quantity,
            Side::Buy,
            self.probe.time_in_force,
        );
        proof {
            lemma_fate(
                self.probe,
                self.orders@,
                id,
                done,
                self.job@.limit,
                REPORTS as nat,
                LEVELS as nat,
                DEPTH as nat,
            );
        }
        let outcome = self.book.submit(order, &mut self.reports);
        let share: u64 = match self.probe.share {
            Share::Nothing => 0,
            Share::Filled => match outcome {
                Ok(summary) => summary.filled_quantity.0,
                Err(reason) => 0,
            },
            Share::Rested => match outcome {
                Ok(summary) => summary.resting_quantity.0,
                Err(reason) => 0,
            },
            Share::Constant(value) => value,
        };
        self.checksum = self.checksum ^ share;
        self.next_taker = id + 1;
        self.orders = Ghost(self.probe.left(self.orders@));
        proof {
            assert(self.left_of(before.orders@, done));
        }
    }

    fn restore(&mut self, index: u64) {
        let ghost start = *self;
        let ghost done = index as nat;
        let ghost before = choose|before: Seq<OrderView>| self.left_of(before, done);
        let ghost limit = self.job@.limit;
        proof {
            lemma_rounds(done, limit, self.probe.restocks());
        }
        self.reports.clear();
        match self.probe.fate {
            Fate::Miss | Fate::Part | Fate::Refused => {},
            Fate::Whole => {
                self.rest_first();
            },
            Fate::Sweep => {
                let quantity: u64 = self.probe.quantity;
                let mut rested_count: u64 = 0;
                assert(fan(self.probe.maker_price as int, self.orders@)
                    =~= Seq::<LevelView>::empty());
                while rested_count < quantity
                    invariant
                        rested_count <= quantity,
                        quantity == self.probe.quantity == before.len(),
                        self.probe == start.probe,
                        self.job == start.job,
                        self.next_taker == start.next_taker,
                        self.checksum == start.checksum,
                        self.probe.maker_quantity == 1,
                        LEVELS > 0,
                        DEPTH > 0,
                        before.len() <= LEVELS,
                        priced(self.probe.maker_price as int, before.len() + 1),
                        self.book.wf(),
                        self.reports@.len() == 0,
                        self.next_maker == start.next_maker + rested_count,
                        start.next_maker + quantity <= u64::MAX,
                        start.next_maker >= self.job@.first_taker + self.job@.limit,
                        self.orders@.len() == rested_count,
                        self.book@ == asks_only(
                            fan(self.probe.maker_price as int, self.orders@),
                        ),
                        forall|k: int|
                            0 <= k < self.orders@.len() ==> {
                                &&& (#[trigger] self.orders@[k]).quantity.0 == 1
                                &&& self.orders@[k].id.0 == start.next_maker + k
                            },
                    decreases quantity - rested_count,
                {
                    self.rest_last(self.probe.maker_price + rested_count as i64);
                    rested_count = rested_count + 1;
                }
            },
            Fate::Bid => {
                let id: u64 = self.next_taker - 1;
                proof {
                    self.book.law_sound();
                    lemma_cancel_bid(
                        fan(self.probe.maker_price as int, before),
                        PriceTicks(self.probe.price),
                        resting(id, 2, self.probe.quantity),
                    );
                }
                let outcome = self.book.cancel(bench_cancel(id, 2));
                assert(outcome is Ok);
            },
            Fate::PartBid => {
                let id: u64 = self.next_taker - 1;
                proof {
                    self.book.law_sound();
                    lemma_cancel_bid(
                        fan(self.probe.maker_price + 1, self.orders@),
                        PriceTicks(self.probe.price),
                        resting(id, 2, (self.probe.quantity - self.probe.maker_quantity) as u64),
                    );
                }
                let outcome = self.book.cancel(bench_cancel(id, 2));
                assert(outcome is Ok);
                self.rest_first();
            },
        }
    }
}

} // verus!
