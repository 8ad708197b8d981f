//! The cancel sweep: a book of many levels, cancelled from the worst price down.

use vstd::prelude::*;

use crate::bench::book::{book_base, fan_fixture, makers, push_book_record};
use crate::bench::cells::{folded, least, Cell};
use crate::bench::clock::{repeat, time_steps, Workload};
use crate::bench::config::SuiteConfig;
use crate::bench::record::{appended, params_of, BenchRecord, Extra, ExtraView};
use crate::bench::shapes::{asks_only, bench_cancel, fan, lemma_cancel_ask, lemma_fan_last};
use crate::book::model::LevelView;
use crate::book::order_book::OrderBook;

verus! {

/// The number of the first order of a batch.
pub open spec fn first_of(batch: nat) -> u64 {
    (batch * 512 + 1) as u64
}

/// The orders of a batch, last one first.
pub open spec fn batch_series(batch: nat) -> spec_fn(nat) -> u64 {
    |i: nat| (first_of(batch) + 511 - i) as u64
}

/// The checksum of a batch.
pub open spec fn batch_sum(batch: nat) -> u64 {
    folded(0, batch_series(batch), 512)
}

/// The checksums of the batches from `offset` on.
pub open spec fn batch_sums(offset: nat) -> spec_fn(nat) -> u64 {
    |i: nat| batch_sum(offset + i)
}

/// A book with one batch of asks.
fn batch_fixture(batch: u64) -> (book: OrderBook<512, 1>)
    requires
        (batch + 1) * 512 < u64::MAX,
    ensures
        book.wf(),
        book@ == asks_only(fan(1, makers(first_of(batch as nat), 512, 1))),
{
    fan_fixture(512, 1, batch * 512 + 1, 1)
}

/// Cancels a batch from the worst price down. It returns the checksum of the
/// orders.
pub fn cancel_batch(book: &mut OrderBook<512, 1>, batch: u64) -> (checksum: u64)
    requires
        old(book).wf(),
        (batch + 1) * 512 < u64::MAX,
        old(book)@ == asks_only(fan(1, makers(first_of(batch as nat), 512, 1))),
    ensures
        final(book).wf(),
        final(book)@ == asks_only(Seq::<LevelView>::empty()),
        checksum == batch_sum(batch as nat),
{
    let first: u64 = batch * 512 + 1;
    let mut left: u64 = 512;
    let mut checksum: u64 = 0;
    while left > 0
        invariant
            left <= 512,
            first == first_of(batch as nat),
            first + 512 <= u64::MAX,
            book.wf(),
            book@ == asks_only(fan(1, makers(first, left as nat, 1))),
            checksum == folded(0, batch_series(batch as nat), (512 - left) as nat),
        decreases left,
    {
        let id: u64 = first + (left - 1);
        proof {
            let orders = makers(first, left as nat, 1);
            book.law_sound();
            lemma_cancel_ask(1, orders, left - 1);
            lemma_fan_last(1, orders);
            assert(orders.drop_last() =~= makers(first, (left - 1) as nat, 1));
            assert(batch_series(batch as nat)((512 - left) as nat) == id);
        }
        match book.cancel(bench_cancel(id, 1)) {
            Ok(cancelled) => {
                checksum = checksum ^ cancelled.order_id.0;
            },
            Err(reason) => vstd::pervasive::unreached(),
        }
        left = left - 1;
    }
    assert(fan(1, makers(first, 0, 1)) =~= Seq::<LevelView>::empty());
    checksum
}

/// Cancels batch after batch.
pub struct SweepWork {
    book: OrderBook<512, 1>,
    offset: u64,
    checksum: u64,
    limit: Ghost<nat>,
}

impl SweepWork {
    spec fn counted(self, done: nat) -> bool {
        &&& (self.offset + self.limit@ + 1) * 512 < u64::MAX
        &&& self.checksum == folded(0, batch_sums(self.offset as nat), done)
        &&& self.book.wf()
    }
}

impl Workload for SweepWork {
    type Job = u64;

    closed spec fn job(&self) -> u64 {
        self.offset
    }

    closed spec fn limit(&self) -> nat {
        self.limit@
    }

    closed spec fn ready(&self, done: nat) -> bool {
        &&& self.counted(done)
        &&& done <= self.limit@
        &&& self.book@ == asks_only(fan(1, makers(first_of(self.offset as nat + done), 512, 1)))
    }

    closed spec fn ran(&self, done: nat) -> bool {
        &&& self.counted(done + 1)
        &&& done < self.limit@
        &&& self.book@ == asks_only(Seq::<LevelView>::empty())
    }

    fn run(&mut self, index: u64) {
        let sum: u64 = cancel_batch(&mut self.book, self.offset + index);
        assert(batch_sums(self.offset as nat)(index as nat) == sum);
        self.checksum = self.checksum ^ sum;
    }

    fn restore(&mut self, index: u64) {
        self.book = batch_fixture(self.offset + index + 1);
    }
}

/// What the cancel sweep records. The first batch warms up and is not counted.
pub open spec fn cancel_cell(config: SuiteConfig) -> Cell {
    Cell {
        base: book_base(
            "cancel_sweep"@,
            seq![
                ("levels"@, ExtraView::U64(512)),
                ("orders_per_level"@, ExtraView::U64(1)),
                (
                    "book_bytes"@,
                    ExtraView::U64(vstd::layout::size_of::<OrderBook<512, 1>>() as u64),
                ),
            ],
            folded(0, batch_sums(1), config.cancel_batches as nat),
        ),
        samples: least(config.cancel_batches as nat, 1_024),
        brief_rate: 0,
    }
}

/// Times the cancellation of whole batches. A sample is the share of one
/// cancellation.
pub fn cancel_benchmark(config: SuiteConfig, out: &mut Vec<BenchRecord>)
    requires
        0 < config.cancel_batches,
        (config.cancel_batches + 2) * 512 < u64::MAX,
    ensures
        appended(
            old(out)@,
            final(out)@,
            cancel_cell(config),
        ),
{
    let mut warm = SweepWork { book: batch_fixture(0), offset: 0, checksum: 0, limit: Ghost(1) };
    repeat(&mut warm, 0, 1);
    let batches: u64 = config.cancel_batches;
    let timed: u64 = if batches < 1_024 {
        batches
    } else {
        1_024
    };
    let mut work = SweepWork {
        book: batch_fixture(1),
        offset: 1,
        checksum: 0,
        limit: Ghost(batches as nat),
    };
    let samples = time_steps(&mut work, 0, timed as usize, 512);
    repeat(&mut work, timed, batches - timed);
    let bytes: usize = core::mem::size_of::<OrderBook<512, 1>>();
    let mut params: Vec<(&'static str, Extra)> = Vec::new();
    params.push(("levels", Extra::U64(512)));
    params.push(("orders_per_level", Extra::U64(1)));
    params.push(("book_bytes", Extra::U64(bytes as u64)));
    assert(params_of(params@) =~= cancel_cell(config).base.params);
    push_book_record(out, "cancel_sweep", params, work.checksum, samples);
}

} // verus!
