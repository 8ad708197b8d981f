//! What benchmark inputs do, and how numbers are written.

use vstd::prelude::*;

use crate::bench::cells::least;
use crate::bench::config::SuiteConfig;
use crate::bench::drive::{
    in_window, sequence_sum, spec_engine_command, spec_engine_limits, spec_pair,
};
use crate::bench::fifo::FifoScenario;
use crate::bench::json::{decimal, digit_char, hexadecimal, member, params_text, quoted};
use crate::bench::record::{BenchView, ExtraView};
use crate::book::model::{
    fills, front_left, has_level, removed_at, rested, swept, unfilled, BookView, LevelView,
    OrderView,
};
use crate::types::{Command, InstrumentId, PriceTicks, Quantity, Side};

verus! {

/// The number that a digit stands for.
pub open spec fn digit_value(digit: char) -> int {
    if '0' <= digit <= '9' {
        digit as int - '0' as int
    } else {
        digit as int - 'a' as int + 10
    }
}

/// The number that digits stand for, most significant first.
pub open spec fn number_of(digits: Seq<char>, base: int) -> int
    decreases digits.len(),
{
    if digits.len() == 0 {
        0
    } else {
        number_of(digits.drop_last(), base) * base + digit_value(digits.last())
    }
}

proof fn lemma_digit(digit: int)
    requires
        0 <= digit < 16,
    ensures
        digit_value(digit_char(digit)) == digit,
        digit < 10 ==> '0' <= digit_char(digit) <= '9',
{
    reveal_strlit("0123456789abcdef");
}

/// A number in decimal reads back as that number, is made of digits, and starts with a
/// zero only where it is nothing else.
pub proof fn law_decimal_reads_back(number: nat)
    ensures
        number_of(decimal(number), 10) == number,
        decimal(number).len() > 0,
        forall|i: int| 0 <= i < decimal(number).len() ==> '0' <= #[trigger] decimal(number)[i] <= '9',
        number > 0 ==> decimal(number)[0] != '0',
        number == 0 ==> decimal(number) == seq!['0'],
    decreases number,
{
    let text = decimal(number);
    lemma_digit((number % 10) as int);
    if number < 10 {
        lemma_digit(number as int);
        assert(text.drop_last() =~= Seq::<char>::empty());
        assert(number_of(Seq::<char>::empty(), 10) == 0);
        reveal_strlit("0123456789abcdef");
    } else {
        law_decimal_reads_back(number / 10);
        assert(text.drop_last() =~= decimal(number / 10));
    }
}

/// Sixteen hexadecimal digits, and in general `width` of them, read back as the number,
/// where it needs no more.
pub proof fn law_hexadecimal_reads_back(number: nat, width: nat)
    ensures
        hexadecimal(number, width).len() == width,
        number_of(hexadecimal(number, width), 16) == number % vstd::arithmetic::power::pow(
            16,
            width,
        ) as nat,
    decreases width,
{
    let text = hexadecimal(number, width);
    if width == 0 {
        vstd::arithmetic::power::lemma_pow0(16);
    } else {
        let less = (width - 1) as nat;
        let scale = vstd::arithmetic::power::pow(16, less);
        law_hexadecimal_reads_back(number / 16, less);
        lemma_digit((number % 16) as int);
        assert(text.drop_last() =~= hexadecimal(number / 16, less));
        vstd::arithmetic::power::lemma_pow_positive(16, less);
        reveal(vstd::arithmetic::power::pow);
        assert(vstd::arithmetic::power::pow(16, width) == 16 * scale);
        let n = number as int;
        vstd::arithmetic::div_mod::lemma_mod_breakdown(n, 16, scale);
    }
}

/// A pair of orders: the sell comes first, the buy is the next one, and in an empty
/// book the sell rests, the buy fills it, and nothing is left.
pub proof fn law_pairs_leave_nothing(view: BookView, first: u64)
    requires
        view.instrument == InstrumentId(1),
        view.bids.len() == 0,
        view.asks.len() == 0,
        first < u64::MAX,
    ensures
        ({
            let orders = spec_pair(first);
            let between = view.submitted(orders.sell);
            let trades = between.order_fills(orders.buy);
            &&& orders.sell.sequence.0 == first
            &&& orders.buy.sequence.0 == first + 1
            &&& orders.sell.order_id.0 == first
            &&& orders.buy.order_id.0 == first + 1
            &&& orders.sell.account_id != orders.buy.account_id
            &&& view.refusal(orders.sell, 0, 1, 1) is None
            &&& between.contains(orders.sell.order_id)
            &&& between.refusal(orders.buy, 1, 1, 1) is None
            &&& trades.len() == 1
            &&& trades[0].maker == orders.sell.order_id
            &&& trades[0].price == PriceTicks(100)
            &&& trades[0].quantity == 1
            &&& between.submitted(orders.buy) == view
        }),
{
    let orders = spec_pair(first);
    let maker = OrderView {
        id: orders.sell.order_id,
        account_id: orders.sell.account_id,
        quantity: Quantity(1),
        sequence: orders.sell.sequence,
    };
    let level = LevelView { price: PriceTicks(100), orders: seq![maker] };
    let between = view.submitted(orders.sell);
    assert(view.bids =~= Seq::<LevelView>::empty());
    assert(view.asks =~= Seq::<LevelView>::empty());
    assert(!has_level(view.asks, PriceTicks(100)));
    assert(!has_level(view.bids, PriceTicks(100)));
    assert(!view.contains(orders.sell.order_id)) by {
        if view.contains(orders.sell.order_id) {
            let (s, i, k) = view.place(orders.sell.order_id);
            assert(view.rests_at(orders.sell.order_id, s, i, k));
        }
    }
    assert(rested(view.asks, Side::Sell, PriceTicks(100), maker) =~= seq![level]);
    assert(between.asks =~= seq![level]);
    assert(between.bids =~= Seq::<LevelView>::empty());
    assert(between.rests_at(orders.sell.order_id, Side::Sell, 0, 0));
    assert(!between.contains(orders.buy.order_id)) by {
        if between.contains(orders.buy.order_id) {
            let (s, i, k) = between.place(orders.buy.order_id);
            assert(between.rests_at(orders.buy.order_id, s, i, k));
        }
    }
    let left = front_left(between.asks, 1);
    assert(left =~= removed_at(between.asks, 0, 0));
    assert(left =~= Seq::<LevelView>::empty());
    assert(fills(left, Side::Buy, PriceTicks(100), 0).len() == 0);
    assert(unfilled(left, Side::Buy, PriceTicks(100), 0) == 0);
    assert(swept(left, Side::Buy, PriceTicks(100), 0) == left);
    assert(between.submitted(orders.buy) =~= view);
}

/// Every second command of an engine run takes back the order before it, within the
/// limits of the run's account. Commands are numbered from one.
pub proof fn law_commands_take_back(step: u64)
    requires
        step % 2 == 0,
        step < u64::MAX - 1,
    ensures
        ({
            let limits = spec_engine_limits();
            let next = spec_engine_command((step + 1) as u64);
            &&& spec_engine_command(step) matches Command::NewOrder(order)
            &&& next matches Command::CancelOrder(cancel)
            &&& order.sequence.0 == step + 1
            &&& cancel.sequence.0 == step + 2
            &&& order.order_id.0 == step + 1
            &&& cancel.order_id == order.order_id
            &&& cancel.account_id == order.account_id
            &&& cancel.instrument_id == order.instrument_id
            &&& limits.minimum_price.0 <= order.price.0 <= limits.maximum_price.0
            &&& 0 < order.quantity.0 <= limits.max_quantity.0
            &&& order.price.0 * order.quantity.0 <= limits.max_notional
        }),
{
}

/// The checksum of an engine run grows by the sequence of each timed command, modulo
/// the machine word; the first timed command comes behind 128 others.
pub proof fn law_run_sums_its_sequences(timed: nat)
    requires
        timed + 129 <= u64::MAX,
    ensures
        sequence_sum(0) == 0,
        sequence_sum(timed + 1) == (sequence_sum(timed) + 129 + timed) % 0x1_0000_0000_0000_0000,
{
}

/// Half as many iterations are timed as samples are asked for, up to a thousand, from
/// the configured one on and without a gap.
pub proof fn law_window_has_no_gaps(config: SuiteConfig, iteration: int)
    ensures
        in_window(config, iteration) <==> {
            let offset = iteration - config.gateway_sample_after;
            0 <= offset < 1_000 && offset < config.gateway_samples / 2
        },
{
}

/// A text between quotation marks.
pub open spec fn in_quotes(text: Seq<char>) -> Seq<char> {
    "\""@ + text + "\""@
}

/// The members of an object, in order and with commas between them.
pub open spec fn listed(members: Seq<(Seq<char>, Seq<char>)>) -> Seq<char>
    decreases members.len(),
{
    if members.len() == 0 {
        Seq::empty()
    } else {
        let (key, value) = members[members.len() - 1];
        let text = in_quotes(key) + ":"@ + value;
        if members.len() == 1 {
            text
        } else {
            listed(members.take(members.len() - 1)) + ","@ + text
        }
    }
}

/// An object in JSON.
pub open spec fn object(members: Seq<(Seq<char>, Seq<char>)>) -> Seq<char> {
    "{"@ + listed(members) + "}"@
}

/// The parameters of a record, numbers in decimal and texts in quotation marks.
pub open spec fn params_of_record(record: BenchView) -> Seq<(Seq<char>, Seq<char>)> {
    Seq::new(
        record.params.len(),
        |i: int|
            (
                record.params[i].0,
                match record.params[i].1 {
                    ExtraView::U64(number) => decimal(number as nat),
                    ExtraView::Text(text) => in_quotes(text),
                },
            ),
    )
}

/// What a line says of a record, in order.
pub open spec fn members_of_record(record: BenchView) -> Seq<(Seq<char>, Seq<char>)> {
    seq![
        ("schema"@, in_quotes("hft-bench-results/1"@)),
        ("boundary"@, in_quotes(record.boundary)),
        ("component"@, in_quotes(record.component)),
        ("scenario"@, in_quotes(record.scenario)),
        ("params"@, object(params_of_record(record))),
        ("samples"@, decimal(record.samples as nat)),
        ("mean_ns"@, decimal(record.mean_ns as nat)),
        ("p50_ns"@, decimal(record.p50_ns as nat)),
        ("p90_ns"@, decimal(record.p90_ns as nat)),
        ("p99_ns"@, decimal(record.p99_ns as nat)),
        ("p99_9_ns"@, decimal(record.p99_9_ns as nat)),
        ("max_ns"@, decimal(record.max_ns as nat)),
        ("ops_per_second"@, decimal(record.ops_per_second as nat)),
        ("allocations"@, decimal(record.allocations as nat)),
        ("deallocations"@, decimal(record.deallocations as nat)),
        ("checksum"@, in_quotes(hexadecimal(record.checksum as nat, 16))),
    ]
}

proof fn lemma_params_listed(record: BenchView, count: nat)
    requires
        count <= record.params.len(),
    ensures
        params_text(record.params, count) == listed(params_of_record(record).take(count as int)),
    decreases count,
{
    let members = params_of_record(record);
    if count > 0 {
        let shorter = members.take(count - 1);
        let here = members.take(count as int);
        lemma_params_listed(record, (count - 1) as nat);
        assert(here.take(count - 1) =~= shorter);
        let (key, value) = here[count - 1];
        let text = in_quotes(key) + ":"@ + value;
        if count == 1 {
            reveal_strlit("");
            assert(params_text(record.params, 0) =~= Seq::<char>::empty());
            assert(Seq::<char>::empty() + ""@ + text =~= text);
        }
    } else {
        assert(members.take(0) =~= Seq::<(Seq<char>, Seq<char>)>::empty());
    }
}

proof fn lemma_listed_step(members: Seq<(Seq<char>, Seq<char>)>, i: int)
    requires
        0 < i < members.len(),
    ensures
        "{"@ + listed(members.take(i + 1)) == "{"@ + listed(members.take(i)) + ","@ + (in_quotes(
            members[i].0,
        ) + ":"@ + members[i].1),
        "{"@ + listed(members.take(i + 1)) == "{"@ + listed(members.take(i)) + (","@ + (in_quotes(
            members[i].0,
        ) + ":"@ + members[i].1)),
{
    let here = members.take(i + 1);
    let text = in_quotes(members[i].0) + ":"@ + members[i].1;
    assert(here.take(i) =~= members.take(i));
    assert(listed(here) == listed(members.take(i)) + ","@ + text);
    assert("{"@ + listed(here) =~= "{"@ + listed(members.take(i)) + ","@ + text);
    assert("{"@ + listed(here) =~= "{"@ + listed(members.take(i)) + (","@ + text));
}

/// A record as a line is one object with its members in order: the schema, what the
/// cell is, its parameters, its figures in decimal, and its checksum in sixteen
/// hexadecimal digits.
pub proof fn law_line_is_an_object(record: BenchView)
    ensures
        record.json() == object(members_of_record(record)),
{
    let members = members_of_record(record);
    lemma_params_listed(record, record.params.len());
    assert(params_of_record(record).take(record.params.len() as int) =~= params_of_record(record));
    assert(members.take(1)[0] == members[0]);
    assert("{"@ + listed(members.take(1)) == "{"@ + member("schema"@, quoted(
        "hft-bench-results/1"@,
    )));
    lemma_listed_step(members, 1);
    lemma_listed_step(members, 2);
    lemma_listed_step(members, 3);
    lemma_listed_step(members, 4);
    lemma_listed_step(members, 5);
    lemma_listed_step(members, 6);
    lemma_listed_step(members, 7);
    lemma_listed_step(members, 8);
    lemma_listed_step(members, 9);
    lemma_listed_step(members, 10);
    lemma_listed_step(members, 11);
    lemma_listed_step(members, 12);
    lemma_listed_step(members, 13);
    lemma_listed_step(members, 14);
    lemma_listed_step(members, 15);
    assert(members.take(16) =~= members);
}

/// A capped count is within both bounds and meets one of them.
pub proof fn law_cap_meets_a_bound(count: nat, cap: nat)
    ensures
        least(count, cap) <= count,
        least(count, cap) <= cap,
        least(count, cap) == count || least(count, cap) == cap,
{
}

/// The order that a queue scenario is about stands where its name says: nobody is
/// ahead of the head, nobody behind the tail, and the middle has as many ahead of it
/// as behind it, or one more behind.
pub proof fn law_targets_stand_in_place(depth: usize)
    requires
        0 < depth < usize::MAX,
    ensures
        FifoScenario::HeadCancel.spec_target(depth) - 1 == 0,
        FifoScenario::HeadFill.spec_target(depth) - 1 == 0,
        depth - FifoScenario::TailCancel.spec_target(depth) == 0,
        ({
            let ahead = FifoScenario::MiddleCancel.spec_target(depth) - 1;
            let behind = depth - FifoScenario::MiddleCancel.spec_target(depth);
            0 <= ahead <= behind <= ahead + 1
        }),
{
}

} // verus!
