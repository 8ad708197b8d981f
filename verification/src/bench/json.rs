//! Records as lines of JSON.

use vstd::prelude::*;
use vstd::string::*;

use crate::bench::record::{params_of, BenchRecord, BenchView, Extra, ExtraView};

verus! {

/// One of the sixteen digits.
pub open spec fn digit_char(digit: int) -> char {
    "0123456789abcdef"@[digit]
}

/// A number in decimal, without leading zeros.
pub open spec fn decimal(number: nat) -> Seq<char>
    decreases number,
{
    if number < 10 {
        seq![digit_char(number as int)]
    } else {
        decimal(number / 10).push(digit_char((number % 10) as int))
    }
}

/// The last `width` hexadecimal digits of a number.
pub open spec fn hexadecimal(number: nat, width: nat) -> Seq<char>
    decreases width,
{
    if width == 0 {
        Seq::empty()
    } else {
        hexadecimal(number / 16, (width - 1) as nat).push(digit_char((number % 16) as int))
    }
}

/// A text in quotes. Labels hold nothing that JSON would escape.
pub open spec fn quoted(text: Seq<char>) -> Seq<char> {
    "\""@ + text + "\""@
}

/// One member of an object.
pub open spec fn member(key: Seq<char>, value: Seq<char>) -> Seq<char> {
    quoted(key) + ":"@ + value
}

/// The value of a parameter.
pub open spec fn extra_text(extra: ExtraView) -> Seq<char> {
    match extra {
        ExtraView::U64(number) => decimal(number as nat),
        ExtraView::Text(text) => quoted(text),
    }
}

/// The first `count` parameters, with commas between them.
pub open spec fn params_text(params: Seq<(Seq<char>, ExtraView)>, count: nat) -> Seq<char>
    decreases count,
{
    if count == 0 {
        Seq::empty()
    } else {
        let (name, value) = params[count - 1];
        params_text(params, (count - 1) as nat) + if count == 1 {
            ""@
        } else {
            ","@
        } + member(name, extra_text(value))
    }
}

/// A member of an object behind another.
pub open spec fn next_number(key: Seq<char>, number: nat) -> Seq<char> {
    ","@ + member(key, decimal(number))
}

impl BenchView {
    /// The record as one line of JSON.
    pub open spec fn json(self) -> Seq<char> {
        "{"@ + member("schema"@, quoted("hft-bench-results/1"@)) + ","@ + member(
            "boundary"@,
            quoted(self.boundary),
        ) + ","@ + member("component"@, quoted(self.component)) + ","@ + member(
            "scenario"@,
            quoted(self.scenario),
        ) + ","@ + member(
            "params"@,
            "{"@ + params_text(self.params, self.params.len()) + "}"@,
        ) + next_number("samples"@, self.samples as nat) + next_number(
            "mean_ns"@,
            self.mean_ns as nat,
        ) + next_number("p50_ns"@, self.p50_ns as nat) + next_number(
            "p90_ns"@,
            self.p90_ns as nat,
        ) + next_number("p99_ns"@, self.p99_ns as nat) + next_number(
            "p99_9_ns"@,
            self.p99_9_ns as nat,
        ) + next_number("max_ns"@, self.max_ns as nat) + next_number(
            "ops_per_second"@,
            self.ops_per_second as nat,
        ) + next_number("allocations"@, self.allocations as nat) + next_number(
            "deallocations"@,
            self.deallocations as nat,
        ) + ","@ + member("checksum"@, quoted(hexadecimal(self.checksum as nat, 16))) + "}"@
    }
}

/// Appends one digit.
fn put_digit(line: &mut String, digit: u64)
    requires
        digit < 16,
    ensures
        final(line)@ == old(line)@.push(digit_char(digit as int)),
{
    let ghost before = line@;
    proof {
        reveal_strlit("0123456789abcdef");
        reveal_strlit("0");
        reveal_strlit("1");
        reveal_strlit("2");
        reveal_strlit("3");
        reveal_strlit("4");
        reveal_strlit("5");
        reveal_strlit("6");
        reveal_strlit("7");
        reveal_strlit("8");
        reveal_strlit("9");
        reveal_strlit("a");
        reveal_strlit("b");
        reveal_strlit("c");
        reveal_strlit("d");
        reveal_strlit("e");
        reveal_strlit("f");
    }
    let text: &str = match digit {
        0 => "0",
        1 => "1",
        2 => "2",
        3 => "3",
        4 => "4",
        5 => "5",
        6 => "6",
        7 => "7",
        8 => "8",
        9 => "9",
        10 => "a",
        11 => "b",
        12 => "c",
        13 => "d",
        14 => "e",
        _ => "f",
    };
    line.append(text);
    assert(text@ =~= seq![digit_char(digit as int)]);
    assert(before + seq![digit_char(digit as int)] =~= before.push(digit_char(digit as int)));
}

/// Appends a number in decimal.
pub fn put_decimal(line: &mut String, number: u64)
    ensures
        final(line)@ == old(line)@ + decimal(number as nat),
    decreases number,
{
    let ghost before = line@;
    if number >= 10 {
        put_decimal(line, number / 10);
        put_digit(line, number % 10);
        assert(line@ =~= before + decimal(number as nat));
    } else {
        put_digit(line, number);
        assert(line@ =~= before + decimal(number as nat));
    }
}

/// Appends the last `width` hexadecimal digits of a number.
pub fn put_hexadecimal(line: &mut String, number: u64, width: u64)
    ensures
        final(line)@ == old(line)@ + hexadecimal(number as nat, width as nat),
    decreases width,
{
    let ghost before = line@;
    if width > 0 {
        put_hexadecimal(line, number / 16, width - 1);
        put_digit(line, number % 16);
    }
    assert(line@ =~= before + hexadecimal(number as nat, width as nat));
}

/// Appends a text in quotes.
fn put_quoted(line: &mut String, text: &str)
    ensures
        final(line)@ == old(line)@ + quoted(text@),
{
    let ghost before = line@;
    line.append("\"");
    line.append(text);
    line.append("\"");
    assert(line@ =~= before + quoted(text@));
}

/// Appends the name of a member.
fn put_key(line: &mut String, key: &str)
    ensures
        forall|value: Seq<char>| #[trigger]
            (final(line)@ + value) == old(line)@ + member(key@, value),
        final(line)@ == old(line)@ + quoted(key@) + ":"@,
{
    let ghost before = line@;
    put_quoted(line, key);
    line.append(":");
    assert forall|value: Seq<char>| #[trigger] (line@ + value) == before + member(key@, value) by {
        assert(line@ + value =~= before + member(key@, value));
    }
}

/// Appends a member with a text.
fn put_text(line: &mut String, key: &str, text: &str)
    ensures
        final(line)@ == old(line)@ + member(key@, quoted(text@)),
{
    put_key(line, key);
    put_quoted(line, text);
}

/// Appends a member with a number, behind another.
fn put_number(line: &mut String, key: &str, number: u64)
    ensures
        final(line)@ == old(line)@ + next_number(key@, number as nat),
{
    let ghost before = line@;
    line.append(",");
    put_key(line, key);
    put_decimal(line, number);
    assert(line@ =~= before + next_number(key@, number as nat));
}

/// Appends the parameters, with commas between them.
fn put_params(line: &mut String, params: &Vec<(&'static str, Extra)>)
    ensures
        final(line)@ == old(line)@ + params_text(params_of(params@), params@.len()),
{
    let ghost before = line@;
    let ghost views = params_of(params@);
    let mut index: usize = 0;
    assert(before + params_text(views, 0) =~= before);
    while index < params.len()
        invariant
            index <= params@.len(),
            views == params_of(params@),
            line@ == before + params_text(views, index as nat),
        decreases params@.len() - index,
    {
        let ghost done = line@;
        let (name, value) = params[index];
        if index > 0 {
            line.append(",");
        } else {
            line.append("");
        }
        let ghost separated = line@;
        put_key(line, name);
        match value {
            Extra::U64(number) => {
                put_decimal(line, number);
            },
            Extra::Text(text) => {
                put_quoted(line, text);
            },
        }
        proof {
            assert(views[index as int] == (name@, value@));
            assert(line@ == separated + member(name@, extra_text(value@)));
            assert(line@ =~= before + params_text(views, (index + 1) as nat));
        }
        index = index + 1;
    }
}

impl BenchRecord {
    /// The record as one line of JSON.
    pub fn to_json_line(&self) -> (line: String)
        ensures
            line@ == self@.json(),
    {
        let mut line: String = String::new();
        line.append("{");
        put_text(&mut line, "schema", "hft-bench-results/1");
        line.append(",");
        put_text(&mut line, "boundary", self.boundary);
        line.append(",");
        put_text(&mut line, "component", self.component);
        line.append(",");
        put_text(&mut line, "scenario", self.scenario);
        line.append(",");
        let ghost before = line@;
        put_key(&mut line, "params");
        line.append("{");
        put_params(&mut line, &self.params);
        line.append("}");
        assert(line@ =~= before + member(
            "params"@,
            "{"@ + params_text(self@.params, self@.params.len()) + "}"@,
        ));
        put_number(&mut line, "samples", self.samples as u64);
        put_number(&mut line, "mean_ns", self.mean_ns);
        put_number(&mut line, "p50_ns", self.p50_ns);
        put_number(&mut line, "p90_ns", self.p90_ns);
        put_number(&mut line, "p99_ns", self.p99_ns);
        put_number(&mut line, "p99_9_ns", self.p99_9_ns);
        put_number(&mut line, "max_ns", self.max_ns);
        put_number(&mut line, "ops_per_second", self.ops_per_second);
        put_number(&mut line, "allocations", self.allocations);
        put_number(&mut line, "deallocations", self.deallocations);
        line.append(",");
        let ghost before_checksum = line@;
        put_key(&mut line, "checksum");
        line.append("\"");
        put_hexadecimal(&mut line, self.checksum, 16);
        line.append("\"");
        assert(line@ =~= before_checksum + member(
            "checksum"@,
            quoted(hexadecimal(self.checksum as nat, 16)),
        ));
        line.append("}");
        assert(line@ =~= self@.json());
        line
    }
}

} // verus!
