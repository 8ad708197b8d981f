//! Timing of repeated operations.

use std::time::Instant;

use vstd::prelude::*;

verus! {

/// A point of the monotonic clock.
#[verifier::external_type_specification]
#[verifier::external_body]
pub struct ExInstant(std::time::Instant);

/// Calls `std::time::Instant::now`. Nothing is claimed of the point in time.
#[verifier::external_body]
fn now() -> (started: Instant) {
    Instant::now()
}

/// Calls `std::time::Instant::elapsed` and gives the duration in nanoseconds.
/// Nothing is claimed of how long it is.
#[verifier::external_body]
fn elapsed_nanos(started: &Instant) -> (nanos: u128) {
    started.elapsed().as_nanos()
}

/// Nanoseconds as far as a `u64` can say them.
pub open spec fn spec_saturated(nanos: u128) -> u64 {
    if nanos > u64::MAX {
        u64::MAX
    } else {
        nanos as u64
    }
}

/// Nanoseconds as far as a `u64` can say them.
pub fn saturated(nanos: u128) -> (value: u64)
    ensures
        value == spec_saturated(nanos),
{
    if nanos > u64::MAX as u128 {
        u64::MAX
    } else {
        nanos as u64
    }
}

/// An operation that is repeated: what is timed, and what makes it ready for the
/// next time.
pub trait Workload: Sized {
    /// What stays the same however often the operation runs.
    type Job;

    spec fn job(&self) -> Self::Job;

    /// The operation can run this often.
    spec fn limit(&self) -> nat;

    /// The operation has run `done` times and is ready.
    spec fn ready(&self, done: nat) -> bool;

    /// The operation has run `done + 1` times and is not ready yet.
    spec fn ran(&self, done: nat) -> bool;

    /// The timed part.
    fn run(&mut self, index: u64)
        requires
            old(self).ready(index as nat),
            index < old(self).limit(),
        ensures
            final(self).ran(index as nat),
            final(self).limit() == old(self).limit(),
            final(self).job() == old(self).job(),
    ;

    /// The untimed part.
    fn restore(&mut self, index: u64)
        requires
            old(self).ran(index as nat),
            index < old(self).limit(),
        ensures
            final(self).ready(index as nat + 1),
            final(self).limit() == old(self).limit(),
            final(self).job() == old(self).job(),
    ;
}

/// Runs the operation without timing it, from `first` on.
pub fn repeat<W: Workload>(work: &mut W, first: u64, count: u64)
    requires
        old(work).ready(first as nat),
        first + count <= old(work).limit(),
        first + count <= u64::MAX,
    ensures
        final(work).ready(first as nat + count as nat),
        final(work).limit() == old(work).limit(),
        final(work).job() == old(work).job(),
{
    let mut index: u64 = 0;
    while index < count
        invariant
            index <= count,
            first + count <= work.limit(),
            first + count <= u64::MAX,
            work.limit() == old(work).limit(),
            work.job() == old(work).job(),
            work.ready(first as nat + index as nat),
        decreases count - index,
    {
        work.run(first + index);
        work.restore(first + index);
        index = index + 1;
    }
}

/// Runs the operation without timing it, from the start.
pub fn warm_up<W: Workload>(work: &mut W, count: u64)
    requires
        old(work).ready(0),
        count <= old(work).limit(),
    ensures
        final(work).ready(count as nat),
        final(work).limit() == old(work).limit(),
        final(work).job() == old(work).job(),
{
    repeat(work, 0, count);
}

/// Times the operation once for each sample, from `first` on. A sample is the
/// share of one of the `steps` that the operation takes.
pub fn time_steps<W: Workload>(work: &mut W, first: u64, count: usize, steps: u128) -> (samples:
    Vec<u64>)
    requires
        old(work).ready(first as nat),
        first + count <= old(work).limit(),
        first + count <= u64::MAX,
        steps > 0,
    ensures
        samples@.len() == count,
        final(work).ready(first as nat + count as nat),
        final(work).limit() == old(work).limit(),
        final(work).job() == old(work).job(),
{
    let mut samples: Vec<u64> = Vec::new();
    let mut index: usize = 0;
    while index < count
        invariant
            index <= count,
            steps > 0,
            first + count <= work.limit(),
            first + count <= u64::MAX,
            samples@.len() == index,
            work.limit() == old(work).limit(),
            work.job() == old(work).job(),
            work.ready(first as nat + index as nat),
        decreases count - index,
    {
        let number: u64 = first + index as u64;
        let started = now();
        work.run(number);
        samples.push(saturated(elapsed_nanos(&started) / steps));
        work.restore(number);
        index = index + 1;
    }
    samples
}

/// Times the operation once for each sample, from `first` on.
pub fn time_samples<W: Workload>(work: &mut W, first: u64, count: usize) -> (samples: Vec<u64>)
    requires
        old(work).ready(first as nat),
        first + count <= old(work).limit(),
        first + count <= u64::MAX,
    ensures
        samples@.len() == count,
        final(work).ready(first as nat + count as nat),
        final(work).limit() == old(work).limit(),
        final(work).job() == old(work).job(),
{
    time_steps(work, first, count, 1)
}

} // verus!
