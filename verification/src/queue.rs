//! Bounded first-in first-out queue.

use std::collections::VecDeque;

use vstd::prelude::*;

verus! {

/// A queue holds a power of two of items.
#[derive(Clone, Copy, Debug, PartialEq, Eq, Structural)]
pub enum QueueConfigError {
    CapacityNotPowerOfTwo,
}

pub open spec fn is_power_of_two(n: usize) -> bool {
    n > 0 && n & ((n - 1) as usize) == 0
}

pub struct BoundedQueue<T, const CAPACITY: usize> {
    items: VecDeque<T>,
}

impl<T, const CAPACITY: usize> View for BoundedQueue<T, CAPACITY> {
    type V = Seq<T>;

    /// The queued items, oldest first.
    closed spec fn view(&self) -> Seq<T> {
        self.items@
    }
}

impl<T, const CAPACITY: usize> BoundedQueue<T, CAPACITY> {
    pub open spec fn wf(&self) -> bool {
        self@.len() <= CAPACITY
    }

    /// An empty queue, where the capacity is a power of two.
    pub fn try_new() -> (outcome: Result<Self, QueueConfigError>)
        ensures
            outcome is Ok <==> is_power_of_two(CAPACITY),
            outcome is Ok ==> outcome->Ok_0@ == Seq::<T>::empty() && outcome->Ok_0.wf(),
            outcome is Err ==> outcome->Err_0 == QueueConfigError::CapacityNotPowerOfTwo,
    {
        if CAPACITY > 0 && CAPACITY & (CAPACITY - 1) == 0 {
            Ok(BoundedQueue { items: VecDeque::new() })
        } else {
            Err(QueueConfigError::CapacityNotPowerOfTwo)
        }
    }

    pub fn len(&self) -> (count: usize)
        ensures
            count == self@.len(),
    {
        self.items.len()
    }

    pub fn has_capacity(&self) -> (free: bool)
        ensures
            free == (self@.len() < CAPACITY),
    {
        self.items.len() < CAPACITY
    }

    /// Appends an item, or hands it back when the queue is full.
    pub fn try_push(&mut self, item: T) -> (outcome: Result<(), T>)
        requires
            old(self).wf(),
        ensures
            final(self).wf(),
            outcome is Ok <==> old(self)@.len() < CAPACITY,
            outcome is Ok ==> final(self)@ == old(self)@.push(item),
            outcome is Err ==> final(self)@ == old(self)@ && outcome->Err_0 == item,
    {
        if self.items.len() >= CAPACITY {
            return Err(item);
        }
        self.items.push_back(item);
        Ok(())
    }

    /// Takes the oldest item.
    pub fn try_pop(&mut self) -> (item: Option<T>)
        requires
            old(self).wf(),
        ensures
            final(self).wf(),
            item is Some <==> old(self)@.len() > 0,
            item is Some ==> item->0 == old(self)@[0] && final(self)@ == old(self)@.skip(1),
            item is None ==> final(self)@ == old(self)@,
    {
        let ghost before = self@;
        let item = self.items.pop_front();
        proof {
            if before.len() > 0 {
                assert(self@ =~= before.skip(1));
            }
        }
        item
    }
}

/// A capacity is accepted exactly when halving it again and again comes to one without
/// a remainder.
pub proof fn law_powers_of_two_halve(n: usize)
    ensures
        is_power_of_two(1),
        !is_power_of_two(0),
        n > 1 ==> (is_power_of_two(n) <==> n % 2 == 0 && is_power_of_two(n / 2)),
{
    assert(1usize & 0usize == 0) by (bit_vector);
    if n > 1 {
        assert((n & sub_one(n) == 0) == (n % 2 == 0 && (n / 2) & sub_one(n / 2) == 0))
            by (bit_vector)
            requires
                n > 1,
        ;
    }
}

spec fn sub_one(n: usize) -> usize {
    (n - 1) as usize
}

} // verus!
