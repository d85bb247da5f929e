//! Cells that several threads share.
//!
//! A handle to a cell knows what was stored and read through it. What the cell holds is
//! not stated: other handles store to it at any time.

use std::sync::atomic::{AtomicBool, AtomicU64, Ordering};
use std::sync::Arc;
use vstd::prelude::*;

verus! {

/// A handle to an `AtomicBool` that others share.
#[verifier::external_body]
pub struct SharedFlag {
    cell: Arc<AtomicBool>,
}

/// What was put into a flag through this handle, in its order.
pub uninterp spec fn flag_stores(flag: SharedFlag) -> Seq<bool>;

/// What was read from a flag through this handle, in its order.
pub uninterp spec fn flag_loads(flag: SharedFlag) -> Seq<bool>;

/// Both handles are to one flag.
pub uninterp spec fn on_one_flag(a: SharedFlag, b: SharedFlag) -> bool;

/// Calls `Arc::new`: the first handle to a flag, through which nothing went yet.
#[verifier::external_body]
fn share_flag(cell: AtomicBool) -> (flag: SharedFlag)
    ensures
        flag_stores(flag) == Seq::<bool>::empty(),
        flag_loads(flag) == Seq::<bool>::empty(),
        on_one_flag(flag, flag),
{
    SharedFlag { cell: Arc::new(cell) }
}

/// Calls `Arc::clone`: another handle to the same flag, through which nothing went yet.
#[verifier::external_body]
fn clone_flag(flag: &SharedFlag) -> (result: SharedFlag)
    ensures
        flag_stores(result) == Seq::<bool>::empty(),
        flag_loads(result) == Seq::<bool>::empty(),
        forall|o: SharedFlag| #[trigger] on_one_flag(result, o) == on_one_flag(*flag, o),
        forall|o: SharedFlag| #[trigger] on_one_flag(o, result) == on_one_flag(o, *flag),
{
    SharedFlag { cell: Arc::clone(&flag.cell) }
}

/// Calls `AtomicBool::store`: puts `value` into the flag. The handle stays one to the
/// same flag.
#[verifier::external_body]
fn store_flag(flag: &mut SharedFlag, value: bool)
    ensures
        flag_stores(*final(flag)) == flag_stores(*old(flag)).push(value),
        flag_loads(*final(flag)) == flag_loads(*old(flag)),
        forall|o: SharedFlag|
            #[trigger] on_one_flag(*final(flag), o) == on_one_flag(*old(flag), o),
        forall|o: SharedFlag|
            #[trigger] on_one_flag(o, *final(flag)) == on_one_flag(o, *old(flag)),
{
    flag.cell.store(value, Ordering::Release)
}

/// Calls `AtomicBool::load`: reads the flag. The handle stays one to the same flag. Which
/// value is read is not stated: it is the last that any handle has stored.
#[verifier::external_body]
fn load_flag(flag: &mut SharedFlag) -> (value: bool)
    ensures
        flag_stores(*final(flag)) == flag_stores(*old(flag)),
        flag_loads(*final(flag)) == flag_loads(*old(flag)).push(value),
        forall|o: SharedFlag|
            #[trigger] on_one_flag(*final(flag), o) == on_one_flag(*old(flag), o),
        forall|o: SharedFlag|
            #[trigger] on_one_flag(o, *final(flag)) == on_one_flag(o, *old(flag)),
{
    flag.cell.load(Ordering::Acquire)
}

impl SharedFlag {
    /// Both handles are to the same flags.
    pub open spec fn is_handle_like(self, other: SharedFlag) -> bool {
        &&& forall|o: SharedFlag| #[trigger] on_one_flag(self, o) == on_one_flag(other, o)
        &&& forall|o: SharedFlag| #[trigger] on_one_flag(o, self) == on_one_flag(o, other)
    }

    /// A new flag.
    pub fn new(value: bool) -> (flag: SharedFlag)
        ensures
            flag_stores(flag) == seq![value],
            flag_loads(flag) == Seq::<bool>::empty(),
            on_one_flag(flag, flag),
    {
        let mut flag: SharedFlag = share_flag(AtomicBool::new(value));
        store_flag(&mut flag, value);
        assert(flag_stores(flag) =~= seq![value]);
        flag
    }

    /// Sets the flag for all that share it.
    pub fn store(&mut self, value: bool)
        ensures
            flag_stores(*final(self)) == flag_stores(*old(self)).push(value),
            flag_loads(*final(self)) == flag_loads(*old(self)),
            final(self).is_handle_like(*old(self)),
            forall|o: SharedFlag|
                #[trigger] on_one_flag(*final(self), o) == on_one_flag(*old(self), o),
    {
        store_flag(self, value)
    }

    /// What the flag is set to now, by whoever shares it.
    pub fn load(&mut self) -> (value: bool)
        ensures
            flag_stores(*final(self)) == flag_stores(*old(self)),
            flag_loads(*final(self)) == flag_loads(*old(self)).push(value),
            final(self).is_handle_like(*old(self)),
            forall|o: SharedFlag|
                #[trigger] on_one_flag(*final(self), o) == on_one_flag(*old(self), o),
    {
        load_flag(self)
    }
}

impl Clone for SharedFlag {
    /// Another handle to the same flag.
    fn clone(&self) -> (result: Self)
        ensures
            flag_stores(result) == Seq::<bool>::empty(),
            flag_loads(result) == Seq::<bool>::empty(),
            result.is_handle_like(*self),
            forall|o: SharedFlag| #[trigger] on_one_flag(result, o) == on_one_flag(*self, o),
            forall|o: SharedFlag| #[trigger] on_one_flag(o, result) == on_one_flag(o, *self),
    {
        clone_flag(self)
    }
}

/// A handle to an `AtomicU64` that others share.
#[verifier::external_body]
pub struct SharedCounter {
    cell: Arc<AtomicU64>,
}

/// What was put into a counter through this handle, in its order.
pub uninterp spec fn counter_stores(counter: SharedCounter) -> Seq<u64>;

/// What was read from a counter through this handle, in its order.
pub uninterp spec fn counter_loads(counter: SharedCounter) -> Seq<u64>;

/// Both handles are to one counter.
pub uninterp spec fn on_one_counter(a: SharedCounter, b: SharedCounter) -> bool;

/// Calls `Arc::new`: the first handle to a counter, through which nothing went yet.
#[verifier::external_body]
fn share_counter(cell: AtomicU64) -> (counter: SharedCounter)
    ensures
        counter_stores(counter) == Seq::<u64>::empty(),
        counter_loads(counter) == Seq::<u64>::empty(),
        on_one_counter(counter, counter),
{
    SharedCounter { cell: Arc::new(cell) }
}

/// Calls `Arc::clone`: another handle to the same counter, through which nothing went
/// yet.
#[verifier::external_body]
fn clone_counter(counter: &SharedCounter) -> (result: SharedCounter)
    ensures
        counter_stores(result) == Seq::<u64>::empty(),
        counter_loads(result) == Seq::<u64>::empty(),
        forall|o: SharedCounter|
            #[trigger] on_one_counter(result, o) == on_one_counter(*counter, o),
        forall|o: SharedCounter|
            #[trigger] on_one_counter(o, result) == on_one_counter(o, *counter),
{
    SharedCounter { cell: Arc::clone(&counter.cell) }
}

/// Calls `AtomicU64::store`: puts `value` into the counter. The handle stays one to the
/// same counter.
#[verifier::external_body]
fn store_counter(counter: &mut SharedCounter, value: u64)
    ensures
        counter_stores(*final(counter)) == counter_stores(*old(counter)).push(value),
        counter_loads(*final(counter)) == counter_loads(*old(counter)),
        forall|o: SharedCounter|
            #[trigger] on_one_counter(*final(counter), o) == on_one_counter(*old(counter), o),
        forall|o: SharedCounter|
            #[trigger] on_one_counter(o, *final(counter)) == on_one_counter(o, *old(counter)),
{
    counter.cell.store(value, Ordering::Relaxed)
}

/// Calls `AtomicU64::load`: reads the counter. The handle stays one to the same counter.
/// Which value is read is not stated: it is the last that any handle has stored.
#[verifier::external_body]
fn load_counter(counter: &mut SharedCounter) -> (value: u64)
    ensures
        counter_stores(*final(counter)) == counter_stores(*old(counter)),
        counter_loads(*final(counter)) == counter_loads(*old(counter)).push(value),
        forall|o: SharedCounter|
            #[trigger] on_one_counter(*final(counter), o) == on_one_counter(*old(counter), o),
        forall|o: SharedCounter|
            #[trigger] on_one_counter(o, *final(counter)) == on_one_counter(o, *old(counter)),
{
    counter.cell.load(Ordering::Relaxed)
}

impl SharedCounter {
    /// Both handles are to the same counters.
    pub open spec fn is_handle_like(self, other: SharedCounter) -> bool {
        &&& forall|o: SharedCounter| #[trigger] on_one_counter(self, o) == on_one_counter(other, o)
        &&& forall|o: SharedCounter| #[trigger] on_one_counter(o, self) == on_one_counter(o, other)
    }

    /// A new counter.
    pub fn new(value: u64) -> (counter: SharedCounter)
        ensures
            counter_stores(counter) == seq![value],
            counter_loads(counter) == Seq::<u64>::empty(),
            on_one_counter(counter, counter),
    {
        let mut counter: SharedCounter = share_counter(AtomicU64::new(value));
        store_counter(&mut counter, value);
        assert(counter_stores(counter) =~= seq![value]);
        counter
    }

    /// Sets the counter for all that share it.
    pub fn store(&mut self, value: u64)
        ensures
            counter_stores(*final(self)) == counter_stores(*old(self)).push(value),
            counter_loads(*final(self)) == counter_loads(*old(self)),
            final(self).is_handle_like(*old(self)),
            forall|o: SharedCounter|
                #[trigger] on_one_counter(*final(self), o) == on_one_counter(*old(self), o),
    {
        store_counter(self, value)
    }

    /// What the counter is at now.
    pub fn load(&mut self) -> (value: u64)
        ensures
            counter_stores(*final(self)) == counter_stores(*old(self)),
            counter_loads(*final(self)) == counter_loads(*old(self)).push(value),
            final(self).is_handle_like(*old(self)),
            forall|o: SharedCounter|
                #[trigger] on_one_counter(*final(self), o) == on_one_counter(*old(self), o),
    {
        load_counter(self)
    }
}

impl Clone for SharedCounter {
    /// Another handle to the same counter.
    fn clone(&self) -> (result: Self)
        ensures
            counter_stores(result) == Seq::<u64>::empty(),
            counter_loads(result) == Seq::<u64>::empty(),
            result.is_handle_like(*self),
            forall|o: SharedCounter|
                #[trigger] on_one_counter(result, o) == on_one_counter(*self, o),
            forall|o: SharedCounter|
                #[trigger] on_one_counter(o, result) == on_one_counter(o, *self),
    {
        clone_counter(self)
    }
}

/// Two handles that are to the same flags as a third are to the same flags.
pub proof fn law_one_flag(a: SharedFlag, b: SharedFlag, third: SharedFlag)
    requires
        a.is_handle_like(third),
        b.is_handle_like(third),
        on_one_flag(third, third),
    ensures
        a.is_handle_like(b),
        on_one_flag(a, b),
{
    assert(on_one_flag(a, b) == on_one_flag(third, b));
}

/// Two handles that are to the same counters as a third are to the same counters.
pub proof fn law_one_counter(a: SharedCounter, b: SharedCounter, third: SharedCounter)
    requires
        a.is_handle_like(third),
        b.is_handle_like(third),
        on_one_counter(third, third),
    ensures
        a.is_handle_like(b),
        on_one_counter(a, b),
{
    assert(on_one_counter(a, b) == on_one_counter(third, b));
}

} // verus!
