//! The buffer between the streamer and the output device.

use ringbuf::traits::{Consumer, Producer};
use ringbuf::HeapRb;
use vstd::prelude::*;
use crate::sample::{Sample, SILENCE};

verus! {

/// A `ringbuf::HeapRb` of bit patterns.
#[verifier::external_body]
pub struct PatternRing {
    ring: HeapRb<u32>,
}

/// The bit patterns in a ring buffer, the eldest first.
pub uninterp spec fn ring_items(ring: PatternRing) -> Seq<u32>;

/// How many bit patterns a ring buffer has room for.
pub uninterp spec fn ring_capacity(ring: PatternRing) -> nat;

/// Calls `ringbuf::HeapRb::new`: an empty buffer with room for exactly `capacity`
/// items.
#[verifier::external_body]
fn new_ring(capacity: usize) -> (ring: PatternRing)
    requires
        0 < capacity,
        4 * capacity <= isize::MAX,
    ensures
        ring_items(ring) == Seq::<u32>::empty(),
        ring_capacity(ring) == capacity,
{
    PatternRing { ring: HeapRb::new(capacity) }
}

/// Calls `ringbuf::traits::Producer::push_slice`: appends the items in front, as many
/// as there is room for, and says how many those are.
#[verifier::external_body]
fn push_items(ring: &mut PatternRing, items: &[u32]) -> (pushed: usize)
    ensures
        pushed == (if ring_items(*old(ring)).len() + items@.len() <= ring_capacity(*old(ring)) {
            items@.len() as int
        } else {
            ring_capacity(*old(ring)) - ring_items(*old(ring)).len()
        }),
        ring_items(*final(ring)) == ring_items(*old(ring)) + items@.take(pushed as int),
        ring_capacity(*final(ring)) == ring_capacity(*old(ring)),
        pushed <= items@.len(),
{
    ring.ring.push_slice(items)
}

/// Calls `ringbuf::traits::Consumer::try_pop`: takes the eldest item out, if there is
/// one.
#[verifier::external_body]
fn pop_item(ring: &mut PatternRing) -> (item: Option<u32>)
    ensures
        ring_capacity(*final(ring)) == ring_capacity(*old(ring)),
        match item {
            Some(bits) => {
                &&& ring_items(*old(ring)).len() > 0
                &&& bits == ring_items(*old(ring))[0]
                &&& ring_items(*final(ring)) == ring_items(*old(ring)).skip(1)
            },
            None => {
                &&& ring_items(*old(ring)).len() == 0
                &&& ring_items(*final(ring)) == ring_items(*old(ring))
            },
        },
{
    ring.ring.try_pop()
}

/// Calls `ringbuf::traits::Consumer::clear`: takes all items out, and says how many
/// there were.
#[verifier::external_body]
fn clear_items(ring: &mut PatternRing) -> (count: usize)
    ensures
        count == ring_items(*old(ring)).len(),
        ring_items(*final(ring)) == Seq::<u32>::empty(),
        ring_capacity(*final(ring)) == ring_capacity(*old(ring)),
{
    ring.ring.clear()
}

/// Samples on their way to the output device.
pub struct SampleRing {
    ring: PatternRing,
    size: usize,
}

/// The sample that a bit pattern stands for.
pub open spec fn sample_of(bits: u32) -> Sample {
    Sample { bits }
}

impl SampleRing {
    /// The samples in the buffer, the eldest first.
    pub closed spec fn items(self) -> Seq<Sample> {
        ring_items(self.ring).map_values(|bits: u32| sample_of(bits))
    }

    /// How many samples the buffer has room for.
    pub closed spec fn capacity(self) -> nat {
        ring_capacity(self.ring)
    }

    /// The size is on record.
    pub closed spec fn is_sized(self) -> bool {
        self.size == self.capacity()
    }

    /// The buffer never holds more than it has room for.
    pub open spec fn wf(self) -> bool {
        &&& self.items().len() <= self.capacity()
        &&& self.capacity() <= usize::MAX
        &&& self.is_sized()
    }

    /// How many samples still go in.
    pub open spec fn room(self) -> nat {
        (self.capacity() - self.items().len()) as nat
    }

    /// An empty buffer.
    pub fn new(capacity: usize) -> (ring: Self)
        requires
            0 < capacity,
            4 * capacity <= isize::MAX,
        ensures
            ring.wf(),
            ring.items() == Seq::<Sample>::empty(),
            ring.capacity() == capacity,
    {
        let ring: SampleRing = SampleRing { ring: new_ring(capacity), size: capacity };
        assert(ring.items() =~= Seq::<Sample>::empty());
        ring
    }

    /// Appends what of `data` comes from `offset` on, as far as there is room. The
    /// result is where the rest starts.
    pub fn push_from(&mut self, data: &Vec<Sample>, offset: usize) -> (rest: usize)
        requires
            old(self).wf(),
            offset <= data@.len(),
        ensures
            final(self).wf(),
            final(self).capacity() == old(self).capacity(),
            rest == (if data@.len() - offset <= old(self).room() {
                data@.len() as int
            } else {
                offset + old(self).room()
            }),
            final(self).items() == old(self).items() + data@.subrange(offset as int, rest as int),
    {
        let mut patterns: Vec<u32> = Vec::new();
        let mut i: usize = offset;
        while i < data.len()
            invariant
                offset <= i <= data@.len(),
                patterns@ =~= data@.subrange(offset as int, i as int).map_values(
                    |s: Sample| s.bits,
                ),
            decreases data@.len() - i,
        {
            patterns.push(data[i].bits);
            i = i + 1;
        }
        let pushed: usize = push_items(&mut self.ring, patterns.as_slice());
        assert(self.items() =~= old(self).items() + data@.subrange(
            offset as int,
            offset + pushed,
        ));
        offset + pushed
    }

    /// Takes the eldest sample out; silence if there is none.
    pub fn pop(&mut self) -> (sample: Sample)
        requires
            old(self).wf(),
        ensures
            final(self).wf(),
            final(self).capacity() == old(self).capacity(),
            if old(self).items().len() > 0 {
                &&& sample == old(self).items()[0]
                &&& final(self).items() == old(self).items().skip(1)
            } else {
                &&& sample == (Sample { bits: SILENCE })
                &&& final(self).items() == old(self).items()
            },
    {
        let item: Option<u32> = pop_item(&mut self.ring);
        match item {
            Some(bits) => {
                assert(self.items() =~= old(self).items().skip(1));
                Sample { bits }
            },
            None => Sample { bits: SILENCE },
        }
    }

    /// How many samples the buffer has room for.
    pub fn size(&self) -> (size: usize)
        requires
            self.wf(),
        ensures
            size == self.capacity(),
    {
        self.size
    }

    /// Takes all samples out.
    pub fn clear(&mut self)
        requires
            old(self).wf(),
        ensures
            final(self).wf(),
            final(self).items() == Seq::<Sample>::empty(),
            final(self).capacity() == old(self).capacity(),
    {
        let _ = clear_items(&mut self.ring);
        assert(self.items() =~= Seq::<Sample>::empty());
    }
}

} // verus!
