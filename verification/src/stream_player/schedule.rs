//! Which sample a callback is due at next.
//!
//! The next sample is kept apart from the others that wait. A seek can go back, so
//! samples that have come up are remembered too.

use std::collections::BTreeSet;
use vstd::prelude::*;

verus! {

broadcast use vstd::std_specs::btree::group_btree_axioms;

/// `v` is the smallest sample in the set.
pub open spec fn is_least(samples: Set<u64>, v: u64) -> bool {
    &&& samples.contains(v)
    &&& forall|s: u64| #[trigger] samples.contains(s) ==> v <= s
}

/// The smallest sample in the set; zero if it is empty.
pub open spec fn earliest(samples: Set<u64>) -> u64 {
    if exists|v: u64| is_least(samples, v) {
        choose|v: u64| is_least(samples, v)
    } else {
        0
    }
}

/// The samples of the set before a position.
pub open spec fn before(samples: Set<u64>, position: u64) -> Set<u64> {
    samples.filter(|s: u64| s < position)
}

/// The samples of the set from a position on. Zero stands for none and is left out.
pub open spec fn from(samples: Set<u64>, position: u64) -> Set<u64> {
    samples.filter(|s: u64| s >= position && s > 0)
}

/// The items of a set.
fn items_of(set: &BTreeSet<u64>) -> (items: Vec<u64>)
    ensures
        items@.to_set() == set@,
{
    let mut items: Vec<u64> = Vec::new();
    for s in it: set.iter()
        invariant
            items@ =~= it.seq().unref().take(it.index() as int),
            it.seq().unref().to_set() == set@,
            it.index() == it.seq().len() ==> items@.to_set() == set@,
    {
        items.push(*s);
        assert(it.index() + 1 == it.seq().len() ==> items@ =~= it.seq().unref());
    }
    items
}

/// A smallest sample is the earliest.
proof fn lemma_earliest(samples: Set<u64>, v: u64)
    requires
        is_least(samples, v),
    ensures
        earliest(samples) == v,
{
    let other = choose|v: u64| is_least(samples, v);
    assert(is_least(samples, other));
    assert(samples.contains(v) && samples.contains(other));
}

/// The smallest of the samples; zero if there is none.
fn earliest_of(samples: &Vec<u64>) -> (result: u64)
    ensures
        result == earliest(samples@.to_set()),
{
    let ghost set = samples@.to_set();
    if samples.len() == 0 {
        assert(forall|v: u64| !set.contains(v));
        return 0;
    }
    let mut result: u64 = samples[0];
    let mut i: usize = 1;
    while i < samples.len()
        invariant
            0 < i <= samples@.len(),
            samples@.contains(result),
            forall|j: int| 0 <= j < i ==> result <= #[trigger] samples@[j],
        decreases samples@.len() - i,
    {
        if samples[i] < result {
            result = samples[i];
        }
        i = i + 1;
    }
    proof {
        assert forall|s: u64| #[trigger] set.contains(s) implies result <= s by {
            assert(samples@.contains(s));
        }
        lemma_earliest(set, result);
    }
    result
}

/// The samples from a position on, without zero.
fn samples_from(samples: &Vec<u64>, position: u64) -> (later: Vec<u64>)
    ensures
        later@.to_set() == from(samples@.to_set(), position),
{
    let mut later: Vec<u64> = Vec::new();
    let mut i: usize = 0;
    assert(samples@.take(0).to_set() =~= Set::<u64>::empty());
    assert(later@.to_set() =~= from(samples@.take(0).to_set(), position));
    while i < samples.len()
        invariant
            i <= samples@.len(),
            later@.to_set() == from(samples@.take(i as int).to_set(), position),
        decreases samples@.len() - i,
    {
        let s: u64 = samples[i];
        let ghost was = later@;
        proof {
            lemma_next_item(samples@, i as int);
            was.lemma_push_to_set_commute(s);
        }
        if s >= position && s > 0 {
            later.push(s);
        }
        assert(later@.to_set() =~= from(samples@.take(i + 1).to_set(), position));
        i = i + 1;
    }
    assert(samples@.take(i as int) =~= samples@);
    later
}

/// The samples before a position.
fn samples_before(samples: &Vec<u64>, position: u64) -> (earlier: Vec<u64>)
    ensures
        earlier@.to_set() == before(samples@.to_set(), position),
{
    let mut earlier: Vec<u64> = Vec::new();
    let mut i: usize = 0;
    assert(samples@.take(0).to_set() =~= Set::<u64>::empty());
    assert(earlier@.to_set() =~= before(samples@.take(0).to_set(), position));
    while i < samples.len()
        invariant
            i <= samples@.len(),
            earlier@.to_set() == before(samples@.take(i as int).to_set(), position),
        decreases samples@.len() - i,
    {
        let s: u64 = samples[i];
        let ghost was = earlier@;
        proof {
            lemma_next_item(samples@, i as int);
            was.lemma_push_to_set_commute(s);
        }
        if s < position {
            earlier.push(s);
        }
        assert(earlier@.to_set() =~= before(samples@.take(i + 1).to_set(), position));
        i = i + 1;
    }
    assert(samples@.take(i as int) =~= samples@);
    earlier
}

/// One more item of a sequence is one more in its set.
proof fn lemma_next_item(s: Seq<u64>, i: int)
    requires
        0 <= i < s.len(),
    ensures
        s.take(i + 1).to_set() == s.take(i).to_set().insert(s[i]),
{
    assert(s.take(i + 1) =~= s.take(i).push(s[i]));
    s.take(i).lemma_push_to_set_commute(s[i]);
}

/// Puts samples into a set.
fn insert_all(set: &mut BTreeSet<u64>, samples: &Vec<u64>)
    ensures
        final(set)@ == old(set)@.union(samples@.to_set()),
{
    let mut i: usize = 0;
    assert(samples@.take(0).to_set() =~= Set::<u64>::empty());
    assert(set@ =~= old(set)@.union(samples@.take(0).to_set()));
    while i < samples.len()
        invariant
            i <= samples@.len(),
            set@ == old(set)@.union(samples@.take(i as int).to_set()),
        decreases samples@.len() - i,
    {
        proof {
            lemma_next_item(samples@, i as int);
        }
        set.insert(samples[i]);
        assert(set@ =~= old(set)@.union(samples@.take(i + 1).to_set()));
        i = i + 1;
    }
    assert(samples@.take(i as int) =~= samples@);
}

/// The samples that callbacks are due at.
pub struct CallbackSchedule {
    next: u64,
    waiting: BTreeSet<u64>,
    passed: BTreeSet<u64>,
}

/// What can be said of a schedule.
pub ghost struct ScheduleView {
    /// The sample that is due next; zero for none.
    pub next: u64,
    /// The others that are still to come.
    pub waiting: Set<u64>,
    /// Those that a seek can bring back.
    pub passed: Set<u64>,
}

impl ScheduleView {
    /// Nothing is scheduled.
    pub open spec fn empty() -> ScheduleView {
        ScheduleView { next: 0, waiting: Set::empty(), passed: Set::empty() }
    }

    /// After a callback was asked for at a sample, when `elapsed` samples were out. One
    /// that has gone out already is passed over. Zero stands for none: as the earliest of
    /// all it takes the place of the next sample, which has to wait, and nothing is next.
    pub open spec fn registered(self, callback: u64, elapsed: u64) -> ScheduleView {
        if callback < elapsed {
            self
        } else if self.next == 0 {
            ScheduleView { next: callback, ..self }
        } else if callback < self.next {
            ScheduleView { next: callback, waiting: self.waiting.insert(self.next), ..self }
        } else {
            ScheduleView { waiting: self.waiting.insert(callback), ..self }
        }
    }

    /// The next sample has been reached.
    pub open spec fn is_due(self, media: u64) -> bool {
        self.next != 0 && media >= self.next
    }

    /// After the next sample was reached: it has passed, and the earliest that waits takes
    /// its place.
    pub open spec fn fired(self) -> ScheduleView {
        let next = earliest(self.waiting);
        ScheduleView {
            next,
            waiting: self.waiting.remove(next),
            passed: self.passed.insert(self.next),
        }
    }

    /// What a seek to a position leaves to come: the samples from the position on, those
    /// that have passed among them. The next sample is one of them if it lies after the
    /// position.
    pub open spec fn later(self, position: u64) -> Set<u64> {
        let later = from(self.waiting.union(self.passed), position);
        if self.next > position {
            later.insert(self.next)
        } else {
            later
        }
    }

    /// What has passed after a seek to a position: the samples before it, and the next
    /// sample if it does not lie after it.
    pub open spec fn earlier(self, position: u64) -> Set<u64> {
        let earlier = before(self.waiting.union(self.passed), position);
        if 0 < self.next <= position {
            earlier.insert(self.next)
        } else {
            earlier
        }
    }

    /// After a seek to a position, forward or back.
    pub open spec fn sought(self, position: u64) -> ScheduleView {
        let later = self.later(position);
        let next = earliest(later);
        ScheduleView { next, waiting: later.remove(next), passed: self.earlier(position) }
    }
}

impl View for CallbackSchedule {
    type V = ScheduleView;

    closed spec fn view(&self) -> ScheduleView {
        ScheduleView { next: self.next, waiting: self.waiting@, passed: self.passed@ }
    }
}

impl CallbackSchedule {
    /// Nothing is scheduled.
    pub fn new() -> (schedule: Self)
        ensures
            schedule@ == ScheduleView::empty(),
    {
        CallbackSchedule { next: 0, waiting: BTreeSet::new(), passed: BTreeSet::new() }
    }

    /// A callback is asked for at a sample, when `elapsed` samples are out.
    pub fn register(&mut self, callback: u64, elapsed: u64)
        ensures
            final(self)@ == old(self)@.registered(callback, elapsed),
            final(self)@.passed == old(self)@.passed,
            callback < elapsed ==> final(self)@.next == old(self)@.next && final(self)@.waiting
                == old(self)@.waiting,
            callback >= elapsed && old(self)@.next == 0 ==> final(self)@.next == callback
                && final(self)@.waiting == old(self)@.waiting,
            callback >= elapsed && 0 <= callback < old(self)@.next ==> final(self)@.next == callback
                && final(self)@.waiting == old(self)@.waiting.insert(old(self)@.next),
            callback >= elapsed && callback >= old(self)@.next > 0 ==> final(self)@.next == old(
                self,
            )@.next && final(self)@.waiting == old(self)@.waiting.insert(callback),
    {
        if callback < elapsed {
            return;
        }
        if self.next == 0 {
            self.next = callback;
        } else if callback < self.next {
            self.waiting.insert(self.next);
            self.next = callback;
        } else {
            self.waiting.insert(callback);
        }
    }

    /// The sample that is due, if playback has reached it. It is due once.
    pub fn poll(&mut self, media: u64) -> (due: Option<u64>)
        ensures
            old(self)@.is_due(media) ==> due == Some(old(self)@.next) && final(self)@ == old(
                self,
            )@.fired(),
            !old(self)@.is_due(media) ==> due is None && final(self)@ == old(self)@,
            due is Some <==> old(self)@.next != 0 && media >= old(self)@.next,
            due matches Some(sample) ==> sample == old(self)@.next && final(self)@.passed == old(
                self,
            )@.passed.insert(sample),
            due is None ==> final(self)@ == old(self)@,
            // The earliest that waits is next.
            due is Some && !old(self)@.waiting.contains(0) ==> {
                &&& !final(self)@.waiting.contains(final(self)@.next)
                &&& forall|s: u64| #[trigger]
                    old(self)@.waiting.contains(s) <==> final(self)@.waiting.contains(s) || (s
                        == final(self)@.next && s != 0)
                &&& forall|s: u64| #[trigger]
                    final(self)@.waiting.contains(s) ==> 0 < final(self)@.next <= s
            },
    {
        let target: u64 = self.next;
        if target == 0 || media < target {
            return None;
        }
        let items: Vec<u64> = items_of(&self.waiting);
        let next: u64 = earliest_of(&items);
        self.waiting.remove(&next);
        self.passed.insert(target);
        self.next = next;
        proof {
            if !old(self)@.waiting.contains(0) {
                lemma_earliest_positive(old(self)@.waiting);
            }
        }
        Some(target)
    }

    /// Playback goes to a position.
    pub fn seek(&mut self, position: u64)
        ensures
            final(self)@ == old(self)@.sought(position),
            // What lies before the position has passed, and the next sample if it does not lie
            // after it.
            forall|s: u64| #[trigger]
                final(self)@.passed.contains(s) <==> ((old(self)@.waiting.contains(s) || old(
                    self,
                )@.passed.contains(s)) && s < position) || (s == old(self)@.next && 0 < s
                    <= position),
            // All the rest is to come, also what had passed, and the earliest of it is next.
            forall|s: u64|
                (#[trigger] final(self)@.waiting.contains(s) || (s == final(self)@.next && s > 0))
                    <==> ((old(self)@.waiting.contains(s) || old(self)@.passed.contains(s)) && s
                    >= position && s > 0) || (s == old(self)@.next && s > position),
            forall|s: u64| #[trigger]
                final(self)@.waiting.contains(s) ==> 0 < final(self)@.next < s,
    {
        let waiting: Vec<u64> = items_of(&self.waiting);
        let passed: Vec<u64> = items_of(&self.passed);
        let mut later: BTreeSet<u64> = BTreeSet::new();
        let mut earlier: BTreeSet<u64> = BTreeSet::new();
        insert_all(&mut later, &samples_from(&waiting, position));
        insert_all(&mut later, &samples_from(&passed, position));
        insert_all(&mut earlier, &samples_before(&waiting, position));
        insert_all(&mut earlier, &samples_before(&passed, position));
        if self.next > position {
            later.insert(self.next);
        } else if self.next > 0 {
            earlier.insert(self.next);
        }
        assert(later@ =~= self@.later(position));
        assert(earlier@ =~= self@.earlier(position));
        let coming: Vec<u64> = items_of(&later);
        let next: u64 = earliest_of(&coming);
        later.remove(&next);
        proof {
            lemma_earliest_positive(self@.later(position));
        }
        self.next = next;
        self.waiting = later;
        self.passed = earlier;
    }
}

impl ScheduleView {
    /// All samples that are still to come.
    pub open spec fn coming(self) -> Set<u64> {
        if self.next == 0 {
            self.waiting
        } else {
            self.waiting.insert(self.next)
        }
    }

    /// All samples that the schedule knows of.
    pub open spec fn known(self) -> Set<u64> {
        self.coming().union(self.passed)
    }

    /// Zero is no sample: it neither waits nor has passed.
    pub open spec fn is_zero_free(self) -> bool {
        !self.waiting.contains(0) && !self.passed.contains(0)
    }

    /// The next sample is the earliest of those to come, and there is one as long as
    /// any waits.
    pub open spec fn in_order(self) -> bool {
        &&& self.is_zero_free()
        &&& self.next == 0 ==> self.waiting == Set::<u64>::empty()
        &&& forall|s: u64| #[trigger] self.waiting.contains(s) ==> s >= self.next
    }
}

/// A set that is not empty has a smallest sample.
proof fn lemma_least_exists(samples: Set<u64>, v: u64)
    requires
        samples.contains(v),
    ensures
        is_least(samples, earliest(samples)),
    decreases v,
{
    if forall|s: u64| #[trigger] samples.contains(s) ==> v <= s {
        assert(is_least(samples, v));
    } else {
        let s = choose|s: u64| #[trigger] samples.contains(s) && s < v;
        lemma_least_exists(samples, s);
    }
}

/// The earliest of a set of samples without zero is zero exactly if the set is empty.
proof fn lemma_earliest_positive(samples: Set<u64>)
    requires
        !samples.contains(0),
    ensures
        earliest(samples) == 0 ==> samples == Set::<u64>::empty(),
        earliest(samples) != 0 ==> is_least(samples, earliest(samples)),
{
    if exists|v: u64| samples.contains(v) {
        lemma_least_exists(samples, choose|v: u64| samples.contains(v));
    }
    assert(earliest(samples) == 0 ==> samples =~= Set::<u64>::empty());
}

/// A schedule starts in order.
pub proof fn law_empty_in_order()
    ensures
        ScheduleView::empty().in_order(),
        ScheduleView::empty().coming() == Set::<u64>::empty(),
{
}

/// Asking for a callback at a sample other than zero keeps the schedule in order and adds
/// that sample to those to come, unless it has gone out.
pub proof fn law_registered(schedule: ScheduleView, callback: u64, elapsed: u64)
    requires
        schedule.in_order(),
        callback > 0,
    ensures
        schedule.registered(callback, elapsed).in_order(),
        schedule.registered(callback, elapsed).coming() == (if callback < elapsed {
            schedule.coming()
        } else {
            schedule.coming().insert(callback)
        }),
        schedule.registered(callback, elapsed).passed == schedule.passed,
{
    let after = schedule.registered(callback, elapsed);
    assert(after.coming() =~= (if callback < elapsed {
        schedule.coming()
    } else {
        schedule.coming().insert(callback)
    }));
}

/// Asking for a callback at zero before anything is out loses no sample, but nothing comes
/// up until another callback is asked for or playback goes elsewhere.
pub proof fn law_registered_zero(schedule: ScheduleView)
    requires
        schedule.is_zero_free(),
    ensures
        schedule.registered(0, 0).next == 0,
        schedule.registered(0, 0).is_zero_free(),
        schedule.registered(0, 0).known() == schedule.known(),
        forall|media: u64| !#[trigger] schedule.registered(0, 0).is_due(media),
{
    assert(schedule.registered(0, 0).known() =~= schedule.known());
}

/// It does not matter in which order callbacks are asked for.
pub proof fn law_registration_order(schedule: ScheduleView, a: u64, b: u64, elapsed: u64)
    requires
        schedule.in_order(),
        a > 0,
        b > 0,
    ensures
        schedule.registered(a, elapsed).registered(b, elapsed).coming() == schedule.registered(
            b,
            elapsed,
        ).registered(a, elapsed).coming(),
{
    law_registered(schedule, a, elapsed);
    law_registered(schedule, b, elapsed);
    law_registered(schedule.registered(a, elapsed), b, elapsed);
    law_registered(schedule.registered(b, elapsed), a, elapsed);
    assert(schedule.coming().insert(a).insert(b) =~= schedule.coming().insert(b).insert(a));
}

/// Whatever was asked for, the schedule is in order once a sample has come up: what waited
/// is what comes after it, and it has passed.
pub proof fn law_fired_in_order(schedule: ScheduleView)
    requires
        schedule.is_zero_free(),
        schedule.next != 0,
    ensures
        schedule.fired().in_order(),
        schedule.fired().coming() == schedule.waiting,
        schedule.fired().passed == schedule.passed.insert(schedule.next),
{
    let waiting = schedule.waiting;
    lemma_earliest_positive(waiting);
    let next = earliest(waiting);
    if next == 0 {
        assert(schedule.fired().waiting =~= Set::<u64>::empty());
        assert(schedule.fired().coming() =~= waiting);
    } else {
        assert(waiting.remove(next).insert(next) =~= waiting);
    }
}

/// Samples come up one after the other: the one that is due is the earliest of all to come.
pub proof fn law_fired(schedule: ScheduleView)
    requires
        schedule.in_order(),
        schedule.next != 0,
    ensures
        is_least(schedule.coming(), schedule.next),
        schedule.fired().in_order(),
        schedule.fired().coming() == schedule.waiting,
{
    law_fired_in_order(schedule);
}

/// Whatever was asked for, the schedule is in order after a seek, forward or back. What it
/// leaves to come lies at the position or after it.
pub proof fn law_sought_in_order(schedule: ScheduleView, position: u64)
    requires
        schedule.is_zero_free(),
    ensures
        schedule.sought(position).in_order(),
        schedule.sought(position).coming() == schedule.later(position),
        forall|s: u64| #[trigger]
            schedule.sought(position).coming().contains(s) ==> s >= position && s > 0,
{
    let later = schedule.later(position);
    lemma_earliest_positive(later);
    let next = earliest(later);
    if next != 0 {
        assert(later.remove(next).insert(next) =~= later);
    } else {
        assert(later.remove(next) =~= Set::<u64>::empty());
        assert(schedule.sought(position).coming() =~= later);
    }
}

/// A callback comes up again after a seek back: every sample that has passed at the position
/// or after it is to come afterwards. So is the one that was next, and all that waited, as
/// far as they lie after the position.
pub proof fn law_sought_back(schedule: ScheduleView, position: u64)
    requires
        schedule.is_zero_free(),
    ensures
        forall|s: u64| #[trigger]
            schedule.passed.contains(s) && s >= position ==> schedule.sought(
                position,
            ).coming().contains(s),
        position < schedule.next ==> schedule.sought(position).coming().contains(schedule.next),
        forall|s: u64| #[trigger]
            schedule.waiting.contains(s) && s >= position ==> schedule.sought(
                position,
            ).coming().contains(s),
{
    law_sought_in_order(schedule, position);
}

/// What has come up comes up again after a seek to its sample or before it.
pub proof fn law_fired_comes_again(schedule: ScheduleView, position: u64)
    requires
        schedule.is_zero_free(),
        schedule.next != 0,
        position <= schedule.next,
    ensures
        schedule.fired().sought(position).coming().contains(schedule.next),
{
    law_fired_in_order(schedule);
    law_sought_back(schedule.fired(), position);
    assert(schedule.fired().passed.contains(schedule.next));
}

/// A seek forward passes over the samples before the position, the one that was next among
/// them.
pub proof fn law_sought_forward(schedule: ScheduleView, position: u64)
    requires
        schedule.is_zero_free(),
        0 < schedule.next <= position,
    ensures
        schedule.sought(position).passed.contains(schedule.next),
        forall|s: u64| #[trigger]
            schedule.waiting.contains(s) && s < position ==> schedule.sought(
                position,
            ).passed.contains(s),
{
}

/// No sample is lost: what the schedule knows of stays known, whether it comes up or playback
/// goes elsewhere.
pub proof fn law_nothing_is_lost(schedule: ScheduleView, position: u64)
    requires
        schedule.is_zero_free(),
    ensures
        schedule.next != 0 ==> schedule.fired().known() == schedule.known(),
        schedule.sought(position).known() == schedule.known(),
{
    if schedule.next != 0 {
        law_fired_in_order(schedule);
        assert(schedule.fired().known() =~= schedule.known());
    }
    law_sought_in_order(schedule, position);
    assert(schedule.sought(position).known() =~= schedule.known());
}

impl ScheduleView {
    /// After `count` samples have come up.
    pub open spec fn fired_times(self, count: nat) -> ScheduleView
        decreases count,
    {
        if count == 0 {
            self
        } else {
            self.fired().fired_times((count - 1) as nat)
        }
    }
}

/// Each sample that is to come does come up once playback has reached it: after some others,
/// all of which are due by then, it is next.
pub proof fn law_each_comes_up(schedule: ScheduleView, sample: u64)
    requires
        schedule.in_order(),
        schedule.coming().contains(sample),
    ensures
        exists|count: nat| #[trigger]
            schedule.fired_times(count).next == sample && forall|c: nat|
                c <= count ==> #[trigger] schedule.fired_times(c).is_due(sample),
    decreases
            sample - schedule.next,
            (if schedule.waiting.contains(schedule.next) {
                1int
            } else {
                0int
            }),
{
    assert(schedule.next != 0);
    law_fired(schedule);
    assert(schedule.next <= sample);
    if schedule.next == sample {
        let count: nat = 0;
        assert(schedule.fired_times(count).next == sample);
        assert forall|c: nat| c <= count implies #[trigger] schedule.fired_times(c).is_due(sample) by {
            assert(c == 0);
        }
    } else {
        let after = schedule.fired();
        lemma_least_exists(schedule.waiting, sample);
        assert(schedule.waiting.contains(after.next));
        law_each_comes_up(after, sample);
        let rest = choose|count: nat| #[trigger]
            after.fired_times(count).next == sample && forall|c: nat|
                c <= count ==> #[trigger] after.fired_times(c).is_due(sample);
        let count = rest + 1;
        assert(schedule.fired_times(count).next == sample);
        assert forall|c: nat| c <= count implies #[trigger] schedule.fired_times(c).is_due(sample) by {
            if c > 0 {
                assert(schedule.fired_times(c) == after.fired_times((c - 1) as nat));
            }
        }
    }
}

} // verus!
