//! Which records a store keeps: operator-driven pruning and automatic, bounded
//! retention.

use crate::event::{EventEnvelope, EventView};
use crate::model::{
    is_subsequence, lemma_filter_all, lemma_filter_is_subsequence, lemma_filter_take,
    lemma_skip_is_subsequence, views,
};
use crate::time::{at_or_after, elapsed, TimeSpan, Timestamp, TimestampView};
use std::collections::HashSet;
use vstd::prelude::*;

verus! {

/// A record that a store can hold: it has a time, and it can be copied.
pub trait Record: View + Sized {
    /// The time of a record with these values.
    spec fn time_of(record: Self::V) -> TimestampView;

    fn timestamp(&self) -> (r: Timestamp)
        ensures
            r@ == Self::time_of(self@),
    ;

    fn duplicate(&self) -> (r: Self)
        ensures
            r@ == self@,
    ;
}

impl Record for EventEnvelope {
    open spec fn time_of(record: EventView) -> TimestampView {
        record.timestamp
    }

    fn timestamp(&self) -> (r: Timestamp) {
        self.timestamp
    }

    fn duplicate(&self) -> (r: EventEnvelope) {
        self.clone()
    }
}

/// How a store decides which records to keep when an operator prunes it.
#[derive(Debug, Clone, Copy)]
pub enum ManualRetention {
    /// Keep records whose time is at or after the cutoff; remove older ones.
    OlderThan(Timestamp),
    /// Keep only the most recent records by append order; remove the rest.
    KeepMostRecent(usize),
}

/// The last `n` items of a sequence.
pub open spec fn most_recent<A>(items: Seq<A>, n: int) -> Seq<A> {
    if items.len() > n {
        items.skip(items.len() - n)
    } else {
        items
    }
}

/// The records that pruning keeps, in their order.
pub open spec fn pruned<T: Record>(records: Seq<T::V>, policy: ManualRetention) -> Seq<T::V> {
    match policy {
        ManualRetention::OlderThan(cutoff) => records.filter(
            |record: T::V| at_or_after(T::time_of(record), cutoff@),
        ),
        ManualRetention::KeepMostRecent(n) => most_recent(records, n as int),
    }
}

/// Copies of `items` from position `from` on.
pub(crate) fn copy_from<T: Record>(items: &Vec<T>, from: usize) -> (r: Vec<T>)
    requires
        from <= items@.len(),
    ensures
        views(r@) == views(items@).skip(from as int),
{
    let mut out: Vec<T> = Vec::new();
    let mut i: usize = from;
    while i < items.len()
        invariant
            from <= i <= items@.len(),
            out@.len() == i - from,
            forall|j: int| 0 <= j < out@.len() ==> (#[trigger] out@[j])@ == items@[from + j]@,
        decreases items@.len() - i,
    {
        out.push(items[i].duplicate());
        i += 1;
    }
    assert(views(out@) =~= views(items@).skip(from as int));
    out
}

/// Copies of all `items`.
pub(crate) fn copy_all<T: Record>(items: &Vec<T>) -> (r: Vec<T>)
    ensures
        views(r@) == views(items@),
{
    let out = copy_from(items, 0);
    assert(views(items@).skip(0) =~= views(items@));
    out
}

impl ManualRetention {
    /// The records to keep, in order.
    pub fn keep<T: Record>(&self, items: &Vec<T>) -> (r: Vec<T>)
        ensures
            views(r@) == pruned::<T>(views(items@), *self),
            r@.len() <= items@.len(),
    {
        match *self {
            ManualRetention::OlderThan(cutoff) => {
                let ghost all = views(items@);
                let ghost fresh = |record: T::V| at_or_after(T::time_of(record), cutoff@);
                let mut out: Vec<T> = Vec::new();
                let mut i: usize = 0;
                assert(all.take(0).filter(fresh) =~= Seq::<T::V>::empty()) by {
                    reveal(Seq::filter);
                }
                while i < items.len()
                    invariant
                        i <= items@.len(),
                        all == views(items@),
                        fresh == (|record: T::V| at_or_after(T::time_of(record), cutoff@)),
                        views(out@) == all.take(i as int).filter(fresh),
                        out@.len() <= i,
                    decreases items@.len() - i,
                {
                    proof {
                        lemma_filter_take(all, i as int, fresh);
                    }
                    let before = Ghost(out@);
                    if items[i].timestamp().at_or_after(&cutoff) {
                        out.push(items[i].duplicate());
                        assert(views(out@) =~= views(before@).push(all[i as int]));
                    }
                    i += 1;
                }
                assert(all.take(i as int) =~= all);
                out
            },
            ManualRetention::KeepMostRecent(max) => {
                let skip: usize = if items.len() > max {
                    items.len() - max
                } else {
                    0
                };
                let out = copy_from(items, skip);
                assert(views(items@).skip(0) =~= views(items@));
                assert(views(out@).len() == out@.len());
                out
            },
        }
    }
}

/// An automatic retention policy. Every bound is optional; without any, nothing is
/// removed. A *delivered* event is removed once it is older than `delivered_grace`. Any
/// event, delivered or not, is removed once it crosses a hard bound (`max_age`,
/// `max_count` or `max_bytes`): the valve that keeps a store from growing without limit
/// even if delivery stalls.
#[derive(Debug, Clone, Copy)]
pub struct AutoRetention {
    /// Remove a delivered event once it is older than this.
    pub delivered_grace: Option<TimeSpan>,
    /// Remove any event older than this, delivered or not.
    pub max_age: Option<TimeSpan>,
    /// Keep at most this many of the most recent events by append order.
    pub max_count: Option<usize>,
    /// Keep at most this many serialized bytes, dropping the oldest first.
    pub max_bytes: Option<u64>,
}

/// The bounds of an [`AutoRetention`], with spans in nanoseconds.
pub struct RetentionView {
    pub delivered_grace: Option<int>,
    pub max_age: Option<int>,
    pub max_count: Option<usize>,
    pub max_bytes: Option<u64>,
}

/// The length of an optional span, in nanoseconds.
pub open spec fn opt_span(span: Option<TimeSpan>) -> Option<int> {
    match span {
        Some(span) => Some(span@),
        None => None,
    }
}

impl View for AutoRetention {
    type V = RetentionView;

    open spec fn view(&self) -> RetentionView {
        RetentionView {
            delivered_grace: opt_span(self.delivered_grace),
            max_age: opt_span(self.max_age),
            max_count: self.max_count,
            max_bytes: self.max_bytes,
        }
    }
}

/// A policy without any bound.
pub open spec fn no_bounds() -> RetentionView {
    RetentionView { delivered_grace: None, max_age: None, max_count: None, max_bytes: None }
}

impl Default for AutoRetention {
    fn default() -> (r: AutoRetention)
        ensures
            r@ == no_bounds(),
    {
        AutoRetention { delivered_grace: None, max_age: None, max_count: None, max_bytes: None }
    }
}

impl AutoRetention {
    /// The policy that retains everything.
    pub fn unbounded() -> (r: AutoRetention)
        ensures
            r@ == no_bounds(),
    {
        AutoRetention::default()
    }

    /// Whether the policy imposes no bound, so that a store can skip the work.
    pub fn is_unbounded(&self) -> (r: bool)
        ensures
            r == (self@ == no_bounds()),
    {
        self.delivered_grace.is_none() && self.max_age.is_none() && self.max_count.is_none()
            && self.max_bytes.is_none()
    }
}

/// Whether a record of this time is past the hard age bound.
pub open spec fn past_max_age(
    time: TimestampView,
    policy: RetentionView,
    now: TimestampView,
) -> bool {
    policy.max_age matches Some(limit) && elapsed(now, time) > limit
}

/// Whether an event is delivered and past the grace window.
pub open spec fn past_grace(
    event: EventView,
    delivered: Set<u128>,
    policy: RetentionView,
    now: TimestampView,
) -> bool {
    policy.delivered_grace matches Some(limit) && delivered.contains(event.id) && elapsed(
        now,
        event.timestamp,
    ) > limit
}

/// The serialized size of the record at position `i`; a record without a known size
/// weighs nothing.
pub open spec fn size_at(sizes: Seq<u64>, i: int) -> int {
    if 0 <= i < sizes.len() {
        sizes[i] as int
    } else {
        0
    }
}

/// Records with their serialized sizes.
pub open spec fn weighed<V>(records: Seq<V>, sizes: Seq<u64>) -> Seq<(V, int)> {
    Seq::new(records.len(), |i: int| (records[i], size_at(sizes, i)))
}

/// The records of a weighed sequence.
pub open spec fn records_of<V>(items: Seq<(V, int)>) -> Seq<V> {
    Seq::new(items.len(), |i: int| items[i].0)
}

/// The sizes of a weighed sequence.
pub open spec fn sizes_of<V>(items: Seq<(V, int)>) -> Seq<int> {
    Seq::new(items.len(), |i: int| items[i].1)
}

/// The sum of sizes.
pub open spec fn total(sizes: Seq<int>) -> int
    decreases sizes.len(),
{
    if sizes.len() == 0 {
        0
    } else {
        sizes[0] + total(sizes.drop_first())
    }
}

/// How many of the oldest records must go until the rest fits in `max` bytes.
pub open spec fn overweight(sizes: Seq<int>, max: int) -> int
    decreases sizes.len(),
{
    if sizes.len() == 0 || total(sizes) <= max {
        0
    } else {
        1 + overweight(sizes.drop_first(), max)
    }
}

/// How many of the oldest records exceed the count bound.
pub open spec fn over_count(len: int, max_count: Option<usize>) -> int {
    match max_count {
        Some(max) => if len > max {
            len - max
        } else {
            0
        },
        None => 0,
    }
}

/// The position of the first record that the count and byte bounds keep.
pub open spec fn first_kept(sizes: Seq<int>, policy: RetentionView) -> int {
    let start = over_count(sizes.len() as int, policy.max_count);
    match policy.max_bytes {
        Some(max) => start + overweight(sizes.skip(start), max as int),
        None => start,
    }
}

/// The records that the count and byte bounds keep: the most recent ones.
pub open spec fn size_bounded<V>(items: Seq<(V, int)>, policy: RetentionView) -> Seq<(V, int)> {
    items.skip(first_kept(sizes_of(items), policy))
}

/// The events that age and delivery let stay, with their sizes.
pub open spec fn live_events(
    events: Seq<EventView>,
    sizes: Seq<u64>,
    delivered: Set<u128>,
    policy: RetentionView,
    now: TimestampView,
) -> Seq<(EventView, int)> {
    weighed(events, sizes).filter(
        |item: (EventView, int)|
            !past_max_age(item.0.timestamp, policy, now) && !past_grace(
                item.0,
                delivered,
                policy,
                now,
            ),
    )
}

/// The events that automatic retention keeps: those that age and delivery let stay,
/// bounded by count and then by bytes.
pub open spec fn retained_events(
    events: Seq<EventView>,
    sizes: Seq<u64>,
    delivered: Set<u128>,
    policy: RetentionView,
    now: TimestampView,
) -> Seq<EventView> {
    records_of(size_bounded(live_events(events, sizes, delivered, policy, now), policy))
}

/// The records that are not past the age bound, with their sizes.
pub open spec fn young_records<T: Record>(
    records: Seq<T::V>,
    sizes: Seq<u64>,
    policy: RetentionView,
    now: TimestampView,
) -> Seq<(T::V, int)> {
    weighed(records, sizes).filter(
        |item: (T::V, int)| !past_max_age(T::time_of(item.0), policy, now),
    )
}

/// The dead triggers that automatic retention keeps. They have no delivery state, so
/// only the hard bounds apply.
pub open spec fn retained_records<T: Record>(
    records: Seq<T::V>,
    sizes: Seq<u64>,
    policy: RetentionView,
    now: TimestampView,
) -> Seq<T::V> {
    records_of(size_bounded(young_records::<T>(records, sizes, policy, now), policy))
}

// ---------------------------------------------------------------------------------------
// Sizes

proof fn lemma_total_nonnegative(sizes: Seq<int>)
    requires
        forall|i: int| 0 <= i < sizes.len() ==> #[trigger] sizes[i] >= 0,
    ensures
        total(sizes) >= 0,
    decreases sizes.len(),
{
    if sizes.len() > 0 {
        lemma_total_nonnegative(sizes.drop_first());
    }
}

/// Fewer of the most recent records weigh no more.
proof fn lemma_total_skip(sizes: Seq<int>, n: int)
    requires
        0 <= n <= sizes.len(),
        forall|i: int| 0 <= i < sizes.len() ==> #[trigger] sizes[i] >= 0,
    ensures
        0 <= total(sizes.skip(n)) <= total(sizes),
    decreases n,
{
    lemma_total_nonnegative(sizes.skip(n));
    if n == 0 {
        assert(sizes.skip(0) =~= sizes);
    } else {
        lemma_total_skip(sizes.drop_first(), n - 1);
        assert(sizes.drop_first().skip(n - 1) =~= sizes.skip(n));
    }
}

/// The number of records to drop is the least one after which the rest fits.
proof fn lemma_overweight(sizes: Seq<int>, max: int, n: int)
    requires
        0 <= n <= sizes.len(),
        forall|i: int| 0 <= i < sizes.len() ==> #[trigger] sizes[i] >= 0,
        n < sizes.len() ==> total(sizes.skip(n)) <= max,
        n > 0 ==> total(sizes.skip(n - 1)) > max,
    ensures
        overweight(sizes, max) == n,
    decreases n,
{
    if n == 0 {
        assert(sizes.skip(0) =~= sizes);
    } else {
        lemma_total_skip(sizes, n - 1);
        let rest = sizes.drop_first();
        assert(rest.skip(n - 1) =~= sizes.skip(n));
        if n > 1 {
            assert(rest.skip(n - 2) =~= sizes.skip(n - 1));
        }
        lemma_overweight(rest, max, n - 1);
    }
}

/// The number of records to drop never exceeds what there is, and the rest fits.
proof fn lemma_overweight_bounds(sizes: Seq<int>, max: int)
    requires
        max >= 0,
    ensures
        0 <= overweight(sizes, max) <= sizes.len(),
        total(sizes.skip(overweight(sizes, max))) <= max,
    decreases sizes.len(),
{
    if sizes.len() == 0 || total(sizes) <= max {
        assert(sizes.skip(0) =~= sizes);
    } else {
        lemma_overweight_bounds(sizes.drop_first(), max);
        let n = overweight(sizes.drop_first(), max);
        assert(sizes.drop_first().skip(n) =~= sizes.skip(n + 1));
    }
}

proof fn lemma_first_kept_bounds(sizes: Seq<int>, policy: RetentionView)
    ensures
        0 <= first_kept(sizes, policy) <= sizes.len(),
{
    if let Some(max) = policy.max_bytes {
        let start = over_count(sizes.len() as int, policy.max_count);
        lemma_overweight_bounds(sizes.skip(start), max as int);
    }
}

/// The sizes of `sizes` as numbers.
spec fn as_ints(sizes: Seq<u64>) -> Seq<int> {
    Seq::new(sizes.len(), |i: int| sizes[i] as int)
}

/// Bound an ordered set by `max_count` and then `max_bytes`, dropping the oldest first:
/// the position of the first record to keep, given the size of each.
pub fn apply_size_bounds(sizes: &Vec<u64>, policy: &AutoRetention) -> (r: usize)
    ensures
        r == first_kept(Seq::new(sizes@.len(), |i: int| sizes@[i] as int), policy@),
        r <= sizes@.len(),
{
    let ghost all = as_ints(sizes@);
    assert(all =~= Seq::new(sizes@.len(), |i: int| sizes@[i] as int));
    let start: usize = match policy.max_count {
        Some(max) => if sizes.len() > max {
            sizes.len() - max
        } else {
            0
        },
        None => 0,
    };
    match policy.max_bytes {
        None => start,
        Some(max_bytes) => {
            // Walk from the newest to the oldest record while the budget lasts.
            let ghost recent = all.skip(start as int);
            let mut budget: u64 = max_bytes;
            let mut first: usize = sizes.len();
            assert(recent.skip(recent.len() as int) =~= Seq::<int>::empty());
            while first > start && sizes[first - 1] <= budget
                invariant
                    start <= first <= sizes@.len(),
                    recent == all.skip(start as int),
                    all == as_ints(sizes@),
                    total(recent.skip(first - start)) == max_bytes - budget,
                    budget <= max_bytes,
                decreases first,
            {
                let ghost longer = recent.skip(first - 1 - start);
                assert(longer.drop_first() =~= recent.skip(first - start));
                assert(longer[0] == sizes@[first - 1]);
                budget = budget - sizes[first - 1];
                first -= 1;
            }
            proof {
                let n = first - start;
                if n > 0 {
                    let longer = recent.skip(n - 1);
                    assert(longer.drop_first() =~= recent.skip(n));
                    assert(longer[0] == sizes@[first - 1]);
                }
                lemma_overweight(recent, max_bytes as int, n);
            }
            first
        },
    }
}

/// The positions of the items that are kept, as a sequence of those items.
spec fn picked<A>(items: Seq<A>, positions: Seq<usize>) -> Seq<A> {
    Seq::new(positions.len(), |k: int| items[positions[k] as int])
}

/// Given the positions that passed the age filter, copy what the size bounds keep.
fn take_bounded<T: Record>(
    items: &Vec<T>,
    sizes: &Vec<u64>,
    positions: &Vec<usize>,
    policy: &AutoRetention,
) -> (r: Vec<T>)
    requires
        forall|k: int| 0 <= k < positions@.len() ==> #[trigger] positions@[k] < items@.len(),
    ensures
        views(r@) == records_of(
            size_bounded(picked(weighed(views(items@), sizes@), positions@), policy@),
        ),
        r@.len() <= positions@.len(),
{
    let ghost all = weighed(views(items@), sizes@);
    let ghost live = picked(all, positions@);
    let mut live_sizes: Vec<u64> = Vec::new();
    let mut k: usize = 0;
    while k < positions.len()
        invariant
            k <= positions@.len(),
            all == weighed(views(items@), sizes@),
            live == picked(all, positions@),
            forall|j: int| 0 <= j < positions@.len() ==> #[trigger] positions@[j] < items@.len(),
            live_sizes@.len() == k,
            forall|j: int| 0 <= j < k ==> #[trigger] live_sizes@[j] == live[j].1,
        decreases positions@.len() - k,
    {
        let at: usize = positions[k];
        if at < sizes.len() {
            live_sizes.push(sizes[at]);
        } else {
            live_sizes.push(0);
        }
        k += 1;
    }
    assert(sizes_of(live) =~= Seq::new(live_sizes@.len(), |i: int| live_sizes@[i] as int));
    let start = apply_size_bounds(&live_sizes, policy);
    let mut out: Vec<T> = Vec::new();
    let mut k: usize = start;
    while k < positions.len()
        invariant
            start <= k <= positions@.len(),
            all == weighed(views(items@), sizes@),
            live == picked(all, positions@),
            forall|j: int| 0 <= j < positions@.len() ==> #[trigger] positions@[j] < items@.len(),
            out@.len() == k - start,
            forall|j: int| 0 <= j < out@.len() ==> (#[trigger] out@[j])@ == live[start + j].0,
        decreases positions@.len() - k,
    {
        out.push(items[positions[k]].duplicate());
        k += 1;
    }
    assert(views(out@) =~= records_of(size_bounded(live, policy@)));
    out
}

/// The events to keep, in append order, under `policy` evaluated at `now`. `sizes` gives
/// the serialized size of each event; it matters only to the byte bound.
pub fn retain_events(
    events: &Vec<EventEnvelope>,
    sizes: &Vec<u64>,
    delivered: &HashSet<u128>,
    policy: &AutoRetention,
    now: &Timestamp,
) -> (r: Vec<EventEnvelope>)
    ensures
        views(r@) == retained_events(views(events@), sizes@, delivered@, policy@, now@),
        r@.len() <= events@.len(),
{
    broadcast use vstd::std_specs::hash::group_hash_axioms;

    let ghost all = weighed(views(events@), sizes@);
    let ghost stays = |item: (EventView, int)|
        !past_max_age(item.0.timestamp, policy@, now@) && !past_grace(
            item.0,
            delivered@,
            policy@,
            now@,
        );
    let mut positions: Vec<usize> = Vec::new();
    let mut i: usize = 0;
    assert(picked(all, positions@) =~= all.take(0).filter(stays)) by {
        reveal(Seq::filter);
    }
    while i < events.len()
        invariant
            i <= events@.len(),
            all == weighed(views(events@), sizes@),
            stays == (|item: (EventView, int)|
                !past_max_age(item.0.timestamp, policy@, now@) && !past_grace(
                    item.0,
                    delivered@,
                    policy@,
                    now@,
                )),
            forall|k: int| 0 <= k < positions@.len() ==> #[trigger] positions@[k] < i,
            picked(all, positions@) == all.take(i as int).filter(stays),
            positions@.len() <= i,
        decreases events@.len() - i,
    {
        proof {
            lemma_filter_take(all, i as int, stays);
        }
        let age = now.since(&events[i].timestamp);
        let too_old = match &policy.max_age {
            Some(limit) => age.exceeds(limit),
            None => false,
        };
        let cleaned_up = match &policy.delivered_grace {
            Some(limit) => delivered.contains(&events[i].id.bits()) && age.exceeds(limit),
            None => false,
        };
        let before = Ghost(positions@);
        if !too_old && !cleaned_up {
            positions.push(i);
            assert(picked(all, positions@) =~= picked(all, before@).push(all[i as int]));
        }
        i += 1;
    }
    assert(all.take(i as int) =~= all);
    take_bounded(events, sizes, &positions, policy)
}

/// The records to keep, in append order, under the hard bounds of `policy`. The grace
/// window does not apply: these records have no delivery state.
pub fn retain_dead_triggers<T: Record>(
    records: &Vec<T>,
    sizes: &Vec<u64>,
    policy: &AutoRetention,
    now: &Timestamp,
) -> (r: Vec<T>)
    ensures
        views(r@) == retained_records::<T>(views(records@), sizes@, policy@, now@),
        r@.len() <= records@.len(),
{
    let ghost all = weighed(views(records@), sizes@);
    let ghost stays = |item: (T::V, int)| !past_max_age(T::time_of(item.0), policy@, now@);
    let mut positions: Vec<usize> = Vec::new();
    let mut i: usize = 0;
    assert(picked(all, positions@) =~= all.take(0).filter(stays)) by {
        reveal(Seq::filter);
    }
    while i < records.len()
        invariant
            i <= records@.len(),
            all == weighed(views(records@), sizes@),
            stays == (|item: (T::V, int)| !past_max_age(T::time_of(item.0), policy@, now@)),
            forall|k: int| 0 <= k < positions@.len() ==> #[trigger] positions@[k] < i,
            picked(all, positions@) == all.take(i as int).filter(stays),
            positions@.len() <= i,
        decreases records@.len() - i,
    {
        proof {
            lemma_filter_take(all, i as int, stays);
        }
        let keep = match &policy.max_age {
            Some(limit) => !now.since(&records[i].timestamp()).exceeds(limit),
            None => true,
        };
        let before = Ghost(positions@);
        if keep {
            positions.push(i);
            assert(picked(all, positions@) =~= picked(all, before@).push(all[i as int]));
        }
        i += 1;
    }
    assert(all.take(i as int) =~= all);
    take_bounded(records, sizes, &positions, policy)
}

// ---------------------------------------------------------------------------------------
// Laws

/// Retention without bounds removes nothing.
pub proof fn law_unbounded_retains_everything<T: Record>(
    events: Seq<EventView>,
    records: Seq<T::V>,
    sizes: Seq<u64>,
    delivered: Set<u128>,
    now: TimestampView,
)
    ensures
        retained_events(events, sizes, delivered, no_bounds(), now) == events,
        retained_records::<T>(records, sizes, no_bounds(), now) == records,
{
    let policy = no_bounds();
    lemma_filter_all(
        weighed(events, sizes),
        |item: (EventView, int)|
            !past_max_age(item.0.timestamp, policy, now) && !past_grace(
                item.0,
                delivered,
                policy,
                now,
            ),
    );
    lemma_filter_all(
        weighed(records, sizes),
        |item: (T::V, int)| !past_max_age(T::time_of(item.0), policy, now),
    );
    assert(retained_events(events, sizes, delivered, policy, now) =~= events);
    assert(retained_records::<T>(records, sizes, policy, now) =~= records);
}

/// Retention neither adds nor reorders: what stays is a subsequence of what was there.
pub proof fn law_retention_keeps_append_order<T: Record>(
    events: Seq<EventView>,
    records: Seq<T::V>,
    sizes: Seq<u64>,
    delivered: Set<u128>,
    policy: RetentionView,
    now: TimestampView,
)
    ensures
        is_subsequence(retained_events(events, sizes, delivered, policy, now), events),
        is_subsequence(retained_records::<T>(records, sizes, policy, now), records),
{
    let live = live_events(events, sizes, delivered, policy, now);
    lemma_filter_is_subsequence(
        weighed(events, sizes),
        |item: (EventView, int)|
            !past_max_age(item.0.timestamp, policy, now) && !past_grace(
                item.0,
                delivered,
                policy,
                now,
            ),
    );
    lemma_first_kept_bounds(sizes_of(live), policy);
    lemma_skip_is_subsequence(live, weighed(events, sizes), first_kept(sizes_of(live), policy));
    lemma_records_subsequence(size_bounded(live, policy), weighed(events, sizes));
    assert(records_of(weighed(events, sizes)) =~= events);

    let young = young_records::<T>(records, sizes, policy, now);
    lemma_filter_is_subsequence(
        weighed(records, sizes),
        |item: (T::V, int)| !past_max_age(T::time_of(item.0), policy, now),
    );
    lemma_first_kept_bounds(sizes_of(young), policy);
    lemma_skip_is_subsequence(young, weighed(records, sizes), first_kept(sizes_of(young), policy));
    lemma_records_subsequence(size_bounded(young, policy), weighed(records, sizes));
    assert(records_of(weighed(records, sizes)) =~= records);
}

proof fn lemma_records_subsequence<V>(part: Seq<(V, int)>, whole: Seq<(V, int)>)
    requires
        is_subsequence(part, whole),
    ensures
        is_subsequence(records_of(part), records_of(whole)),
    decreases whole.len(),
{
    if part.len() > 0 {
        assert(records_of(part).drop_last() =~= records_of(part.drop_last()));
        assert(records_of(whole).drop_last() =~= records_of(whole.drop_last()));
        if part.last() == whole.last() && is_subsequence(part.drop_last(), whole.drop_last()) {
            lemma_records_subsequence(part.drop_last(), whole.drop_last());
        } else {
            lemma_records_subsequence(part, whole.drop_last());
        }
    }
}

/// An event goes only for a reason: one that is within the age bound, and not delivered
/// past the grace window, stays as long as the events that age and delivery let stay
/// exceed neither the count nor the byte bound. In particular an undelivered event stays
/// within its hard bounds.
pub proof fn law_event_within_bounds_is_retained(
    events: Seq<EventView>,
    sizes: Seq<u64>,
    delivered: Set<u128>,
    policy: RetentionView,
    now: TimestampView,
    i: int,
)
    requires
        0 <= i < events.len(),
        !past_max_age(events[i].timestamp, policy, now),
        !delivered.contains(events[i].id) || !past_grace(events[i], delivered, policy, now),
        ({
            let live = live_events(events, sizes, delivered, policy, now);
            &&& policy.max_count matches Some(max) ==> live.len() <= max
            &&& policy.max_bytes matches Some(max) ==> total(sizes_of(live)) <= max
        }),
    ensures
        retained_events(events, sizes, delivered, policy, now).contains(events[i]),
{
    broadcast use Seq::lemma_filter_contains;

    let live = live_events(events, sizes, delivered, policy, now);
    let all = weighed(events, sizes);
    assert(live.contains(all[i]));
    let k = choose|k: int| 0 <= k < live.len() && live[k] == all[i];
    assert(sizes_of(live).skip(0) =~= sizes_of(live));
    assert(first_kept(sizes_of(live), policy) == 0);
    assert(retained_events(events, sizes, delivered, policy, now)[k] == events[i]);
}

/// No event stays that is past the age bound, or delivered and past the grace window.
pub proof fn law_expired_events_go(
    events: Seq<EventView>,
    sizes: Seq<u64>,
    delivered: Set<u128>,
    policy: RetentionView,
    now: TimestampView,
    k: int,
)
    requires
        0 <= k < retained_events(events, sizes, delivered, policy, now).len(),
    ensures
        ({
            let event = retained_events(events, sizes, delivered, policy, now)[k];
            &&& !past_max_age(event.timestamp, policy, now)
            &&& !past_grace(event, delivered, policy, now)
        }),
{
    broadcast use Seq::lemma_filter_pred;

    let live = live_events(events, sizes, delivered, policy, now);
    let start = first_kept(sizes_of(live), policy);
    lemma_first_kept_bounds(sizes_of(live), policy);
    assert(retained_events(events, sizes, delivered, policy, now)[k] == live[start + k].0);
}

/// The hard bounds hold of what stays: at most `max_count` records, weighing at most
/// `max_bytes` together.
pub proof fn law_hard_bounds_hold<V>(items: Seq<(V, int)>, policy: RetentionView)
    ensures
        policy.max_count matches Some(max) ==> size_bounded(items, policy).len() <= max,
        policy.max_bytes matches Some(max) ==> total(sizes_of(size_bounded(items, policy))) <= max,
{
    let sizes = sizes_of(items);
    let start = over_count(sizes.len() as int, policy.max_count);
    lemma_first_kept_bounds(sizes, policy);
    if let Some(max) = policy.max_bytes {
        let recent = sizes.skip(start);
        lemma_overweight_bounds(recent, max as int);
        let n = overweight(recent, max as int);
        assert(sizes_of(size_bounded(items, policy)) =~= recent.skip(n));
    }
}

/// The grace window never removes a dead trigger: a policy's effect on dead triggers does
/// not depend on it, and a policy with no other bound removes none.
pub proof fn law_grace_spares_dead_triggers<T: Record>(
    records: Seq<T::V>,
    sizes: Seq<u64>,
    policy: RetentionView,
    now: TimestampView,
)
    ensures
        retained_records::<T>(records, sizes, policy, now) == retained_records::<T>(
            records,
            sizes,
            RetentionView { delivered_grace: None, ..policy },
            now,
        ),
        policy == (RetentionView { delivered_grace: policy.delivered_grace, ..no_bounds() })
            ==> retained_records::<T>(records, sizes, policy, now) == records,
{
    let other = RetentionView { delivered_grace: None, ..policy };
    assert((|item: (T::V, int)| !past_max_age(T::time_of(item.0), policy, now)) =~= (|
        item: (T::V, int),
    | !past_max_age(T::time_of(item.0), other, now)));
    law_unbounded_retains_everything::<T>(Seq::empty(), records, sizes, Set::empty(), now);
}

/// A sweep right after a sweep removes nothing more: the events that stayed stay again, as
/// long as their sizes are the same and their delivery state did not change.
pub proof fn law_retention_is_idempotent(
    events: Seq<EventView>,
    sizes: Seq<u64>,
    delivered: Set<u128>,
    policy: RetentionView,
    now: TimestampView,
    later_sizes: Seq<u64>,
    later_delivered: Set<u128>,
)
    requires
        ({
            let kept = size_bounded(live_events(events, sizes, delivered, policy, now), policy);
            &&& later_sizes.len() == kept.len()
            &&& forall|k: int| 0 <= k < kept.len() ==> #[trigger] later_sizes[k] == kept[k].1
            &&& forall|k: int|
                0 <= k < kept.len() ==> later_delivered.contains((#[trigger] kept[k]).0.id)
                    == delivered.contains(kept[k].0.id)
        }),
    ensures
        ({
            let once = retained_events(events, sizes, delivered, policy, now);
            retained_events(once, later_sizes, later_delivered, policy, now) == once
        }),
{
    let live = live_events(events, sizes, delivered, policy, now);
    let kept = size_bounded(live, policy);
    let once = retained_events(events, sizes, delivered, policy, now);
    let again = weighed(once, later_sizes);
    assert(again =~= kept);
    let stays = |item: (EventView, int)|
        !past_max_age(item.0.timestamp, policy, now) && !past_grace(
            item.0,
            later_delivered,
            policy,
            now,
        );
    assert forall|k: int| 0 <= k < again.len() implies stays(#[trigger] again[k]) by {
        law_expired_events_go(events, sizes, delivered, policy, now, k);
        assert(once[k] == kept[k].0);
    }
    lemma_filter_all(again, stays);
    law_hard_bounds_hold(live, policy);
    assert(sizes_of(kept).skip(0) =~= sizes_of(kept));
    assert(first_kept(sizes_of(kept), policy) == 0);
    assert(kept.skip(0) =~= kept);
}

/// Pruning by age keeps exactly the records at or after the cutoff; pruning by count keeps
/// at most that many, and they are the most recent. Either way what stays is in its order.
pub proof fn law_pruning_keeps_the_newer<T: Record>(records: Seq<T::V>, policy: ManualRetention)
    ensures
        is_subsequence(pruned::<T>(records, policy), records),
        policy matches ManualRetention::OlderThan(cutoff) ==> {
            &&& forall|k: int|
                0 <= k < pruned::<T>(records, policy).len() ==> at_or_after(
                    T::time_of(#[trigger] pruned::<T>(records, policy)[k]),
                    cutoff@,
                )
            &&& forall|i: int|
                0 <= i < records.len() && at_or_after(T::time_of(#[trigger] records[i]), cutoff@)
                    ==> pruned::<T>(records, policy).contains(records[i])
        },
        policy matches ManualRetention::KeepMostRecent(n) ==> {
            let kept = pruned::<T>(records, policy);
            &&& kept.len() <= n
            &&& kept.len() == n || kept == records
            &&& kept == records.skip(records.len() - kept.len())
        },
{
    broadcast use Seq::lemma_filter_pred, Seq::lemma_filter_contains;

    match policy {
        ManualRetention::OlderThan(cutoff) => {
            lemma_filter_is_subsequence(
                records,
                |record: T::V| at_or_after(T::time_of(record), cutoff@),
            );
        },
        ManualRetention::KeepMostRecent(n) => {
            lemma_whole_is_subsequence(records);
            let kept = pruned::<T>(records, policy);
            lemma_skip_is_subsequence(records, records, records.len() - kept.len());
            assert(records.skip(0) =~= records);
        },
    }
}

proof fn lemma_whole_is_subsequence<A>(s: Seq<A>)
    ensures
        is_subsequence(s, s),
    decreases s.len(),
{
    if s.len() > 0 {
        lemma_whole_is_subsequence(s.drop_last());
    }
}

/// What the records at these positions weigh together. A record without a known size weighs
/// nothing.
pub open spec fn weight(sizes: Seq<u64>, at: Seq<int>) -> int
    decreases at.len(),
{
    if at.len() == 0 {
        0
    } else {
        (if 0 <= at[0] < sizes.len() {
            sizes[at[0]] as int
        } else {
            0
        }) + weight(sizes, at.drop_first())
    }
}

/// Whether the records at these positions are the ones to keep of `n` records, of which some
/// are alive: only live ones, in their order, within the bounds on count and bytes. What
/// goes of the live ones is older than all that stays, and the youngest that goes would
/// break a bound if it stayed.
pub open spec fn is_best_choice(
    at: Seq<int>,
    n: int,
    alive: spec_fn(int) -> bool,
    sizes: Seq<u64>,
    max_count: Option<usize>,
    max_bytes: Option<u64>,
) -> bool {
    &&& forall|j: int, k: int| 0 <= j < k < at.len() ==> (#[trigger] at[j]) < (#[trigger] at[k])
    &&& forall|k: int| 0 <= k < at.len() ==> 0 <= (#[trigger] at[k]) < n && alive(at[k])
    &&& max_count matches Some(max) ==> at.len() <= max
    &&& max_bytes matches Some(max) ==> weight(sizes, at) <= max
    &&& forall|i: int, k: int|
        0 <= i < n && (#[trigger] alive(i)) && !at.contains(i) && 0 <= k < at.len() ==> i < (
        #[trigger] at[k])
    &&& forall|i: int|
        0 <= i < n && (#[trigger] alive(i)) && !at.contains(i) && (forall|j: int|
            i < j < n && (#[trigger] alive(j)) ==> at.contains(j)) ==> {
            ||| max_count matches Some(max) && at.len() >= max
            ||| max_bytes matches Some(max) && weight(sizes, seq![i] + at) > max
        }
}

/// The items at some positions.
pub open spec fn chosen<V>(items: Seq<V>, at: Seq<int>) -> Seq<V> {
    Seq::new(at.len(), |k: int| items[at[k]])
}

/// The positions of the items that a filter keeps.
spec fn kept_positions<V>(items: Seq<V>, pred: spec_fn(V) -> bool) -> Seq<int>
    decreases items.len(),
{
    if items.len() == 0 {
        Seq::empty()
    } else if pred(items.last()) {
        kept_positions(items.drop_last(), pred).push(items.len() - 1)
    } else {
        kept_positions(items.drop_last(), pred)
    }
}

proof fn lemma_kept_positions<V>(items: Seq<V>, pred: spec_fn(V) -> bool)
    ensures
        ({
            let at = kept_positions(items, pred);
            &&& items.filter(pred) == chosen(items, at)
            &&& forall|j: int, k: int|
                0 <= j < k < at.len() ==> (#[trigger] at[j]) < (#[trigger] at[k])
            &&& forall|k: int|
                0 <= k < at.len() ==> 0 <= (#[trigger] at[k]) < items.len() && pred(items[at[k]])
            &&& forall|i: int|
                0 <= i < items.len() && pred(#[trigger] items[i]) ==> at.contains(i)
        }),
    decreases items.len(),
{
    reveal(Seq::filter);
    let at = kept_positions(items, pred);
    if items.len() > 0 {
        let shorter = items.drop_last();
        let before = kept_positions(shorter, pred);
        lemma_kept_positions(shorter, pred);
        assert forall|k: int| 0 <= k < before.len() implies shorter[before[k]]
            == items[#[trigger] before[k]] by {}
        assert(items.filter(pred) =~= chosen(items, at));
        assert forall|i: int| 0 <= i < items.len() && pred(#[trigger] items[i]) implies at.contains(
            i,
        ) by {
            if i < items.len() - 1 {
                assert(shorter[i] == items[i]);
                let k = choose|k: int| 0 <= k < before.len() && before[k] == i;
                assert(at[k] == i);
            } else {
                assert(at[at.len() - 1] == i);
            }
        }
    } else {
        assert(items.filter(pred) =~= chosen(items, at));
    }
}

/// The number of records to drop for their weight is the least one.
proof fn lemma_overweight_is_least(sizes: Seq<int>, max: int)
    requires
        max >= 0,
    ensures
        0 <= overweight(sizes, max) <= sizes.len(),
        overweight(sizes, max) > 0 ==> total(sizes.skip(overweight(sizes, max) - 1)) > max,
    decreases sizes.len(),
{
    lemma_overweight_bounds(sizes, max);
    if sizes.len() > 0 && total(sizes) > max {
        let rest = sizes.drop_first();
        lemma_overweight_is_least(rest, max);
        let n = overweight(rest, max);
        if n > 0 {
            assert(rest.skip(n - 1) =~= sizes.skip(n));
        } else {
            assert(sizes.skip(0) =~= sizes);
        }
    }
}

proof fn lemma_weight<V>(records: Seq<V>, sizes: Seq<u64>, at: Seq<int>)
    requires
        forall|k: int| 0 <= k < at.len() ==> 0 <= (#[trigger] at[k]) < records.len(),
    ensures
        weight(sizes, at) == total(sizes_of(chosen(weighed(records, sizes), at))),
    decreases at.len(),
{
    let items = weighed(records, sizes);
    if at.len() > 0 {
        let rest = at.drop_first();
        assert forall|k: int| 0 <= k < rest.len() implies 0 <= (#[trigger] rest[k])
            < records.len() by {
            assert(rest[k] == at[k + 1]);
        }
        lemma_weight(records, sizes, rest);
        assert(sizes_of(chosen(items, at)).drop_first() =~= sizes_of(chosen(items, rest)));
        assert(sizes_of(chosen(items, at))[0] == size_at(sizes, at[0]));
    }
}

/// The choice that the size bounds make among the records that a filter lets stay.
proof fn lemma_best_choice<V>(
    records: Seq<V>,
    sizes: Seq<u64>,
    lives: spec_fn((V, int)) -> bool,
    alive: spec_fn(int) -> bool,
    policy: RetentionView,
) -> (at: Seq<int>)
    requires
        forall|i: int|
            0 <= i < records.len() ==> lives((#[trigger] weighed(records, sizes)[i])) == alive(i),
    ensures
        is_best_choice(
            at,
            records.len() as int,
            alive,
            sizes,
            policy.max_count,
            policy.max_bytes,
        ),
        records_of(size_bounded(weighed(records, sizes).filter(lives), policy)) == chosen(
            records,
            at,
        ),
{
    let items = weighed(records, sizes);
    let all = kept_positions(items, lives);
    let live = items.filter(lives);
    let n = records.len() as int;
    lemma_kept_positions(items, lives);
    let weights = sizes_of(live);
    let start = first_kept(weights, policy);
    lemma_first_kept_bounds(weights, policy);
    let at = all.skip(start);
    assert(live.len() == all.len());
    assert forall|k: int| 0 <= k < at.len() implies 0 <= (#[trigger] at[k]) < n && alive(at[k]) by {
        assert(at[k] == all[start + k]);
        assert(lives(items[all[start + k]]));
    }
    assert forall|j: int, k: int| 0 <= j < k < at.len() implies (#[trigger] at[j]) < (
    #[trigger] at[k]) by {
        assert(all[start + j] < all[start + k]);
    }
    assert(size_bounded(live, policy) =~= chosen(items, at));
    assert(records_of(size_bounded(live, policy)) =~= chosen(records, at));
    law_hard_bounds_hold(live, policy);
    lemma_weight(records, sizes, at);
    assert forall|i: int| 0 <= i < n && (#[trigger] alive(i)) && !at.contains(i) implies exists|
        m: int,
    | 0 <= m < start && #[trigger] all[m] == i by {
        assert(lives(items[i]));
        assert(all.contains(i));
        let m = choose|m: int| 0 <= m < all.len() && all[m] == i;
        if m >= start {
            assert(at[m - start] == i);
        }
    }
    assert forall|i: int, k: int|
        0 <= i < n && (#[trigger] alive(i)) && !at.contains(i) && 0 <= k < at.len() implies i < (
    #[trigger] at[k]) by {
        let m = choose|m: int| 0 <= m < start && #[trigger] all[m] == i;
        assert(all[m] < all[start + k]);
    }
    assert forall|i: int|
        0 <= i < n && (#[trigger] alive(i)) && !at.contains(i) && (forall|j: int|
            i < j < n && (#[trigger] alive(j)) ==> at.contains(j)) implies {
        ||| policy.max_count matches Some(max) && at.len() >= max
        ||| policy.max_bytes matches Some(max) && weight(sizes, seq![i] + at) > max
    } by {
        let m = choose|m: int| 0 <= m < start && #[trigger] all[m] == i;
        if m < start - 1 {
            let next = all[start - 1];
            assert(all[m] < all[start - 1]);
            assert(lives(items[next]));
            assert(alive(next));
            assert(at.contains(next));
            let k = choose|k: int| 0 <= k < at.len() && at[k] == next;
            assert(all[start - 1] < all[start + k]);
        }
        let over = over_count(weights.len() as int, policy.max_count);
        if let Some(max) = policy.max_bytes {
            let recent = weights.skip(over);
            lemma_overweight_is_least(recent, max as int);
            let dropped = overweight(recent, max as int);
            if dropped > 0 {
                let more = seq![i] + at;
                assert(more =~= all.skip(start - 1));
                assert forall|k: int| 0 <= k < more.len() implies 0 <= (#[trigger] more[k]) < n by {
                    assert(more[k] == all[start - 1 + k]);
                }
                lemma_weight(records, sizes, more);
                assert(sizes_of(chosen(items, more)) =~= recent.skip(dropped - 1));
            }
        }
    }
    at
}

/// Retention keeps exactly the right events, each bound on its own account. An event is
/// alive unless it is older than the age bound, or delivered and older than the grace
/// window, whatever the other bounds are; of the live ones the most recent stay, as many as
/// the bounds on count and bytes admit.
pub proof fn law_retention_keeps_the_best_choice_of_events(
    events: Seq<EventView>,
    sizes: Seq<u64>,
    delivered: Set<u128>,
    policy: RetentionView,
    now: TimestampView,
)
    ensures
        ({
            let alive = |i: int|
                {
                    &&& policy.max_age matches Some(limit) ==> elapsed(now, events[i].timestamp)
                        <= limit
                    &&& policy.delivered_grace matches Some(limit) ==> delivered.contains(
                        events[i].id,
                    ) ==> elapsed(now, events[i].timestamp) <= limit
                };
            exists|at: Seq<int>| #[trigger]
                is_best_choice(
                    at,
                    events.len() as int,
                    alive,
                    sizes,
                    policy.max_count,
                    policy.max_bytes,
                ) && retained_events(events, sizes, delivered, policy, now) == chosen(events, at)
        }),
{
    let alive = |i: int|
        {
            &&& policy.max_age matches Some(limit) ==> elapsed(now, events[i].timestamp) <= limit
            &&& policy.delivered_grace matches Some(limit) ==> delivered.contains(events[i].id)
                ==> elapsed(now, events[i].timestamp) <= limit
        };
    let lives = |item: (EventView, int)|
        !past_max_age(item.0.timestamp, policy, now) && !past_grace(
            item.0,
            delivered,
            policy,
            now,
        );
    let at = lemma_best_choice(events, sizes, lives, alive, policy);
    assert(is_best_choice(
        at,
        events.len() as int,
        alive,
        sizes,
        policy.max_count,
        policy.max_bytes,
    ));
}

/// Retention keeps exactly the right dead triggers: one is alive unless its event is older
/// than the age bound, whatever the other bounds are; of the live ones the most recent stay,
/// as many as the bounds on count and bytes admit.
pub proof fn law_retention_keeps_the_best_choice_of_records<T: Record>(
    records: Seq<T::V>,
    sizes: Seq<u64>,
    policy: RetentionView,
    now: TimestampView,
)
    ensures
        ({
            let alive = |i: int|
                policy.max_age matches Some(limit) ==> elapsed(now, T::time_of(records[i]))
                    <= limit;
            exists|at: Seq<int>| #[trigger]
                is_best_choice(
                    at,
                    records.len() as int,
                    alive,
                    sizes,
                    policy.max_count,
                    policy.max_bytes,
                ) && retained_records::<T>(records, sizes, policy, now) == chosen(records, at)
        }),
{
    let alive = |i: int|
        policy.max_age matches Some(limit) ==> elapsed(now, T::time_of(records[i])) <= limit;
    let lives = |item: (T::V, int)| !past_max_age(T::time_of(item.0), policy, now);
    let at = lemma_best_choice(records, sizes, lives, alive, policy);
    assert(is_best_choice(
        at,
        records.len() as int,
        alive,
        sizes,
        policy.max_count,
        policy.max_bytes,
    ));
}

/// Each hard bound holds of what stays, whatever the other bounds are: no event and no dead
/// trigger that stays is older than the age bound, no delivered event that stays is older
/// than the grace window, and no more stay than the count bound says.
pub proof fn law_each_bound_holds_by_itself<T: Record>(
    events: Seq<EventView>,
    records: Seq<T::V>,
    sizes: Seq<u64>,
    delivered: Set<u128>,
    policy: RetentionView,
    now: TimestampView,
    k: int,
)
    ensures
        ({
            let kept = retained_events(events, sizes, delivered, policy, now);
            let kept_records = retained_records::<T>(records, sizes, policy, now);
            &&& policy.max_age matches Some(limit) ==> {
                &&& 0 <= k < kept.len() ==> elapsed(now, kept[k].timestamp) <= limit
                &&& 0 <= k < kept_records.len() ==> elapsed(now, T::time_of(kept_records[k]))
                    <= limit
            }
            &&& policy.delivered_grace matches Some(limit) ==> 0 <= k < kept.len()
                && delivered.contains(kept[k].id) ==> elapsed(now, kept[k].timestamp) <= limit
            &&& policy.max_count matches Some(max) ==> kept.len() <= max && kept_records.len()
                <= max
        }),
{
    law_retention_keeps_the_best_choice_of_events(events, sizes, delivered, policy, now);
    law_retention_keeps_the_best_choice_of_records::<T>(records, sizes, policy, now);
    let kept = retained_events(events, sizes, delivered, policy, now);
    let kept_records = retained_records::<T>(records, sizes, policy, now);
    let live_event = |i: int|
        {
            &&& policy.max_age matches Some(limit) ==> elapsed(now, events[i].timestamp) <= limit
            &&& policy.delivered_grace matches Some(limit) ==> delivered.contains(events[i].id)
                ==> elapsed(now, events[i].timestamp) <= limit
        };
    let at = choose|at: Seq<int>| #[trigger]
        is_best_choice(
            at,
            events.len() as int,
            live_event,
            sizes,
            policy.max_count,
            policy.max_bytes,
        ) && kept == chosen(events, at);
    let live_record = |i: int|
        policy.max_age matches Some(limit) ==> elapsed(now, T::time_of(records[i])) <= limit;
    let from = choose|from: Seq<int>| #[trigger]
        is_best_choice(
            from,
            records.len() as int,
            live_record,
            sizes,
            policy.max_count,
            policy.max_bytes,
        ) && kept_records == chosen(records, from);
    if 0 <= k < kept.len() {
        assert(live_event(at[k]));
    }
    if 0 <= k < kept_records.len() {
        assert(live_record(from[k]));
    }
}

/// Pruning judges each record by itself and keeps the order: a record at the end stays by
/// its own time, and has no part in what stays of the others.
pub proof fn law_pruning_by_age_judges_each_record<T: Record>(
    records: Seq<T::V>,
    record: T::V,
    cutoff: Timestamp,
)
    ensures
        ({
            let policy = ManualRetention::OlderThan(cutoff);
            let before = pruned::<T>(records, policy);
            pruned::<T>(records.push(record), policy) == if at_or_after(
                T::time_of(record),
                cutoff@,
            ) {
                before.push(record)
            } else {
                before
            }
        }),
        pruned::<T>(Seq::empty(), ManualRetention::OlderThan(cutoff)).len() == 0,
{
    crate::model::lemma_filter_push(
        records,
        record,
        |record: T::V| at_or_after(T::time_of(record), cutoff@),
    );
    reveal(Seq::filter);
}

/// A policy without bounds has none of the four, and an event is as old as its timestamp.
pub proof fn law_no_bounds_are_none(event: EventView)
    ensures
        no_bounds().delivered_grace is None,
        no_bounds().max_age is None,
        no_bounds().max_count is None,
        no_bounds().max_bytes is None,
        EventEnvelope::time_of(event) == event.timestamp,
{
}

/// No event that retention returns is older than the age bound, no delivered one is older
/// than the grace window, and no more come back than the count bound says, each bound
/// whatever the others are.
pub proof fn law_returned_events_are_within_every_bound(
    events: &Vec<EventEnvelope>,
    sizes: &Vec<u64>,
    delivered: &HashSet<u128>,
    policy: &AutoRetention,
    now: &Timestamp,
    result: Vec<EventEnvelope>,
    k: int,
)
    requires
        call_ensures(retain_events, (events, sizes, delivered, policy, now), result),
        0 <= k < result@.len(),
    ensures
        policy.max_age matches Some(limit) ==> elapsed(now@, result@[k]@.timestamp) <= limit@,
        policy.delivered_grace matches Some(limit) ==> delivered@.contains(result@[k]@.id)
            ==> elapsed(now@, result@[k]@.timestamp) <= limit@,
        policy.max_count matches Some(max) ==> result@.len() <= max,
{
    law_each_bound_holds_by_itself::<EventEnvelope>(
        views(events@),
        views(events@),
        sizes@,
        delivered@,
        policy@,
        now@,
        k,
    );
    assert(views(result@)[k] == result@[k]@);
    assert(views(result@).len() == result@.len());
}

/// No dead trigger that retention returns is older than the age bound, and no more come back
/// than the count bound says, each bound whatever the other is.
pub proof fn law_returned_records_are_within_every_bound<T: Record>(
    records: &Vec<T>,
    sizes: &Vec<u64>,
    policy: &AutoRetention,
    now: &Timestamp,
    result: Vec<T>,
    k: int,
)
    requires
        call_ensures(retain_dead_triggers::<T>, (records, sizes, policy, now), result),
        0 <= k < result@.len(),
    ensures
        policy.max_age matches Some(limit) ==> elapsed(now@, T::time_of(result@[k]@)) <= limit@,
        policy.max_count matches Some(max) ==> result@.len() <= max,
{
    law_each_bound_holds_by_itself::<T>(
        Seq::empty(),
        views(records@),
        sizes@,
        Set::empty(),
        policy@,
        now@,
        k,
    );
    assert(views(result@)[k] == result@[k]@);
    assert(views(result@).len() == result@.len());
}

/// What an operator's pruning returns: by age, exactly the records that are no older than the
/// cutoff; by number, the last ones, as many as are asked for or as there are.
pub proof fn law_pruning_returns_the_newer<T: Record>(
    policy: &ManualRetention,
    items: &Vec<T>,
    result: Vec<T>,
    record: T::V,
    i: int,
)
    requires
        call_ensures(ManualRetention::keep::<T>, (policy, items), result),
    ensures
        *policy matches ManualRetention::OlderThan(cutoff) ==> (views(result@).contains(record)
            <==> views(items@).contains(record) && at_or_after(T::time_of(record), cutoff@)),
        *policy matches ManualRetention::KeepMostRecent(n) ==> {
            &&& result@.len() == if n < items@.len() {
                n as int
            } else {
                items@.len() as int
            }
            &&& 0 <= i < result@.len() ==> result@[i]@ == items@[items@.len() - result@.len()
                + i]@
        },
{
    broadcast use Seq::lemma_filter_pred, Seq::lemma_filter_contains;

    let all = views(items@);
    assert(views(result@).len() == result@.len());
    law_pruning_keeps_the_newer::<T>(all, *policy);
    match *policy {
        ManualRetention::OlderThan(cutoff) => {
            let fresh = |record: T::V| at_or_after(T::time_of(record), cutoff@);
            if views(result@).contains(record) {
                all.lemma_filter_contains_rev(fresh, record);
                let k = choose|k: int| 0 <= k < result@.len() && views(result@)[k] == record;
                assert(fresh(all.filter(fresh)[k]));
            }
            if all.contains(record) && fresh(record) {
                let k = choose|k: int| 0 <= k < all.len() && all[k] == record;
                assert(all.filter(fresh).contains(all[k]));
            }
        },
        ManualRetention::KeepMostRecent(n) => {
            if 0 <= i < result@.len() {
                assert(views(result@)[i] == result@[i]@);
                assert(all[all.len() - result@.len() + i] == items@[items@.len() - result@.len()
                    + i]@);
            }
        },
    }
}

} // verus!
