//! Storage contracts for replayable events and for dead triggers, and the in-memory
//! stores.

use crate::durable::{changed, written, Codecs, DiskView, StoreView};
use crate::event::{EventEnvelope, EventId, EventView};
use crate::model::{
    first_where, lemma_filter_take, lemma_first_where_push, lemma_first_where_skip,
    lemma_full_subsequence, opt_view, views,
};
use crate::retention::{
    copy_all, pruned, retain_dead_triggers, retain_events, retained_events, retained_records,
    AutoRetention, ManualRetention, Record, RetentionView,
};
use crate::text::same_text;
use crate::time::{Timestamp, TimestampView};
use std::collections::HashSet;
use vstd::prelude::*;

verus! {

/// What kind of failure an error of a store is.
#[derive(Debug, Clone, Copy, PartialEq, Eq, Structural)]
pub enum StorageErrorKind {
    /// What is stored is not what a store writes.
    InvalidData,
    /// Another writer holds the store.
    WouldBlock,
    NotFound,
    PermissionDenied,
    /// Any other failure.
    Other,
}

/// A durable write or read that failed.
#[derive(Debug, PartialEq, Eq)]
pub struct StorageError {
    pub kind: StorageErrorKind,
    pub message: String,
}

/// The values of a [`StorageError`].
pub struct FaultView {
    pub kind: StorageErrorKind,
    pub message: Seq<char>,
}

impl View for StorageError {
    type V = FaultView;

    open spec fn view(&self) -> FaultView {
        FaultView { kind: self.kind, message: self.message@ }
    }
}

/// The fault of a store whose content is damaged.
pub open spec fn damage(message: Seq<char>) -> FaultView {
    FaultView { kind: StorageErrorKind::InvalidData, message }
}

impl StorageError {
    /// An error of no particular kind.
    pub fn new(message: &str) -> (r: StorageError)
        ensures
            r@ == (FaultView { kind: StorageErrorKind::Other, message: message@ }),
    {
        StorageError::of_kind(StorageErrorKind::Other, message)
    }

    /// An error of a kind.
    pub fn of_kind(kind: StorageErrorKind, message: &str) -> (r: StorageError)
        ensures
            r@ == (FaultView { kind, message: message@ }),
    {
        StorageError { kind, message: message.to_owned() }
    }
}

/// The first event with the given id.
pub open spec fn event_with_id(log: Seq<EventView>, id: u128) -> Option<EventView> {
    first_where(log, |event: EventView| event.id == id)
}

/// The first event with the given idempotency key.
pub open spec fn event_with_key(log: Seq<EventView>, key: Seq<char>) -> Option<EventView> {
    first_where(log, |event: EventView| event.metadata.idempotency_key == Some(key))
}

/// The events that are not delivered, in append order.
pub open spec fn undelivered_events(log: Seq<EventView>, delivered: Set<u128>) -> Seq<EventView> {
    log.filter(|event: EventView| !delivered.contains(event.id))
}

/// The delivered ids that still belong to a kept event.
pub open spec fn delivered_among(delivered: Set<u128>, kept: Seq<EventView>) -> Set<u128> {
    delivered.intersect(ids_of(kept))
}

/// The ids of the events of a log.
pub open spec fn ids_of(log: Seq<EventView>) -> Set<u128> {
    Set::new(|id: u128| exists|k: int| 0 <= k < log.len() && (#[trigger] log[k]).id == id)
}

/// The delivered ids after a sweep: those of removed events are dropped along with them.
pub open spec fn delivered_after_sweep(
    delivered: Set<u128>,
    log: Seq<EventView>,
    kept: Seq<EventView>,
) -> Set<u128> {
    if kept.len() < log.len() {
        delivered_among(delivered, kept)
    } else {
        delivered
    }
}

/// A change that is asked of an event store.
pub enum StoreChange {
    /// Append an event.
    Append(EventView),
    /// Mark the event with this id delivered.
    Mark(u128),
    /// Apply an automatic policy at a time, given the size of each event.
    Sweep(RetentionView, TimestampView, Seq<u64>),
    /// Prune the events.
    Prune(ManualRetention),
}

/// A change that is asked of a dead-trigger queue.
pub enum QueueChange {
    /// Record a failure.
    Record(DeadTriggerView),
    /// Take all records out.
    Drain,
    /// Apply an automatic policy at a time, given the size of each record.
    Sweep(RetentionView, TimestampView, Seq<u64>),
    /// Prune the records.
    Prune(ManualRetention),
}

/// The delivered ids after an event was marked, in a store that tracks delivery or not.
pub open spec fn delivered_with(tracks: bool, delivered: Set<u128>, id: u128) -> Set<u128> {
    if tracks {
        delivered.insert(id)
    } else {
        delivered
    }
}

/// The events that a sweep leaves in a store that applies retention or not.
pub open spec fn swept_events(
    sweeps: bool,
    log: Seq<EventView>,
    sizes: Seq<u64>,
    delivered: Set<u128>,
    policy: RetentionView,
    now: TimestampView,
) -> Seq<EventView> {
    if sweeps {
        retained_events(log, sizes, delivered, policy, now)
    } else {
        log
    }
}

/// The records that a sweep leaves in a queue that applies retention or not.
pub open spec fn swept_records(
    sweeps: bool,
    records: Seq<DeadTriggerView>,
    sizes: Seq<u64>,
    policy: RetentionView,
    now: TimestampView,
) -> Seq<DeadTriggerView> {
    if sweeps {
        retained_records::<DeadTriggerRecord>(records, sizes, policy, now)
    } else {
        records
    }
}

/// A store of accepted events, in append order, with their delivery state.
///
/// The spec functions say what a store holds and what it can do. A store written in plain
/// Rust leaves them as they are, about which nothing is known, and keeps to the contracts on
/// its own account.
pub trait EventStore {
    /// The retained events, in append order.
    open spec fn log(&self) -> Seq<EventView> {
        arbitrary()
    }

    /// The ids marked delivered.
    open spec fn delivered(&self) -> Set<u128> {
        arbitrary()
    }

    /// Whether changing a store of this type never fails, as in memory. A store that does not
    /// say may fail.
    open spec fn never_fails() -> bool {
        false
    }

    /// Whether this store may turn a change down with this error. A store that
    /// does not say may give any error.
    open spec fn may_refuse(&self, change: StoreChange, error: FaultView) -> bool {
        true
    }

    /// Whether stores of this type remember which events are delivered. In one that does
    /// not, marking does nothing, and what is in flight stays so.
    open spec fn tracks_delivery() -> bool {
        arbitrary()
    }

    /// Whether stores of this type apply automatic retention. One that does not keeps
    /// everything.
    open spec fn sweeps() -> bool {
        arbitrary()
    }

    /// Persist an accepted event. On an error the store is as it was.
    fn append(&mut self, event: EventEnvelope) -> (r: Result<(), StorageError>)
        ensures
            Self::never_fails() ==> r is Ok,
            r matches Err(error) ==> old(self).may_refuse(StoreChange::Append(event@), error@),
            final(self).delivered() == old(self).delivered(),
            final(self).log() == if r is Ok {
                old(self).log().push(event@)
            } else {
                old(self).log()
            },
    ;

    /// The first event with this id.
    fn get(&self, id: EventId) -> (r: Option<EventEnvelope>)
        ensures
            opt_view(r) == event_with_id(self.log(), id@),
    ;

    /// All retained events, in append order.
    fn all(&self) -> (r: Vec<EventEnvelope>)
        ensures
            views(r@) == self.log(),
    ;

    /// Mark an event delivered: every trigger that matched it has had its job accepted or
    /// its failure recorded, so the event is eligible for grace-based retention. On an
    /// error the store is as it was.
    fn mark_delivered(&mut self, id: EventId) -> (r: Result<(), StorageError>)
        ensures
            Self::never_fails() ==> r is Ok,
            r matches Err(error) ==> old(self).may_refuse(StoreChange::Mark(id@), error@),
            final(self).log() == old(self).log(),
            final(self).delivered() == if r is Ok {
                delivered_with(Self::tracks_delivery(), old(self).delivered(), id@)
            } else {
                old(self).delivered()
            },
    ;

    /// Retained events that are not delivered yet, in append order: the set in flight that
    /// a restart replays.
    fn undelivered(&self) -> (r: Vec<EventEnvelope>)
        ensures
            views(r@) == undelivered_events(self.log(), self.delivered()),
    ;

    /// Apply an automatic retention policy evaluated at `now`, given the serialized size of
    /// each retained event, and return the number of events removed.
    fn enforce_retention(
        &mut self,
        policy: &AutoRetention,
        now: &Timestamp,
        sizes: &Vec<u64>,
    ) -> (r: Result<usize, StorageError>)
        ensures
            Self::never_fails() ==> r is Ok,
            r matches Err(error) ==> old(self).may_refuse(
                StoreChange::Sweep(policy@, now@, sizes@),
                error@,
            ),
            r matches Ok(removed) ==> {
                let kept = swept_events(
                    Self::sweeps(),
                    old(self).log(),
                    sizes@,
                    old(self).delivered(),
                    policy@,
                    now@,
                );
                &&& final(self).log() == kept
                &&& removed == old(self).log().len() - kept.len()
                &&& final(self).delivered() == delivered_after_sweep(
                    old(self).delivered(),
                    old(self).log(),
                    kept,
                )
            },
    ;

    /// Prune stored events, and return the number removed. On an error the store is as it
    /// was.
    fn prune(&mut self, policy: &ManualRetention) -> (r: Result<usize, StorageError>)
        ensures
            Self::never_fails() ==> r is Ok,
            r matches Err(error) ==> old(self).may_refuse(StoreChange::Prune(*policy), error@),
            final(self).delivered() == old(self).delivered(),
            match r {
                Ok(removed) => {
                    &&& final(self).log() == pruned::<EventEnvelope>(old(self).log(), *policy)
                    &&& removed == old(self).log().len() - final(self).log().len()
                },
                Err(_) => final(self).log() == old(self).log(),
            },
    ;

    /// The store's size on disk, in bytes.
    open spec fn disk_bytes(&self) -> u64 {
        arbitrary()
    }

    /// Size on disk in bytes; 0 for a store that is not durable.
    fn size_bytes(&self) -> (r: u64)
        ensures
            r == self.disk_bytes(),
    ;

    /// Number of retained events.
    fn len(&self) -> (r: usize)
        ensures
            r == self.log().len(),
    {
        let events = self.all();
        assert(views(events@).len() == events@.len());
        events.len()
    }

    /// Whether the store holds no events.
    fn is_empty(&self) -> (r: bool)
        ensures
            r == (self.log().len() == 0),
    {
        self.len() == 0
    }

    /// The first event whose idempotency key is `key`.
    fn find_by_idempotency_key(&self, key: &str) -> (r: Option<EventEnvelope>)
        ensures
            opt_view(r) == event_with_key(self.log(), key@),
    {
        let events = self.all();
        find_key(&events, key)
    }
}

/// The first of `events` with the idempotency key `key`.
fn find_key(events: &Vec<EventEnvelope>, key: &str) -> (r: Option<EventEnvelope>)
    ensures
        opt_view(r) == event_with_key(views(events@), key@),
{
    let ghost log = views(events@);
    let ghost wanted = |event: EventView| event.metadata.idempotency_key == Some(key@);
    let mut i: usize = 0;
    assert(log.skip(0) =~= log);
    while i < events.len()
        invariant
            i <= events@.len(),
            log == views(events@),
            wanted == (|event: EventView| event.metadata.idempotency_key == Some(key@)),
            first_where(log, wanted) == first_where(log.skip(i as int), wanted),
        decreases events@.len() - i,
    {
        proof {
            lemma_first_where_skip(log, i as int, wanted);
        }
        let found = match &events[i].metadata.idempotency_key {
            Some(own) => same_text(own.as_str(), key),
            None => false,
        };
        if found {
            return Some(events[i].clone());
        }
        i += 1;
    }
    None
}

/// The state of an event store: the events in append order and the ids marked delivered.
/// A durable store keeps one beside its files and changes it only after the matching
/// write has succeeded.
pub struct EventJournal {
    events: Vec<EventEnvelope>,
    delivered: HashSet<u128>,
}

impl EventJournal {
    pub closed spec fn log(&self) -> Seq<EventView> {
        views(self.events@)
    }

    pub closed spec fn delivered(&self) -> Set<u128> {
        self.delivered@
    }

    /// An empty journal.
    pub fn new() -> (r: EventJournal)
        ensures
            r.log() == Seq::<EventView>::empty(),
            r.delivered() == Set::<u128>::empty(),
    {
        let events: Vec<EventEnvelope> = Vec::new();
        assert(views(events@) =~= Seq::<EventView>::empty());
        EventJournal { events, delivered: HashSet::new() }
    }

    /// The journal that a store's files hold: the recovered events and the recovered
    /// delivered ids.
    pub fn restore(events: Vec<EventEnvelope>, ids: Vec<EventId>) -> (r: EventJournal)
        ensures
            r.log() == views(events@),
            r.delivered() == views(ids@).to_set(),
    {
        let mut journal = EventJournal { events, delivered: HashSet::new() };
        journal.replace_delivered(&ids);
        journal
    }

    /// Number of events.
    pub fn len(&self) -> (r: usize)
        ensures
            r == self.log().len(),
    {
        self.events.len()
    }

    /// Add an event at the end.
    pub fn append(&mut self, event: EventEnvelope)
        ensures
            final(self).held() == changed(old(self).held(), StoreChange::Append(event@)),
            final(self).log() == old(self).log().push(event@),
            final(self).delivered() == old(self).delivered(),
    {
        let before = Ghost(self.events@);
        self.events.push(event);
        assert(views(self.events@) =~= views(before@).push(event@));
    }

    /// The first event with this id.
    pub fn get(&self, id: EventId) -> (r: Option<EventEnvelope>)
        ensures
            opt_view(r) == event_with_id(self.log(), id@),
    {
        let ghost log = self.log();
        let ghost wanted = |event: EventView| event.id == id@;
        let mut i: usize = 0;
        assert(log.skip(0) =~= log);
        while i < self.events.len()
            invariant
                i <= self.events@.len(),
                log == views(self.events@),
                wanted == (|event: EventView| event.id == id@),
                first_where(log, wanted) == first_where(log.skip(i as int), wanted),
            decreases self.events@.len() - i,
        {
            proof {
                lemma_first_where_skip(log, i as int, wanted);
            }
            if self.events[i].id.same(&id) {
                return Some(self.events[i].clone());
            }
            i += 1;
        }
        None
    }

    /// All events.
    pub fn all(&self) -> (r: Vec<EventEnvelope>)
        ensures
            views(r@) == self.log(),
    {
        copy_all(&self.events)
    }

    /// The first event with this idempotency key.
    pub fn find_by_idempotency_key(&self, key: &str) -> (r: Option<EventEnvelope>)
        ensures
            opt_view(r) == event_with_key(self.log(), key@),
    {
        find_key(&self.events, key)
    }

    /// Whether an id is marked delivered; a durable store writes a mark only the first time.
    pub fn is_delivered(&self, id: EventId) -> (r: bool)
        ensures
            r == self.delivered().contains(id@),
    {
        broadcast use vstd::std_specs::hash::group_hash_axioms;

        self.delivered.contains(&id.bits())
    }

    /// Mark an id delivered.
    pub fn mark_delivered(&mut self, id: EventId)
        ensures
            final(self).held() == changed(old(self).held(), StoreChange::Mark(id@)),
            final(self).log() == old(self).log(),
            final(self).delivered() == old(self).delivered().insert(id@),
    {
        broadcast use vstd::std_specs::hash::group_hash_axioms;

        self.delivered.insert(id.bits());
    }

    /// The events that are not delivered.
    pub fn undelivered(&self) -> (r: Vec<EventEnvelope>)
        ensures
            views(r@) == undelivered_events(self.log(), self.delivered()),
    {
        let ghost log = self.log();
        let ghost pending = |event: EventView| !self.delivered().contains(event.id);
        let mut out: Vec<EventEnvelope> = Vec::new();
        let mut i: usize = 0;
        assert(views(out@) =~= log.take(0).filter(pending)) by {
            reveal(Seq::filter);
        }
        while i < self.events.len()
            invariant
                i <= self.events@.len(),
                log == views(self.events@),
                pending == (|event: EventView| !self.delivered().contains(event.id)),
                views(out@) == log.take(i as int).filter(pending),
            decreases self.events@.len() - i,
        {
            proof {
                lemma_filter_take(log, i as int, pending);
            }
            let before = Ghost(out@);
            if !self.is_delivered(self.events[i].id) {
                out.push(self.events[i].clone());
                assert(views(out@) =~= views(before@).push(log[i as int]));
            }
            i += 1;
        }
        assert(log.take(i as int) =~= log);
        out
    }

    /// What an automatic sweep leaves, or `None` when it removes nothing.
    pub fn plan_retention(&self, policy: &AutoRetention, now: &Timestamp, sizes: &Vec<u64>) -> (r:
        Option<Compaction>)
        ensures
            ({
                let kept = retained_events(self.log(), sizes@, self.delivered(), policy@, now@);
                match r {
                    Some(plan) => {
                        &&& views(plan.events@) == kept
                        &&& kept.len() < self.log().len()
                        &&& views(plan.delivered@).no_duplicates()
                        &&& views(plan.delivered@).to_set() == delivered_among(
                            self.delivered(),
                            kept,
                        )
                    },
                    None => {
                        &&& kept == self.log()
                        &&& forall|disk: DiskView, codecs: Codecs| #[trigger]
                            written(
                                disk,
                                self.held(),
                                StoreChange::Sweep(policy@, now@, sizes@),
                                disk,
                                codecs,
                            )
                    },
                }
            }),
    {
        let kept = retain_events(&self.events, sizes, &self.delivered, policy, now);
        proof {
            crate::retention::law_retention_keeps_append_order::<EventEnvelope>(
                self.log(),
                Seq::empty(),
                sizes@,
                self.delivered(),
                policy@,
                now@,
            );
            lemma_full_subsequence(views(kept@), self.log());
        }
        if kept.len() < self.events.len() {
            let delivered = self.delivered_among(&kept);
            Some(Compaction { events: kept, delivered })
        } else {
            None
        }
    }

    /// What pruning leaves, or `None` when it removes nothing.
    pub fn plan_prune(&self, policy: &ManualRetention) -> (r: Option<Vec<EventEnvelope>>)
        ensures
            match r {
                Some(kept) => {
                    &&& views(kept@) == pruned::<EventEnvelope>(self.log(), *policy)
                    &&& kept@.len() < self.log().len()
                },
                None => {
                    &&& pruned::<EventEnvelope>(self.log(), *policy) == self.log()
                    &&& forall|disk: DiskView, codecs: Codecs| #[trigger]
                        written(disk, self.held(), StoreChange::Prune(*policy), disk, codecs)
                },
            },
    {
        plan_pruning(&self.events, policy)
    }

    /// The delivered ids that belong to one of `kept`, each once, in the order of the
    /// events.
    pub fn delivered_among(&self, kept: &Vec<EventEnvelope>) -> (r: Vec<EventId>)
        ensures
            views(r@).to_set() == delivered_among(self.delivered(), views(kept@)),
            views(r@).no_duplicates(),
    {
        broadcast use vstd::std_specs::hash::group_hash_axioms;

        let ghost log = views(kept@);
        let mut seen: HashSet<u128> = HashSet::new();
        let mut out: Vec<EventId> = Vec::new();
        let mut i: usize = 0;
        assert(views(out@).to_set() =~= delivered_among(self.delivered(), log.take(0)));
        while i < kept.len()
            invariant
                i <= kept@.len(),
                log == views(kept@),
                seen@ == views(out@).to_set(),
                views(out@).to_set() == delivered_among(self.delivered(), log.take(i as int)),
                views(out@).no_duplicates(),
            decreases kept@.len() - i,
        {
            let id = kept[i].id;
            let ghost before = log.take(i as int);
            let ghost after = log.take(i + 1);
            let old_out = Ghost(out@);
            proof {
                assert(after =~= before.push(log[i as int]));
                assert(ids_of(after) =~= ids_of(before).insert(id@)) by {
                    assert forall|other: u128| ids_of(after).contains(other) implies ids_of(
                        before,
                    ).insert(id@).contains(other) by {
                        let k = choose|k: int|
                            0 <= k < after.len() && (#[trigger] after[k]).id == other;
                        if k < before.len() {
                            assert(before[k].id == other);
                        }
                    }
                    assert forall|other: u128| ids_of(before).insert(id@).contains(other) implies
                        ids_of(after).contains(other) by {
                        if other == id@ {
                            assert(after[i as int].id == other);
                        } else {
                            let k = choose|k: int|
                                0 <= k < before.len() && (#[trigger] before[k]).id == other;
                            assert(after[k].id == other);
                        }
                    }
                }
            }
            if self.is_delivered(id) && !seen.contains(&id.bits()) {
                seen.insert(id.bits());
                out.push(id);
                assert(views(out@) =~= views(old_out@).push(id@));
                assert(views(out@).to_set() =~= views(old_out@).to_set().insert(id@)) by {
                    assert forall|other: u128| views(old_out@).to_set().insert(id@).contains(
                        other,
                    ) implies views(out@).to_set().contains(other) by {
                        if other == id@ {
                            assert(views(out@)[old_out@.len() as int] == other);
                        } else {
                            let k = choose|k: int|
                                0 <= k < views(old_out@).len() && views(old_out@)[k] == other;
                            assert(views(out@)[k] == other);
                        }
                    }
                }
                assert(!views(old_out@).contains(id@));
            }
            assert(delivered_among(self.delivered(), after) =~= if self.delivered().contains(id@) {
                delivered_among(self.delivered(), before).insert(id@)
            } else {
                delivered_among(self.delivered(), before)
            });
            assert(views(out@).to_set() =~= delivered_among(self.delivered(), after));
            i += 1;
        }
        assert(log.take(i as int) =~= log);
        out
    }

    /// Put `kept` in place of the events.
    pub fn replace_events(&mut self, kept: Vec<EventEnvelope>)
        ensures
            final(self).held() == (StoreView { log: views(kept@), ..old(self).held() }),
            final(self).log() == views(kept@),
            final(self).delivered() == old(self).delivered(),
    {
        self.events = kept;
    }

    /// Put `ids` in place of the delivered ids.
    pub fn replace_delivered(&mut self, ids: &Vec<EventId>)
        ensures
            final(self).held() == (StoreView {
                delivered: views(ids@).to_set(),
                ..old(self).held()
            }),
            final(self).log() == old(self).log(),
            final(self).delivered() == views(ids@).to_set(),
    {
        broadcast use vstd::std_specs::hash::group_hash_axioms;

        let ghost all = views(ids@);
        let mut set: HashSet<u128> = HashSet::new();
        let mut i: usize = 0;
        assert(all.take(0).to_set() =~= Set::<u128>::empty());
        while i < ids.len()
            invariant
                i <= ids@.len(),
                all == views(ids@),
                set@ == all.take(i as int).to_set(),
            decreases ids@.len() - i,
        {
            let ghost before = all.take(i as int);
            set.insert(ids[i].bits());
            proof {
                let after = all.take(i + 1);
                assert(after =~= before.push(all[i as int]));
                assert(after.to_set() =~= before.to_set().insert(all[i as int])) by {
                    assert forall|id: u128| before.to_set().insert(all[i as int]).contains(
                        id,
                    ) implies after.to_set().contains(id) by {
                        if id == all[i as int] {
                            assert(after[i as int] == id);
                        } else {
                            let k = choose|k: int| 0 <= k < before.len() && before[k] == id;
                            assert(after[k] == id);
                        }
                    }
                }
            }
            i += 1;
        }
        assert(all.take(i as int) =~= all);
        self.delivered = set;
    }
}

/// The path of the journal of delivered ids that sits beside the file of an event store.
pub fn delivered_path(path: &str) -> (r: String)
    ensures
        r@ == path@ + ".delivered"@,
{
    let mut out = path.to_owned();
    out.append(".delivered");
    out
}

/// What a sweep leaves of a journal: the events, and the delivered ids among them.
pub struct Compaction {
    pub events: Vec<EventEnvelope>,
    pub delivered: Vec<EventId>,
}

/// What pruning leaves of a list of records, or `None` when it removes nothing.
fn plan_pruning<T: Record>(records: &Vec<T>, policy: &ManualRetention) -> (r: Option<Vec<T>>)
    ensures
        match r {
            Some(kept) => {
                &&& views(kept@) == pruned::<T>(views(records@), *policy)
                &&& kept@.len() < records@.len()
            },
            None => pruned::<T>(views(records@), *policy) == views(records@),
        },
{
    let kept = policy.keep(records);
    proof {
        crate::retention::law_pruning_keeps_the_newer::<T>(views(records@), *policy);
        lemma_full_subsequence(views(kept@), views(records@));
    }
    if kept.len() < records.len() {
        Some(kept)
    } else {
        None
    }
}

/// An event store that lives in memory.
pub struct InMemoryEventStore {
    journal: EventJournal,
}

impl InMemoryEventStore {
    pub fn new() -> (r: InMemoryEventStore)
        ensures
            r.log() == Seq::<EventView>::empty(),
            r.delivered() == Set::<u128>::empty(),
    {
        InMemoryEventStore { journal: EventJournal::new() }
    }
}

impl Default for InMemoryEventStore {
    fn default() -> (r: InMemoryEventStore)
        ensures
            r.log() == Seq::<EventView>::empty(),
            r.delivered() == Set::<u128>::empty(),
    {
        InMemoryEventStore::new()
    }
}

impl EventStore for InMemoryEventStore {
    closed spec fn log(&self) -> Seq<EventView> {
        self.journal.log()
    }

    closed spec fn delivered(&self) -> Set<u128> {
        self.journal.delivered()
    }

    open spec fn never_fails() -> bool {
        true
    }

    open spec fn may_refuse(&self, change: StoreChange, error: FaultView) -> bool {
        false
    }

    open spec fn tracks_delivery() -> bool {
        true
    }

    open spec fn sweeps() -> bool {
        true
    }

    open spec fn disk_bytes(&self) -> u64 {
        0
    }

    fn size_bytes(&self) -> (r: u64) {
        0
    }

    fn append(&mut self, event: EventEnvelope) -> (r: Result<(), StorageError>)
        ensures
            r is Ok,
    {
        self.journal.append(event);
        Ok(())
    }

    fn get(&self, id: EventId) -> (r: Option<EventEnvelope>) {
        self.journal.get(id)
    }

    fn all(&self) -> (r: Vec<EventEnvelope>) {
        self.journal.all()
    }

    fn mark_delivered(&mut self, id: EventId) -> (r: Result<(), StorageError>)
        ensures
            r is Ok,
    {
        self.journal.mark_delivered(id);
        Ok(())
    }

    fn undelivered(&self) -> (r: Vec<EventEnvelope>) {
        self.journal.undelivered()
    }

    fn enforce_retention(
        &mut self,
        policy: &AutoRetention,
        now: &Timestamp,
        sizes: &Vec<u64>,
    ) -> (r: Result<usize, StorageError>)
        ensures
            r is Ok,
    {
        match self.journal.plan_retention(policy, now, sizes) {
            Some(plan) => {
                let removed: usize = self.journal.len() - plan.events.len();
                self.journal.replace_delivered(&plan.delivered);
                self.journal.replace_events(plan.events);
                Ok(removed)
            },
            None => Ok(0),
        }
    }

    fn prune(&mut self, policy: &ManualRetention) -> (r: Result<usize, StorageError>)
        ensures
            r is Ok,
    {
        match self.journal.plan_prune(policy) {
            Some(kept) => {
                let removed: usize = self.journal.len() - kept.len();
                self.journal.replace_events(kept);
                Ok(removed)
            },
            None => Ok(0),
        }
    }

    fn len(&self) -> (r: usize) {
        self.journal.len()
    }

    fn find_by_idempotency_key(&self, key: &str) -> (r: Option<EventEnvelope>) {
        self.journal.find_by_idempotency_key(key)
    }
}

/// A trigger-handling failure that will not be tried again by itself: the event, the
/// trigger, and the error.
#[derive(Debug, PartialEq, Eq)]
pub struct DeadTriggerRecord {
    pub event: EventEnvelope,
    pub trigger_name: String,
    pub error: String,
}

/// The values of a [`DeadTriggerRecord`].
pub struct DeadTriggerView {
    pub event: EventView,
    pub trigger_name: Seq<char>,
    pub error: Seq<char>,
}

impl View for DeadTriggerRecord {
    type V = DeadTriggerView;

    open spec fn view(&self) -> DeadTriggerView {
        DeadTriggerView {
            event: self.event@,
            trigger_name: self.trigger_name@,
            error: self.error@,
        }
    }
}

impl Clone for DeadTriggerRecord {
    fn clone(&self) -> (r: DeadTriggerRecord)
        ensures
            r@ == self@,
    {
        DeadTriggerRecord {
            event: self.event.clone(),
            trigger_name: self.trigger_name.clone(),
            error: self.error.clone(),
        }
    }
}

impl Record for DeadTriggerRecord {
    open spec fn time_of(record: DeadTriggerView) -> TimestampView {
        record.event.timestamp
    }

    fn timestamp(&self) -> (r: Timestamp) {
        self.event.timestamp
    }

    fn duplicate(&self) -> (r: DeadTriggerRecord) {
        self.clone()
    }
}

/// A store for trigger-handling failures: the dead-trigger queue. As with a store of events,
/// one written in plain Rust leaves the spec functions as they are.
pub trait DeadTriggerQueue {
    /// The records, in the order they were made.
    open spec fn records(&self) -> Seq<DeadTriggerView> {
        arbitrary()
    }

    /// Whether changing a queue of this type never fails, as in memory. A queue that does not
    /// say may fail.
    open spec fn never_fails() -> bool {
        false
    }

    /// Whether this queue may turn a change down with this error. A queue that
    /// does not say may give any error.
    open spec fn may_refuse(&self, change: QueueChange, error: FaultView) -> bool {
        true
    }

    /// Whether queues of this type apply automatic retention. One that does not keeps
    /// everything.
    open spec fn sweeps() -> bool {
        arbitrary()
    }

    /// Persist a failure. On an error the queue is as it was.
    fn record(&mut self, record: DeadTriggerRecord) -> (r: Result<(), StorageError>)
        ensures
            Self::never_fails() ==> r is Ok,
            r matches Err(error) ==> old(self).may_refuse(QueueChange::Record(record@), error@),
            final(self).records() == if r is Ok {
                old(self).records().push(record@)
            } else {
                old(self).records()
            },
    ;

    /// All records.
    fn all(&self) -> (r: Vec<DeadTriggerRecord>)
        ensures
            views(r@) == self.records(),
    ;

    /// Return all records and empty the queue. On an error the queue is as it was.
    fn drain(&mut self) -> (r: Result<Vec<DeadTriggerRecord>, StorageError>)
        ensures
            Self::never_fails() ==> r is Ok,
            r matches Err(error) ==> old(self).may_refuse(QueueChange::Drain, error@),
            match r {
                Ok(drained) => views(drained@) == old(self).records()
                    && final(self).records().len() == 0,
                Err(_) => final(self).records() == old(self).records(),
            },
    ;

    /// Prune records by their event's time, and return the number removed. On an error the
    /// queue is as it was.
    fn prune(&mut self, policy: &ManualRetention) -> (r: Result<usize, StorageError>)
        ensures
            Self::never_fails() ==> r is Ok,
            r matches Err(error) ==> old(self).may_refuse(QueueChange::Prune(*policy), error@),
            match r {
                Ok(removed) => {
                    &&& final(self).records() == pruned::<DeadTriggerRecord>(
                        old(self).records(),
                        *policy,
                    )
                    &&& removed == old(self).records().len() - final(self).records().len()
                },
                Err(_) => final(self).records() == old(self).records(),
            },
    ;

    /// Apply the hard bounds of an automatic retention policy, given the serialized size of
    /// each record, and return the number of records removed. The grace window does not
    /// apply.
    fn enforce_retention(
        &mut self,
        policy: &AutoRetention,
        now: &Timestamp,
        sizes: &Vec<u64>,
    ) -> (r: Result<usize, StorageError>)
        ensures
            Self::never_fails() ==> r is Ok,
            r matches Err(error) ==> old(self).may_refuse(
                QueueChange::Sweep(policy@, now@, sizes@),
                error@,
            ),
            match r {
                Ok(removed) => {
                    &&& final(self).records() == swept_records(
                        Self::sweeps(),
                        old(self).records(),
                        sizes@,
                        policy@,
                        now@,
                    )
                    &&& removed == old(self).records().len() - final(self).records().len()
                },
                Err(_) => final(self).records() == old(self).records(),
            },
    ;

    /// The queue's size on disk, in bytes.
    open spec fn disk_bytes(&self) -> u64 {
        arbitrary()
    }

    /// Size on disk in bytes; 0 for a queue that is not durable.
    fn size_bytes(&self) -> (r: u64)
        ensures
            r == self.disk_bytes(),
    ;

    /// Number of records.
    fn len(&self) -> (r: usize)
        ensures
            r == self.records().len(),
    ;

    /// Whether the queue is empty.
    fn is_empty(&self) -> (r: bool)
        ensures
            r == (self.records().len() == 0),
    {
        self.len() == 0
    }
}

/// A dead-trigger queue that lives in memory.
pub struct InMemoryDeadTriggerQueue {
    records: Vec<DeadTriggerRecord>,
}

impl InMemoryDeadTriggerQueue {
    pub fn new() -> (r: InMemoryDeadTriggerQueue)
        ensures
            r.records() == Seq::<DeadTriggerView>::empty(),
    {
        let records: Vec<DeadTriggerRecord> = Vec::new();
        assert(views(records@) =~= Seq::<DeadTriggerView>::empty());
        InMemoryDeadTriggerQueue { records }
    }

    /// The queue that a file holds: the recovered records.
    pub fn restore(records: Vec<DeadTriggerRecord>) -> (r: InMemoryDeadTriggerQueue)
        ensures
            r.records() == views(records@),
    {
        InMemoryDeadTriggerQueue { records }
    }

    /// What an automatic sweep leaves, or `None` when it removes nothing. A durable queue
    /// writes it before it replaces its records.
    pub fn plan_retention(&self, policy: &AutoRetention, now: &Timestamp, sizes: &Vec<u64>) -> (r:
        Option<Vec<DeadTriggerRecord>>)
        ensures
            ({
                let kept = retained_records::<DeadTriggerRecord>(
                    self.records(),
                    sizes@,
                    policy@,
                    now@,
                );
                match r {
                    Some(plan) => views(plan@) == kept && kept.len() < self.records().len(),
                    None => kept == self.records(),
                }
            }),
    {
        let kept = retain_dead_triggers(&self.records, sizes, policy, now);
        proof {
            crate::retention::law_retention_keeps_append_order::<DeadTriggerRecord>(
                Seq::empty(),
                self.records(),
                sizes@,
                Set::empty(),
                policy@,
                now@,
            );
            lemma_full_subsequence(views(kept@), self.records());
        }
        if kept.len() < self.records.len() {
            Some(kept)
        } else {
            None
        }
    }

    /// What pruning leaves, or `None` when it removes nothing.
    pub fn plan_prune(&self, policy: &ManualRetention) -> (r: Option<Vec<DeadTriggerRecord>>)
        ensures
            match r {
                Some(kept) => {
                    &&& views(kept@) == pruned::<DeadTriggerRecord>(self.records(), *policy)
                    &&& kept@.len() < self.records().len()
                },
                None => pruned::<DeadTriggerRecord>(self.records(), *policy) == self.records(),
            },
    {
        plan_pruning(&self.records, policy)
    }

    /// Put `kept` in place of the records.
    pub fn replace(&mut self, kept: Vec<DeadTriggerRecord>)
        ensures
            final(self).records() == views(kept@),
    {
        self.records = kept;
    }
}

impl Default for InMemoryDeadTriggerQueue {
    fn default() -> (r: InMemoryDeadTriggerQueue)
        ensures
            r.records() == Seq::<DeadTriggerView>::empty(),
    {
        InMemoryDeadTriggerQueue::new()
    }
}

impl DeadTriggerQueue for InMemoryDeadTriggerQueue {
    closed spec fn records(&self) -> Seq<DeadTriggerView> {
        views(self.records@)
    }

    open spec fn never_fails() -> bool {
        true
    }

    open spec fn may_refuse(&self, change: QueueChange, error: FaultView) -> bool {
        false
    }

    open spec fn sweeps() -> bool {
        true
    }

    open spec fn disk_bytes(&self) -> u64 {
        0
    }

    fn size_bytes(&self) -> (r: u64) {
        0
    }

    fn record(&mut self, record: DeadTriggerRecord) -> (r: Result<(), StorageError>)
        ensures
            r is Ok,
    {
        let before = Ghost(self.records@);
        self.records.push(record);
        assert(views(self.records@) =~= views(before@).push(record@));
        Ok(())
    }

    fn all(&self) -> (r: Vec<DeadTriggerRecord>) {
        copy_all(&self.records)
    }

    fn drain(&mut self) -> (r: Result<Vec<DeadTriggerRecord>, StorageError>)
        ensures
            r is Ok,
    {
        let mut drained: Vec<DeadTriggerRecord> = Vec::new();
        std::mem::swap(&mut drained, &mut self.records);
        Ok(drained)
    }

    fn prune(&mut self, policy: &ManualRetention) -> (r: Result<usize, StorageError>)
        ensures
            r is Ok,
    {
        match self.plan_prune(policy) {
            Some(kept) => {
                let removed: usize = self.records.len() - kept.len();
                assert(views(kept@).len() == kept@.len());
                self.replace(kept);
                Ok(removed)
            },
            None => Ok(0),
        }
    }

    fn enforce_retention(
        &mut self,
        policy: &AutoRetention,
        now: &Timestamp,
        sizes: &Vec<u64>,
    ) -> (r: Result<usize, StorageError>)
        ensures
            r is Ok,
    {
        match self.plan_retention(policy, now, sizes) {
            Some(kept) => {
                let removed: usize = self.records.len() - kept.len();
                assert(views(kept@).len() == kept@.len());
                self.replace(kept);
                Ok(removed)
            },
            None => Ok(0),
        }
    }

    fn len(&self) -> (r: usize) {
        self.records.len()
    }
}

// ---------------------------------------------------------------------------------------
// Laws

/// Reading back a write: a freshly appended event, whose id no retained event has, is what
/// a lookup of its id gives; every other lookup gives what it gave before.
pub proof fn law_appended_event_is_found(log: Seq<EventView>, event: EventView, id: u128)
    requires
        event_with_id(log, event.id) is None,
    ensures
        event_with_id(log.push(event), event.id) == Some(event),
        id != event.id ==> event_with_id(log.push(event), id) == event_with_id(log, id),
{
    lemma_first_where_push(log, event, |other: EventView| other.id == event.id);
    lemma_first_where_push(log, event, |other: EventView| other.id == id);
}

/// A lookup by id finds exactly what is retained: it gives an event only when one with
/// that id is in the log, so an event that retention removed is not found.
pub proof fn law_lookup_is_scoped_to_the_log(log: Seq<EventView>, id: u128)
    ensures
        match event_with_id(log, id) {
            Some(event) => log.contains(event) && event.id == id,
            None => forall|i: int| 0 <= i < log.len() ==> (#[trigger] log[i]).id != id,
        },
{
    let wanted = |event: EventView| event.id == id;
    crate::model::lemma_first_where(log, wanted);
    if event_with_id(log, id) is None {
        assert forall|i: int| 0 <= i < log.len() implies (#[trigger] log[i]).id != id by {
            assert(!wanted(log[i]));
        }
    }
}

/// A lookup by idempotency key finds exactly what is retained, so a key whose earlier copy
/// was removed counts as new.
pub proof fn law_key_lookup_is_scoped_to_the_log(log: Seq<EventView>, key: Seq<char>)
    ensures
        match event_with_key(log, key) {
            Some(event) => log.contains(event) && event.metadata.idempotency_key == Some(key),
            None => forall|i: int|
                0 <= i < log.len() ==> (#[trigger] log[i]).metadata.idempotency_key != Some(key),
        },
{
    let wanted = |event: EventView| event.metadata.idempotency_key == Some(key);
    crate::model::lemma_first_where(log, wanted);
    if event_with_key(log, key) is None {
        assert forall|i: int| 0 <= i < log.len() implies (
        #[trigger] log[i]).metadata.idempotency_key != Some(key) by {
            assert(!wanted(log[i]));
        }
    }
}

/// A fresh event is in flight until it is marked: appending one whose id is not marked
/// adds it at the end of the undelivered events.
pub proof fn law_appended_event_is_undelivered(
    log: Seq<EventView>,
    delivered: Set<u128>,
    event: EventView,
)
    requires
        !delivered.contains(event.id),
    ensures
        undelivered_events(log.push(event), delivered) == undelivered_events(log, delivered).push(
            event,
        ),
{
    crate::model::lemma_filter_push(
        log,
        event,
        |other: EventView| !delivered.contains(other.id),
    );
}

/// A marked event is no longer in flight, and marking it changes nothing else: the
/// undelivered events afterwards are those before without the marked one.
pub proof fn law_marked_event_is_not_in_flight(
    log: Seq<EventView>,
    delivered: Set<u128>,
    id: u128,
)
    ensures
        undelivered_events(log, delivered.insert(id)) == undelivered_events(log, delivered).filter(
            |event: EventView| event.id != id,
        ),
    decreases log.len(),
{
    reveal(Seq::filter);
    if log.len() > 0 {
        law_marked_event_is_not_in_flight(log.drop_last(), delivered, id);
        let rest = undelivered_events(log.drop_last(), delivered);
        crate::model::lemma_filter_push(
            rest,
            log.last(),
            |event: EventView| event.id != id,
        );
    }
}

/// A sweep changes the delivery state of no event that stays.
pub proof fn law_sweep_keeps_delivery_state(
    delivered: Set<u128>,
    log: Seq<EventView>,
    kept: Seq<EventView>,
    k: int,
)
    requires
        0 <= k < kept.len(),
    ensures
        delivered_after_sweep(delivered, log, kept).contains(kept[k].id) == delivered.contains(
            kept[k].id,
        ),
{
    assert(ids_of(kept).contains(kept[k].id));
}

/// Lookups give the first that fits: an event at the end of the log is found only where none
/// before it has the same id or key.
pub proof fn law_lookups_give_the_first_that_fits(
    log: Seq<EventView>,
    event: EventView,
    id: u128,
    key: Seq<char>,
)
    ensures
        event_with_id(Seq::empty(), id) is None,
        event_with_key(Seq::empty(), key) is None,
        event_with_id(log, id) is Some ==> event_with_id(log.push(event), id) == event_with_id(
            log,
            id,
        ),
        event_with_id(log, id) is None ==> event_with_id(log.push(event), id) == if event.id == id {
            Some(event)
        } else {
            None
        },
        event_with_key(log, key) is Some ==> event_with_key(log.push(event), key) == event_with_key(
            log,
            key,
        ),
        event_with_key(log, key) is None ==> event_with_key(log.push(event), key)
            == if event.metadata.idempotency_key == Some(key) {
            Some(event)
        } else {
            None
        },
{
    lemma_first_where_push(log, event, |other: EventView| other.id == id);
    lemma_first_where_push(
        log,
        event,
        |other: EventView| other.metadata.idempotency_key == Some(key),
    );
}

/// An event is in flight exactly when it is in the log and not marked; a delivered event at
/// the end adds nothing.
pub proof fn law_undelivered_events_are_those_not_marked(
    log: Seq<EventView>,
    delivered: Set<u128>,
    event: EventView,
)
    ensures
        undelivered_events(log, delivered).contains(event) <==> log.contains(event)
            && !delivered.contains(event.id),
        undelivered_events(Seq::empty(), delivered).len() == 0,
        delivered.contains(event.id) ==> undelivered_events(log.push(event), delivered)
            == undelivered_events(log, delivered),
{
    broadcast use Seq::lemma_filter_pred, Seq::lemma_filter_contains;

    reveal(Seq::filter);
    let open = |other: EventView| !delivered.contains(other.id);
    crate::model::lemma_filter_push(log, event, open);
    if undelivered_events(log, delivered).contains(event) {
        log.lemma_filter_contains_rev(open, event);
        let k = choose|k: int| 0 <= k < log.filter(open).len() && log.filter(open)[k] == event;
        assert(open(log.filter(open)[k]));
    }
    if log.contains(event) && !delivered.contains(event.id) {
        let k = choose|k: int| 0 <= k < log.len() && log[k] == event;
        assert(open(log[k]));
    }
}

/// After a sweep that removed events, exactly those marks are left whose event is kept; one
/// that removed nothing leaves every mark. Marking adds one id where delivery is tracked, and
/// nothing where it is not.
pub proof fn law_marks_go_with_their_events(
    delivered: Set<u128>,
    log: Seq<EventView>,
    kept: Seq<EventView>,
    id: u128,
    marked: u128,
)
    ensures
        kept.len() < log.len() ==> (delivered_after_sweep(delivered, log, kept).contains(id)
            <==> delivered.contains(id) && exists|k: int|
            0 <= k < kept.len() && (#[trigger] kept[k]).id == id),
        kept.len() >= log.len() ==> delivered_after_sweep(delivered, log, kept) == delivered,
        delivered_with(true, delivered, marked).contains(id) <==> id == marked
            || delivered.contains(id),
        delivered_with(false, delivered, marked) == delivered,
{
}

/// A store that applies no retention keeps everything; one that does keeps what the policy
/// keeps. A record is as old as its event.
pub proof fn law_sweeping_is_retention_or_nothing(
    log: Seq<EventView>,
    records: Seq<DeadTriggerView>,
    sizes: Seq<u64>,
    delivered: Set<u128>,
    policy: RetentionView,
    now: TimestampView,
    record: DeadTriggerView,
)
    ensures
        swept_events(false, log, sizes, delivered, policy, now) == log,
        swept_events(true, log, sizes, delivered, policy, now) == retained_events(
            log,
            sizes,
            delivered,
            policy,
            now,
        ),
        swept_records(false, records, sizes, policy, now) == records,
        swept_records(true, records, sizes, policy, now) == retained_records::<DeadTriggerRecord>(
            records,
            sizes,
            policy,
            now,
        ),
        DeadTriggerRecord::time_of(record) == record.event.timestamp,
{
}

/// A damaged store is reported as invalid data, with the message as it was given.
pub proof fn law_damage_is_invalid_data(message: Seq<char>)
    ensures
        damage(message).kind == StorageErrorKind::InvalidData,
        damage(message).message == message,
{
}

/// What a journal gives back after an append: the event under its id, unless an earlier one
/// has it, and among those in flight unless its id is marked.
pub proof fn law_appended_event_is_given_back(
    journal: &mut EventJournal,
    event: EventEnvelope,
    after: &EventJournal,
    found: Option<EventEnvelope>,
    pending: Vec<EventEnvelope>,
)
    requires
        call_ensures(EventJournal::append, (journal, event), ()),
        call_ensures(EventJournal::get, (after, event.id), found),
        call_ensures(EventJournal::undelivered, (after,), pending),
    ensures
        after.log() == final(journal).log() && after.delivered() == final(journal).delivered() ==> {
            &&& found is Some
            &&& found->0@.id == event@.id
            &&& (forall|k: int|
                0 <= k < old(journal).log().len() ==> (#[trigger] old(journal).log()[k]).id
                    != event@.id) ==> found->0@ == event@
            &&& views(pending@).contains(event@) <==> !old(journal).delivered().contains(event@.id)
        },
{
    let before = old(journal).log();
    let log = before.push(event@);
    law_lookups_give_the_first_that_fits(before, event@, event@.id, Seq::empty());
    law_lookup_is_scoped_to_the_log(before, event@.id);
    law_lookup_is_scoped_to_the_log(log, event@.id);
    law_undelivered_events_are_those_not_marked(log, old(journal).delivered(), event@);
    assert(log[before.len() as int] == event@);
}

} // verus!
