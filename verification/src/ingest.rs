//! The ingest pipeline: persist an accepted event, then handle it.
//!
//! An event is appended to the store before any of its jobs is submitted, so it stays
//! replayable whatever becomes of its handling. It is marked delivered once every matched
//! trigger is settled; until then a restart replays it.

use crate::event::{id_text, EventEnvelope, EventId, EventView};
use crate::model::views;
use crate::registry::selected;
use crate::retention::{no_bounds, AutoRetention};
use crate::runtime::{
    report_of, FinishedRun, HandleReport, HandleRun, ReportView, RunView, RuntimeError,
    RuntimeState, TriggerRuntime,
};
use crate::storage::{
    delivered_after_sweep, delivered_with, event_with_key, swept_events, swept_records,
    undelivered_events, DeadTriggerQueue, DeadTriggerRecord, EventStore, QueueChange,
    StorageError, StoreChange,
};
use crate::time::Timestamp;
use crate::trace::TraceSink;
use vstd::prelude::*;

verus! {

/// Outcome of ingesting an event.
#[derive(Debug, PartialEq, Eq)]
pub struct IngestReport {
    pub event_id: String,
    pub handle: HandleReport,
    /// True when an event with the same idempotency key was already retained, so this one
    /// was neither stored nor handled.
    pub deduplicated: bool,
}

/// The values of an [`IngestReport`].
pub struct IngestView {
    pub event_id: Seq<char>,
    pub handle: ReportView,
    pub deduplicated: bool,
}

impl View for IngestReport {
    type V = IngestView;

    open spec fn view(&self) -> IngestView {
        IngestView {
            event_id: self.event_id@,
            handle: self.handle@,
            deduplicated: self.deduplicated,
        }
    }
}

impl Clone for IngestReport {
    fn clone(&self) -> (r: IngestReport)
        ensures
            r@ == self@,
    {
        IngestReport {
            event_id: self.event_id.clone(),
            handle: self.handle.clone(),
            deduplicated: self.deduplicated,
        }
    }
}

/// Outcome of accepting an event: it is stored but not handled yet, or an earlier copy
/// already existed.
#[derive(Debug, PartialEq, Eq)]
pub struct AcceptReport {
    pub event_id: String,
    pub deduplicated: bool,
}

/// The values of an [`AcceptReport`].
pub struct AcceptView {
    pub event_id: Seq<char>,
    pub deduplicated: bool,
}

impl View for AcceptReport {
    type V = AcceptView;

    open spec fn view(&self) -> AcceptView {
        AcceptView { event_id: self.event_id@, deduplicated: self.deduplicated }
    }
}

impl Clone for AcceptReport {
    fn clone(&self) -> (r: AcceptReport)
        ensures
            r@ == self@,
    {
        AcceptReport {
            event_id: self.event_id.clone(),
            deduplicated: self.deduplicated,
        }
    }
}

/// What to do with an event that was given to the pipeline.
pub enum IngestStep {
    /// Nothing: an earlier copy is retained.
    Deduplicated(IngestReport),
    /// The event is stored; its handling has begun.
    Handle(HandleRun),
}

/// The retained event that an incoming one repeats, if any: the first with its idempotency
/// key. An event without a key repeats nothing.
pub open spec fn duplicate_of(log: Seq<EventView>, event: EventView) -> Option<EventView> {
    match event.metadata.idempotency_key {
        Some(key) => event_with_key(log, key),
        None => None,
    }
}

/// The start of handling an event.
pub open spec fn started<Q: DeadTriggerQueue, T: TraceSink>(
    runtime: TriggerRuntime<Q, T>,
    event: EventView,
) -> RunView {
    RunView {
        event,
        matched: selected(runtime.registrations(), event),
        outcomes: Seq::empty(),
    }
}

/// A report without jobs and failures.
pub open spec fn nothing_handled() -> ReportView {
    ReportView { submitted: Seq::empty(), failed: Seq::empty() }
}

/// The replay of undelivered events, between events.
pub struct RecoveryRun {
    events: Vec<EventEnvelope>,
    recovered: usize,
}

/// The values of a [`RecoveryRun`].
pub struct RecoveryView {
    pub events: Seq<EventView>,
    pub recovered: int,
}

impl View for RecoveryRun {
    type V = RecoveryView;

    closed spec fn view(&self) -> RecoveryView {
        RecoveryView { events: views(self.events@), recovered: self.recovered as int }
    }
}

/// A recovery that waits for one event to be handled.
pub struct PendingRecovery {
    run: RecoveryRun,
}

impl View for PendingRecovery {
    type V = RecoveryView;

    closed spec fn view(&self) -> RecoveryView {
        self.run@
    }
}

/// Where a recovery stands.
pub enum RecoveryStep {
    /// This event has to be handled next.
    Handle(EventEnvelope, PendingRecovery),
    /// Every event is recovered; this is their number.
    Done(usize),
}

impl RecoveryRun {
    #[verifier::type_invariant]
    spec fn within(self) -> bool {
        self.recovered <= self.events@.len()
    }

    /// The next event to handle, or the number of recovered events when none is left.
    pub fn next(self) -> (r: RecoveryStep)
        ensures
            0 <= self@.recovered <= self@.events.len(),
            self@.recovered < self@.events.len() ==> {
                &&& r is Handle
                &&& r->Handle_0@ == self@.events[self@.recovered]
                &&& r->Handle_1@ == self@
            },
            self@.recovered == self@.events.len() ==> r is Done && r->Done_0
                == self@.events.len(),
    {
        proof {
            use_type_invariant(&self);
        }
        if self.recovered < self.events.len() {
            let event = self.events[self.recovered].clone();
            RecoveryStep::Handle(event, PendingRecovery { run: self })
        } else {
            RecoveryStep::Done(self.recovered)
        }
    }
}

impl PendingRecovery {
    #[verifier::type_invariant]
    spec fn unfinished(self) -> bool {
        self.run.recovered < self.run.events@.len()
    }
}

/// How many records a maintenance sweep removed.
#[derive(Debug, Clone, Copy, PartialEq, Eq)]
pub struct Sweep {
    pub events: usize,
    pub dead_triggers: usize,
}

/// The ingest pipeline: a store and a runtime.
pub struct EventIngest<S: EventStore, Q: DeadTriggerQueue, T: TraceSink> {
    store: S,
    runtime: TriggerRuntime<Q, T>,
}

impl<S: EventStore, Q: DeadTriggerQueue, T: TraceSink> EventIngest<S, Q, T> {
    /// The store, as a value.
    pub closed spec fn stored(&self) -> S {
        self.store
    }

    /// The runtime, as a value.
    pub closed spec fn running(&self) -> TriggerRuntime<Q, T> {
        self.runtime
    }

    pub fn new(store: S, runtime: TriggerRuntime<Q, T>) -> (r: Self)
        ensures
            r.stored() == store,
            r.running() == runtime,
    {
        EventIngest { store, runtime }
    }

    pub fn runtime(&self) -> (r: &TriggerRuntime<Q, T>)
        ensures
            *r == self.running(),
    {
        &self.runtime
    }

    pub fn store(&self) -> (r: &S)
        ensures
            *r == self.stored(),
    {
        &self.store
    }

    /// The runtime, for the runs that change it.
    pub fn runtime_mut(&mut self) -> (r: &mut TriggerRuntime<Q, T>)
        ensures
            *r == old(self).running(),
            final(self).stored() == old(self).stored(),
            final(self).running() == *final(r),
    {
        &mut self.runtime
    }

    /// The store, for what changes it outside the pipeline, such as a manual prune.
    pub fn store_mut(&mut self) -> (r: &mut S)
        ensures
            *r == old(self).stored(),
            final(self).running() == old(self).running(),
            final(self).stored() == *final(r),
    {
        &mut self.store
    }

    /// The id of the retained event that `event` repeats.
    fn find_duplicate(&self, event: &EventEnvelope) -> (r: Option<EventId>)
        ensures
            match duplicate_of(self.stored().log(), event@) {
                Some(existing) => r is Some && r->0@ == existing.id,
                None => r is None,
            },
    {
        match &event.metadata.idempotency_key {
            Some(key) => match self.store.find_by_idempotency_key(key.as_str()) {
                Some(existing) => Some(existing.id),
                None => None,
            },
            None => None,
        }
    }

    /// Persist an event and begin to handle it, unless it repeats a retained one. The event
    /// is in the store before the run that submits its jobs exists.
    pub fn ingest(&mut self, event: EventEnvelope) -> (r: Result<IngestStep, RuntimeError>)
        ensures
            S::never_fails() ==> r is Ok,
            final(self).running() == old(self).running(),
            final(self).stored().delivered() == old(self).stored().delivered(),
            match duplicate_of(old(self).stored().log(), event@) {
                Some(existing) => {
                    &&& r is Ok
                    &&& r->Ok_0 is Deduplicated
                    &&& r->Ok_0->Deduplicated_0@ == (IngestView {
                        event_id: id_text(existing.id),
                        handle: nothing_handled(),
                        deduplicated: true,
                    })
                    &&& final(self).stored().log() == old(self).stored().log()
                },
                None => match r {
                    Ok(step) => {
                        &&& step is Handle
                        &&& step->Handle_0@ == started(old(self).running(), event@)
                        &&& final(self).stored().log() == old(self).stored().log().push(event@)
                    },
                    Err(error) => {
                        &&& error is Storage
                        &&& old(self).stored().may_refuse(
                            StoreChange::Append(event@),
                            error->Storage_0@,
                        )
                        &&& final(self).stored().log() == old(self).stored().log()
                    },
                },
            },
    {
        if let Some(existing) = self.find_duplicate(&event) {
            let submitted: Vec<String> = Vec::new();
            let failed: Vec<DeadTriggerRecord> = Vec::new();
            assert(views(submitted@) =~= Seq::<Seq<char>>::empty());
            assert(views(failed@) =~= Seq::<crate::storage::DeadTriggerView>::empty());
            return Ok(
                IngestStep::Deduplicated(
                    IngestReport {
                        event_id: existing.to_string(),
                        handle: HandleReport { submitted, failed },
                        deduplicated: true,
                    },
                ),
            );
        }
        match self.store.append(event.clone()) {
            Ok(()) => Ok(IngestStep::Handle(self.runtime.handle(event))),
            Err(error) => Err(RuntimeError::Storage(error)),
        }
    }

    /// Mark an ingested event delivered, now that every matched trigger is settled, and
    /// report. A run that stopped on an error never becomes a finished one, so its event
    /// stays undelivered and a restart replays it.
    pub fn finish_ingest(&mut self, finished: FinishedRun) -> (r: Result<
        IngestReport,
        RuntimeError,
    >)
        ensures
            finished@.outcomes.len() == finished@.matched.len(),
            S::never_fails() ==> r is Ok,
            final(self).running() == old(self).running(),
            final(self).stored().log() == old(self).stored().log(),
            match r {
                Ok(report) => {
                    &&& report@ == (IngestView {
                        event_id: id_text(finished@.event.id),
                        handle: report_of(finished@.outcomes),
                        deduplicated: false,
                    })
                    &&& final(self).stored().delivered() == delivered_with(
                        S::tracks_delivery(),
                        old(self).stored().delivered(),
                        finished@.event.id,
                    )
                },
                Err(error) => {
                    &&& error is Storage
                    &&& old(self).stored().may_refuse(
                        StoreChange::Mark(finished@.event.id),
                        error->Storage_0@,
                    )
                    &&& final(self).stored().delivered() == old(self).stored().delivered()
                },
            },
    {
        let id = finished.event_id();
        match self.store.mark_delivered(id) {
            Ok(()) => Ok(
                IngestReport {
                    event_id: id.to_string(),
                    handle: finished.report(),
                    deduplicated: false,
                },
            ),
            Err(error) => Err(RuntimeError::Storage(error)),
        }
    }

    /// Accept an event without handling it: store it, unless it repeats a retained one. It
    /// stays undelivered until a dispatcher, or the recovery after a crash, handles it.
    pub fn accept(&mut self, event: EventEnvelope) -> (r: Result<AcceptReport, RuntimeError>)
        ensures
            S::never_fails() ==> r is Ok,
            final(self).running() == old(self).running(),
            final(self).stored().delivered() == old(self).stored().delivered(),
            match duplicate_of(old(self).stored().log(), event@) {
                Some(existing) => {
                    &&& r is Ok
                    &&& r->Ok_0@ == (AcceptView {
                        event_id: id_text(existing.id),
                        deduplicated: true,
                    })
                    &&& final(self).stored().log() == old(self).stored().log()
                },
                None => match r {
                    Ok(report) => {
                        &&& report@ == (AcceptView {
                            event_id: id_text(event@.id),
                            deduplicated: false,
                        })
                        &&& final(self).stored().log() == old(self).stored().log().push(event@)
                    },
                    Err(error) => {
                        &&& error is Storage
                        &&& old(self).stored().may_refuse(
                            StoreChange::Append(event@),
                            error->Storage_0@,
                        )
                        &&& final(self).stored().log() == old(self).stored().log()
                    },
                },
            },
    {
        if let Some(existing) = self.find_duplicate(&event) {
            return Ok(AcceptReport { event_id: existing.to_string(), deduplicated: true });
        }
        let event_id = event.id.to_string();
        match self.store.append(event) {
            Ok(()) => Ok(AcceptReport { event_id, deduplicated: false }),
            Err(error) => Err(RuntimeError::Storage(error)),
        }
    }

    /// Begin to handle an event that was accepted before.
    pub fn dispatch(&self, event: EventEnvelope) -> (r: HandleRun)
        ensures
            r@ == started(self.running(), event@),
    {
        self.runtime.handle(event)
    }

    /// Mark a dispatched event delivered, now that every matched trigger is settled.
    pub fn finish_dispatch(&mut self, finished: FinishedRun) -> (r: Result<
        HandleReport,
        RuntimeError,
    >)
        ensures
            finished@.outcomes.len() == finished@.matched.len(),
            S::never_fails() ==> r is Ok,
            final(self).running() == old(self).running(),
            final(self).stored().log() == old(self).stored().log(),
            match r {
                Ok(report) => {
                    &&& report@ == report_of(finished@.outcomes)
                    &&& final(self).stored().delivered() == delivered_with(
                        S::tracks_delivery(),
                        old(self).stored().delivered(),
                        finished@.event.id,
                    )
                },
                Err(error) => {
                    &&& error is Storage
                    &&& old(self).stored().may_refuse(
                        StoreChange::Mark(finished@.event.id),
                        error->Storage_0@,
                    )
                    &&& final(self).stored().delivered() == old(self).stored().delivered()
                },
            },
    {
        match self.store.mark_delivered(finished.event_id()) {
            Ok(()) => Ok(finished.report()),
            Err(error) => Err(RuntimeError::Storage(error)),
        }
    }

    /// Begin to replay the events that are stored but not delivered, as a crash leaves
    /// them. Submitting again is safe: the submission keys are the same.
    pub fn recover_undelivered(&self) -> (r: RecoveryRun)
        ensures
            r@ == (RecoveryView {
                events: undelivered_events(self.stored().log(), self.stored().delivered()),
                recovered: 0,
            }),
    {
        RecoveryRun { events: self.store.undelivered(), recovered: 0 }
    }

    /// Mark the event that a recovery just handled delivered, now that every matched trigger
    /// is settled, and go on.
    pub fn finish_recovered(&mut self, pending: PendingRecovery, finished: FinishedRun) -> (r:
        Result<RecoveryRun, RuntimeError>)
        requires
            0 <= pending@.recovered < pending@.events.len(),
            finished@.event == pending@.events[pending@.recovered],
        ensures
            finished@.outcomes.len() == finished@.matched.len(),
            S::never_fails() ==> r is Ok,
            final(self).running() == old(self).running(),
            final(self).stored().log() == old(self).stored().log(),
            match r {
                Ok(run) => {
                    &&& run@ == (RecoveryView {
                        events: pending@.events,
                        recovered: pending@.recovered + 1,
                    })
                    &&& final(self).stored().delivered() == delivered_with(
                        S::tracks_delivery(),
                        old(self).stored().delivered(),
                        finished@.event.id,
                    )
                },
                Err(error) => {
                    &&& error is Storage
                    &&& old(self).stored().may_refuse(
                        StoreChange::Mark(finished@.event.id),
                        error->Storage_0@,
                    )
                    &&& final(self).stored().delivered() == old(self).stored().delivered()
                },
            },
    {
        proof {
            use_type_invariant(&pending);
        }
        let RecoveryRun { events, recovered } = pending.run;
        match self.store.mark_delivered(finished.event_id()) {
            Ok(()) => {
                let count: usize = events.len();
                assert(recovered < count);
                Ok(RecoveryRun { events, recovered: recovered + 1 })
            },
            Err(error) => Err(RuntimeError::Storage(error)),
        }
    }

    /// Bound both the store and the dead-trigger queue by a retention policy, given the
    /// serialized size of each record: first the store, then the queue. A policy without
    /// bounds leaves both alone. An error of the store or of the queue is returned as it is;
    /// the queue is then as it was.
    pub fn sweep(
        &mut self,
        policy: &AutoRetention,
        now: &Timestamp,
        event_sizes: &Vec<u64>,
        dead_sizes: &Vec<u64>,
    ) -> (r: Result<Sweep, StorageError>)
        ensures
            final(self).running().same_setup(&old(self).running()),
            policy@ == no_bounds() ==> {
                &&& r == Ok::<Sweep, StorageError>(Sweep { events: 0, dead_triggers: 0 })
                &&& *final(self) == *old(self)
            },
            S::never_fails() && Q::never_fails() ==> r is Ok,
            r matches Err(error) ==> {
                &&& final(self).running().state() == old(self).running().state()
                &&& old(self).stored().may_refuse(
                    StoreChange::Sweep(policy@, now@, event_sizes@),
                    error@,
                ) || old(self).running().queue().may_refuse(
                    QueueChange::Sweep(policy@, now@, dead_sizes@),
                    error@,
                )
            },
            r is Ok || S::never_fails() ==> {
                let log = old(self).stored().log();
                let kept = swept_events(
                    S::sweeps(),
                    log,
                    event_sizes@,
                    old(self).stored().delivered(),
                    policy@,
                    now@,
                );
                &&& final(self).stored().log() == kept
                &&& final(self).stored().delivered() == delivered_after_sweep(
                    old(self).stored().delivered(),
                    log,
                    kept,
                )
                &&& r matches Ok(sweep) ==> sweep.events == log.len() - kept.len()
            },
            r matches Ok(sweep) ==> {
                let dead = old(self).running().state().dead;
                let kept_dead = swept_records(
                    Q::sweeps(),
                    dead,
                    dead_sizes@,
                    policy@,
                    now@,
                );
                &&& final(self).running().state() == (RuntimeState {
                    dead: kept_dead,
                    ..old(self).running().state()
                })
                &&& sweep.dead_triggers == dead.len() - kept_dead.len()
            },
    {
        if policy.is_unbounded() {
            proof {
                crate::retention::law_unbounded_retains_everything::<DeadTriggerRecord>(
                    self.stored().log(),
                    self.running().state().dead,
                    event_sizes@,
                    self.stored().delivered(),
                    now@,
                );
                crate::retention::law_unbounded_retains_everything::<DeadTriggerRecord>(
                    self.stored().log(),
                    self.running().state().dead,
                    dead_sizes@,
                    self.stored().delivered(),
                    now@,
                );
            }
            return Ok(Sweep { events: 0, dead_triggers: 0 });
        }
        let events = match self.store.enforce_retention(policy, now, event_sizes) {
            Ok(events) => events,
            Err(error) => return Err(error),
        };
        match self.runtime.enforce_dead_trigger_retention(policy, now, dead_sizes) {
            Ok(dead_triggers) => Ok(Sweep { events, dead_triggers }),
            Err(error) => Err(error),
        }
    }
}

// ---------------------------------------------------------------------------------------
// Laws

/// An event without an idempotency key is always ingested.
pub proof fn law_keyless_event_is_never_a_duplicate(log: Seq<EventView>, event: EventView)
    requires
        event.metadata.idempotency_key is None,
    ensures
        duplicate_of(log, event) is None,
{
}

/// A second event with the idempotency key of a retained one is a duplicate of the first
/// with that key; one whose key no retained event has, because none came or because it was
/// removed, is new.
pub proof fn law_duplicates_are_scoped_to_the_log(log: Seq<EventView>, event: EventView)
    requires
        event.metadata.idempotency_key is Some,
    ensures
        duplicate_of(log, event) is Some <==> exists|i: int|
            0 <= i < log.len() && (#[trigger] log[i]).metadata.idempotency_key
                == event.metadata.idempotency_key,
        duplicate_of(log.push(event), event) is Some,
        duplicate_of(log, event) is None ==> duplicate_of(log.push(event), event) == Some(event),
{
    let key = event.metadata.idempotency_key->0;
    crate::storage::law_key_lookup_is_scoped_to_the_log(log, key);
    crate::model::lemma_first_where_push(
        log,
        event,
        |other: EventView| other.metadata.idempotency_key == Some(key),
    );
    if let Some(found) = duplicate_of(log, event) {
        let i = choose|i: int| 0 <= i < log.len() && log[i] == found;
        assert(log[i].metadata.idempotency_key == event.metadata.idempotency_key);
    }
}

/// A moment in a recovery: where it stands, and which ids are marked delivered.
pub struct RecoveryMoment {
    pub run: RecoveryView,
    pub delivered: Set<u128>,
}

/// Whether a recovery of a store that tracks delivery went through these moments: it begins
/// with the undelivered events, and at every step the event that was next is marked.
pub open spec fn is_recovery(log: Seq<EventView>, moments: Seq<RecoveryMoment>) -> bool {
    &&& moments.len() > 0
    &&& moments[0].run == (RecoveryView {
        events: undelivered_events(log, moments[0].delivered),
        recovered: 0,
    })
    &&& moments.len() <= moments[0].run.events.len() + 1
    &&& forall|i: int|
        0 <= i < moments.len() - 1 ==> {
            let run = (#[trigger] moments[i]).run;
            &&& moments[i + 1].run == (RecoveryView {
                events: run.events,
                recovered: run.recovered + 1,
            })
            &&& moments[i + 1].delivered == delivered_with(
                true,
                moments[i].delivered,
                run.events[run.recovered].id,
            )
        }
}

/// What holds after some events of a recovery: as many are recovered, and they are marked.
proof fn lemma_recovery(log: Seq<EventView>, moments: Seq<RecoveryMoment>, at: int)
    requires
        is_recovery(log, moments),
        0 <= at < moments.len(),
    ensures
        moments[at].run.events == moments[0].run.events,
        moments[at].run.recovered == at,
        moments[0].delivered.subset_of(moments[at].delivered),
        forall|i: int|
            0 <= i < at ==> moments[at].delivered.contains(
                (#[trigger] moments[0].run.events[i]).id,
            ),
    decreases at,
{
    if at > 0 {
        lemma_recovery(log, moments, at - 1);
        let last = at - 1;
        assert(moments[last + 1].run.events == moments[last].run.events);
    }
}

/// After a whole recovery nothing is in flight: once every undelivered event has been
/// handled again and marked, no retained event is undelivered.
pub proof fn law_recovery_leaves_nothing_in_flight(
    log: Seq<EventView>,
    moments: Seq<RecoveryMoment>,
)
    requires
        is_recovery(log, moments),
        moments.last().run.recovered == moments.last().run.events.len(),
    ensures
        undelivered_events(log, moments.last().delivered).len() == 0,
{
    broadcast use Seq::lemma_filter_contains;

    let delivered = moments[0].delivered;
    let after = moments.last().delivered;
    lemma_recovery(log, moments, moments.len() - 1);
    let pending = |event: EventView| !delivered.contains(event.id);
    let still = |event: EventView| !after.contains(event.id);
    assert forall|i: int| 0 <= i < log.len() implies !still(#[trigger] log[i]) by {
        if pending(log[i]) {
            assert(log.filter(pending).contains(log[i]));
            let k = choose|k: int|
                0 <= k < log.filter(pending).len() && log.filter(pending)[k] == log[i];
            assert(after.contains(moments[0].run.events[k].id));
        }
    }
    log.lemma_all_neg_filter_empty(still);
}

/// An event repeats the first retained event with its own idempotency key: whatever is found
/// has that key and none before it does, and nothing is found only where no retained event
/// has it.
pub proof fn law_event_repeats_the_first_with_its_key(
    log: Seq<EventView>,
    last: EventView,
    event: EventView,
)
    ensures
        event.metadata.idempotency_key is None ==> duplicate_of(log, event) is None,
        duplicate_of(log, event) matches Some(earlier) ==> log.contains(earlier)
            && earlier.metadata.idempotency_key == event.metadata.idempotency_key
            && event.metadata.idempotency_key is Some,
        event.metadata.idempotency_key is Some ==> {
            &&& duplicate_of(log, event) is Some ==> duplicate_of(log.push(last), event)
                == duplicate_of(log, event)
            &&& duplicate_of(log, event) is None ==> duplicate_of(log.push(last), event) == if (
            last.metadata.idempotency_key == event.metadata.idempotency_key) {
                Some(last)
            } else {
                None
            }
        },
        duplicate_of(Seq::empty(), event) is None,
{
    if let Some(key) = event.metadata.idempotency_key {
        crate::storage::law_key_lookup_is_scoped_to_the_log(log, key);
        crate::storage::law_lookups_give_the_first_that_fits(log, last, 0, key);
    }
}

/// Handling starts with the event, with the registrations that are switched on and accept it,
/// each in its place, and with nothing done yet.
pub proof fn law_handling_starts_with_the_matching_triggers<Q: DeadTriggerQueue, T: TraceSink>(
    runtime: TriggerRuntime<Q, T>,
    event: EventView,
)
    ensures
        ({
            let run = started(runtime, event);
            &&& run.event == event
            &&& run.outcomes.len() == 0
            &&& run.matched == runtime.registrations().filter(
                |registration: crate::registry::RegisteredTrigger|
                    registration.enabled() && registration.trigger().accepts(event),
            )
        }),
        nothing_handled().submitted.len() == 0,
        nothing_handled().failed.len() == 0,
{
    assert((|registration: crate::registry::RegisteredTrigger|
        registration.enabled() && registration.trigger().accepts(event)) =~= (
    |registration: crate::registry::RegisteredTrigger| registration.selects(event)));
}

/// An event that repeats an ingested one is not handled again: with the first in the store,
/// ingesting another with the same idempotency key stores nothing, starts no run and reports
/// no job, whatever else the two differ in.
pub proof fn law_repeated_event_is_not_handled_again<
    S: EventStore,
    Q: DeadTriggerQueue,
    T: TraceSink,
>(
    first: &mut EventIngest<S, Q, T>,
    event: EventEnvelope,
    one: Result<IngestStep, RuntimeError>,
    second: &mut EventIngest<S, Q, T>,
    again: EventEnvelope,
    two: Result<IngestStep, RuntimeError>,
)
    requires
        call_ensures(EventIngest::<S, Q, T>::ingest, (first, event), one),
        call_ensures(EventIngest::<S, Q, T>::ingest, (second, again), two),
        one is Ok,
        event@.metadata.idempotency_key is Some,
        again@.metadata.idempotency_key == event@.metadata.idempotency_key,
    ensures
        old(second).stored().log() == final(first).stored().log() ==> {
            &&& two is Ok
            &&& two->Ok_0 is Deduplicated
            &&& two->Ok_0->Deduplicated_0@.deduplicated
            &&& two->Ok_0->Deduplicated_0@.handle.submitted.len() == 0
            &&& two->Ok_0->Deduplicated_0@.handle.failed.len() == 0
            &&& final(second).stored().log() == old(second).stored().log()
            &&& final(second).running() == old(second).running()
        },
{
    law_event_repeats_the_first_with_its_key(old(first).stored().log(), event@, event@);
    law_event_repeats_the_first_with_its_key(old(first).stored().log(), event@, again@);
    let log = old(first).stored().log();
    assert(duplicate_of(log, again@) == duplicate_of(log, event@));
}

/// A new event is stored before it is handled: an event that repeats none is the last of the
/// log when its run starts, and is in flight until the run is finished and marked.
pub proof fn law_new_event_is_stored_then_handled<
    S: EventStore,
    Q: DeadTriggerQueue,
    T: TraceSink,
>(
    ingest: &mut EventIngest<S, Q, T>,
    event: EventEnvelope,
    result: Result<IngestStep, RuntimeError>,
)
    requires
        call_ensures(EventIngest::<S, Q, T>::ingest, (ingest, event), result),
        forall|k: int|
            0 <= k < old(ingest).stored().log().len() ==> (
            #[trigger] old(ingest).stored().log()[k]).metadata.idempotency_key
                != event@.metadata.idempotency_key || event@.metadata.idempotency_key is None,
    ensures
        result matches Ok(step) ==> {
            &&& step is Handle
            &&& step->Handle_0@.event == event@
            &&& step->Handle_0@.outcomes.len() == 0
            &&& final(ingest).stored().log() == old(ingest).stored().log().push(event@)
        },
        result is Err ==> final(ingest).stored().log() == old(ingest).stored().log(),
        final(ingest).stored().delivered() == old(ingest).stored().delivered(),
{
    if let Some(earlier) = duplicate_of(old(ingest).stored().log(), event@) {
        law_event_repeats_the_first_with_its_key(old(ingest).stored().log(), event@, event@);
        let k = choose|k: int|
            0 <= k < old(ingest).stored().log().len() && old(ingest).stored().log()[k] == earlier;
        assert(old(ingest).stored().log()[k].metadata.idempotency_key
            == event@.metadata.idempotency_key);
    }
}

/// Accepting an event and ingesting it agree on whether it is a repetition, and on what is
/// stored.
pub proof fn law_accepting_stores_as_ingesting_does<
    S: EventStore,
    Q: DeadTriggerQueue,
    T: TraceSink,
>(
    accepting: &mut EventIngest<S, Q, T>,
    ingesting: &mut EventIngest<S, Q, T>,
    event: EventEnvelope,
    accepted: Result<AcceptReport, RuntimeError>,
    ingested: Result<IngestStep, RuntimeError>,
)
    requires
        call_ensures(EventIngest::<S, Q, T>::accept, (accepting, event), accepted),
        call_ensures(EventIngest::<S, Q, T>::ingest, (ingesting, event), ingested),
        old(accepting).stored().log() == old(ingesting).stored().log(),
        accepted is Ok,
        ingested is Ok,
    ensures
        accepted->Ok_0@.deduplicated <==> ingested->Ok_0 is Deduplicated,
        accepted->Ok_0@.deduplicated ==> accepted->Ok_0@.event_id
            == ingested->Ok_0->Deduplicated_0@.event_id,
        !accepted->Ok_0@.deduplicated ==> accepted->Ok_0@.event_id == id_text(event@.id),
        final(accepting).stored().log() == final(ingesting).stored().log(),
        final(accepting).running() == old(accepting).running(),
{
}

/// A finished run marks its own event and no other, where delivery is tracked, and its report
/// is that of the run.
pub proof fn law_finished_run_marks_its_event<S: EventStore, Q: DeadTriggerQueue, T: TraceSink>(
    ingest: &mut EventIngest<S, Q, T>,
    finished: FinishedRun,
    result: Result<IngestReport, RuntimeError>,
    id: u128,
)
    requires
        call_ensures(EventIngest::<S, Q, T>::finish_ingest, (ingest, finished), result),
    ensures
        result is Ok && S::tracks_delivery() ==> (final(ingest).stored().delivered().contains(id)
            <==> id == finished@.event.id || old(ingest).stored().delivered().contains(id)),
        result is Err || !S::tracks_delivery() ==> final(ingest).stored().delivered() == old(
            ingest,
        ).stored().delivered(),
        final(ingest).stored().log() == old(ingest).stored().log(),
        result matches Ok(report) ==> {
            &&& report@.event_id == id_text(finished@.event.id)
            &&& report@.handle == report_of(finished@.outcomes)
            &&& !report@.deduplicated
        },
{
}

/// A sweep accounts for what it removes: what it reports as removed and what is left are
/// together what there was, in the store and in the queue; and where both apply retention,
/// nothing that is left is older than the age bound, and no more is left than the count bound
/// says.
pub proof fn law_sweep_accounts_for_what_it_removes<
    S: EventStore,
    Q: DeadTriggerQueue,
    T: TraceSink,
>(
    ingest: &mut EventIngest<S, Q, T>,
    policy: &AutoRetention,
    now: &Timestamp,
    event_sizes: &Vec<u64>,
    dead_sizes: &Vec<u64>,
    result: Result<Sweep, StorageError>,
    k: int,
)
    requires
        call_ensures(
            EventIngest::<S, Q, T>::sweep,
            (ingest, policy, now, event_sizes, dead_sizes),
            result,
        ),
        result is Ok,
    ensures
        final(ingest).stored().log().len() + result->Ok_0.events == old(
            ingest,
        ).stored().log().len(),
        final(ingest).running().state().dead.len() + result->Ok_0.dead_triggers == old(
            ingest,
        ).running().state().dead.len(),
        S::sweeps() && 0 <= k < final(ingest).stored().log().len() ==> (
        policy.max_age matches Some(limit) ==> crate::time::elapsed(
            now@,
            final(ingest).stored().log()[k].timestamp,
        ) <= limit@),
        Q::sweeps() && 0 <= k < final(ingest).running().state().dead.len() ==> (
        policy.max_age matches Some(limit) ==> crate::time::elapsed(
            now@,
            final(ingest).running().state().dead[k].event.timestamp,
        ) <= limit@),
        policy.max_count matches Some(max) ==> {
            &&& S::sweeps() ==> final(ingest).stored().log().len() <= max
            &&& Q::sweeps() ==> final(ingest).running().state().dead.len() <= max
        },
{
    crate::retention::law_each_bound_holds_by_itself::<DeadTriggerRecord>(
        old(ingest).stored().log(),
        old(ingest).running().state().dead,
        event_sizes@,
        old(ingest).stored().delivered(),
        policy@,
        now@,
        k,
    );
    crate::retention::law_each_bound_holds_by_itself::<DeadTriggerRecord>(
        old(ingest).stored().log(),
        old(ingest).running().state().dead,
        dead_sizes@,
        old(ingest).stored().delivered(),
        policy@,
        now@,
        k,
    );
}

} // verus!
