use triggerlane::event::{
    EventEnvelope, EventId, EventMetadata, EventType, Source, EVENT_GITHUB_ISSUE_CREATED,
};
use triggerlane::ingest::{EventIngest, IngestReport, IngestStep, RecoveryStep};
use triggerlane::registry::{RegisteredTrigger, TriggerRegistry};
use triggerlane::replay::{ReplayError, ReplayFilter, ReplayRangeReport, ReplayRun, ReplayStep};
use triggerlane::retention::{AutoRetention, ManualRetention};
use triggerlane::retry::{DeadTriggerRetryReport, RetryStep};
use triggerlane::runtime::{
    unique_key, FinishedRun, HandleReport, HandleRun, HandleStep, ReplyStep, RuntimeError,
    RuntimeOptions, TriggerRuntime,
};
use triggerlane::storage::{
    DeadTriggerQueue, DeadTriggerRecord, EventStore, InMemoryDeadTriggerQueue, InMemoryEventStore,
    StorageError,
};
use triggerlane::time::{Delay, TimeSpan, Timestamp};
use triggerlane::trace::{
    InMemoryTraceSink, LogLevel, LoggingTraceSink, NoopTraceSink, TraceSink, TriggerTrace,
};
use triggerlane::trigger::{
    Binding, BindingError, EventTypeTrigger, WorklaneJob, WorklaneJobBinding,
};

/// A broker that keeps one live job per unique key, and fails the first calls.
struct Broker {
    jobs: Vec<(String, WorklaneJob)>,
    failures: usize,
    calls: usize,
    delays: Vec<u128>,
}

impl Broker {
    fn new() -> Self {
        Broker::failing(0)
    }

    fn failing(failures: usize) -> Self {
        Broker {
            jobs: Vec::new(),
            failures,
            calls: 0,
            delays: Vec::new(),
        }
    }

    fn len(&self) -> usize {
        self.jobs.len()
    }

    fn is_empty(&self) -> bool {
        self.jobs.is_empty()
    }

    fn enqueue(&mut self, key: &str, job: &WorklaneJob) -> Result<String, String> {
        self.calls += 1;
        if self.failures > 0 {
            self.failures -= 1;
            return Err("temporary failure".to_owned());
        }
        let at = match self.jobs.iter().position(|(own, _)| own == key) {
            Some(at) => at,
            None => {
                self.jobs.push((
                    key.to_owned(),
                    WorklaneJob::new(&job.lane, &job.kind, job.payload.clone(), job.max_attempts),
                ));
                self.jobs.len() - 1
            }
        };
        Ok(format!("job-{at}"))
    }

    fn reserve(&self, lane: &str) -> Option<&WorklaneJob> {
        self.jobs.iter().map(|(_, job)| job).find(|job| job.lane == lane)
    }
}

fn drive<Q: DeadTriggerQueue, T: TraceSink>(
    runtime: &mut TriggerRuntime<Q, T>,
    broker: &mut Broker,
    run: HandleRun,
) -> Result<FinishedRun, RuntimeError> {
    let mut run = run;
    loop {
        match runtime.advance(run)? {
            HandleStep::Finished(finished) => return Ok(finished),
            HandleStep::Settled(next) => run = next,
            HandleStep::Submit(pending) => {
                let mut pending = pending;
                loop {
                    let submission = pending.submission();
                    broker.delays.push(submission.delay.nanos);
                    let reply = broker.enqueue(&submission.unique_key, &submission.job);
                    match runtime.resume(pending, reply)? {
                        ReplyStep::Retry(again) => pending = again,
                        ReplyStep::Settled(next) => {
                            run = next;
                            break;
                        }
                    }
                }
            }
        }
    }
}

fn handle<Q: DeadTriggerQueue, T: TraceSink>(
    runtime: &mut TriggerRuntime<Q, T>,
    broker: &mut Broker,
    event: EventEnvelope,
) -> Result<HandleReport, RuntimeError> {
    let run = runtime.handle(event);
    Ok(drive(runtime, broker, run)?.report())
}

fn ingest_event<S: EventStore, Q: DeadTriggerQueue, T: TraceSink>(
    ingest: &mut EventIngest<S, Q, T>,
    broker: &mut Broker,
    event: EventEnvelope,
) -> Result<IngestReport, RuntimeError> {
    match ingest.ingest(event)? {
        IngestStep::Deduplicated(report) => Ok(report),
        IngestStep::Handle(run) => {
            let finished = drive(ingest.runtime_mut(), broker, run)?;
            ingest.finish_ingest(finished)
        }
    }
}

fn replay<Q: DeadTriggerQueue, T: TraceSink>(
    runtime: &mut TriggerRuntime<Q, T>,
    broker: &mut Broker,
    run: ReplayRun,
) -> Result<ReplayRangeReport, RuntimeError> {
    let mut run = run;
    loop {
        match run.next() {
            ReplayStep::Done(report) => return Ok(report),
            ReplayStep::Handle(event, pending) => {
                let handling = runtime.handle(event);
                run = pending.handled(drive(runtime, broker, handling)?);
            }
        }
    }
}

fn retry<Q: DeadTriggerQueue, T: TraceSink>(
    runtime: &mut TriggerRuntime<Q, T>,
    broker: &mut Broker,
) -> Result<DeadTriggerRetryReport, RuntimeError> {
    let mut run = runtime.retry_dead_triggers()?;
    loop {
        match run.next() {
            RetryStep::Done(report) => return Ok(report),
            RetryStep::Handle(event, pending) => {
                let handling = runtime.handle(event);
                run = pending.handled(drive(runtime, broker, handling)?);
            }
        }
    }
}

fn trigger(name: &str, priority: i32, lane: &str) -> RegisteredTrigger {
    RegisteredTrigger::new(
        name,
        priority,
        Box::new(EventTypeTrigger::new(EVENT_GITHUB_ISSUE_CREATED)),
        Box::new(WorklaneJobBinding::new(lane, "CreateProjectionJob", 3)),
    )
}

fn registry_of(triggers: Vec<RegisteredTrigger>) -> TriggerRegistry {
    let mut registry = TriggerRegistry::new();
    for registration in triggers {
        registry.register(registration);
    }
    registry
}

fn github_issue_registry() -> TriggerRegistry {
    registry_of(vec![trigger("github-issue", 10, "projection")])
}

fn issue_event(payload: &[u8]) -> EventEnvelope {
    EventEnvelope::new(
        Source::GitHub,
        EventType::new(EVENT_GITHUB_ISSUE_CREATED),
        payload.to_vec(),
    )
}

fn github_issue_event() -> EventEnvelope {
    issue_event(br#"{"issue":1}"#)
}

fn keyed_event(key: &str) -> EventEnvelope {
    github_issue_event().with_metadata(EventMetadata {
        idempotency_key: Some(key.to_owned()),
        ..EventMetadata::default()
    })
}

fn minutes_after(base: &Timestamp, minutes: i64) -> Timestamp {
    Timestamp::new(base.seconds() + 60 * minutes, base.subsec_nanos()).expect("timestamp")
}

fn event_at(timestamp: Timestamp, payload: &[u8]) -> EventEnvelope {
    let mut event = issue_event(payload);
    event.timestamp = timestamp;
    event
}

type Ingest = EventIngest<InMemoryEventStore, InMemoryDeadTriggerQueue, NoopTraceSink>;

fn github_issue_ingest() -> (Broker, Ingest) {
    (
        Broker::new(),
        EventIngest::new(
            InMemoryEventStore::new(),
            TriggerRuntime::new(github_issue_registry()),
        ),
    )
}

struct FailingBinding;

impl Binding<WorklaneJob> for FailingBinding {
    fn bind(&self, _event: &EventEnvelope) -> Result<WorklaneJob, BindingError> {
        Err(BindingError::Rejected("bad event".to_owned()))
    }
}

fn failing_registry() -> TriggerRegistry {
    registry_of(vec![RegisteredTrigger::new(
        "failing",
        10,
        Box::new(EventTypeTrigger::new(EVENT_GITHUB_ISSUE_CREATED)),
        Box::new(FailingBinding),
    )])
}

#[test]
fn logging_trace_sink_records_without_a_subscriber() {
    let mut sink = LoggingTraceSink::new();
    sink.record(TriggerTrace {
        event_id: "evt-1".to_owned(),
        event_type: EventType::new(EVENT_GITHUB_ISSUE_CREATED),
        source: Source::GitHub,
        matched_triggers: vec!["t".to_owned()],
        submitted: vec!["job-1".to_owned()],
        failure_count: 0,
    });
    sink.record(TriggerTrace {
        event_id: "evt-2".to_owned(),
        event_type: EventType::new(EVENT_GITHUB_ISSUE_CREATED),
        source: Source::GitHub,
        matched_triggers: vec!["t".to_owned()],
        submitted: Vec::new(),
        failure_count: 1,
    });
    let records = sink.take_pending();
    assert_eq!(records.len(), 2);
    assert_eq!(records[0].level, LogLevel::Info);
    assert_eq!(records[0].message, "event handled");
    assert_eq!(records[0].submitted, 1);
    assert_eq!(records[1].level, LogLevel::Warn);
    assert_eq!(records[1].message, "event handled with trigger failures");
    assert_eq!(records[1].event_id, "evt-2");
    assert_eq!(records[1].failure_count, 1);
    assert!(sink.take_pending().is_empty());
}

#[test]
fn matching_trigger_submits_worklane_job() {
    let mut broker = Broker::new();
    let mut runtime = TriggerRuntime::new(github_issue_registry());

    let report =
        handle(&mut runtime, &mut broker, github_issue_event()).expect("event should handle");

    assert_eq!(report.submitted.len(), 1);
    assert_eq!(broker.len(), 1);
    let reserved = broker.reserve("projection").expect("job should exist");
    assert_eq!(reserved.kind, "CreateProjectionJob");
    assert_eq!(reserved.payload, br#"{"issue":1}"#);
    assert_eq!(runtime.observed_lanes(), vec!["projection"]);
}

#[test]
fn dead_triggers_are_recorded_into_the_injected_queue() {
    let mut broker = Broker::new();
    let queue = InMemoryDeadTriggerQueue::new();
    // A whitespace lane is rejected by the Worklane `Lane` contract, so the
    // submission fails terminally and is recorded as a dead trigger.
    let mut runtime = TriggerRuntime::new(registry_of(vec![trigger("bad-lane", 10, "  ")]))
        .with_dead_trigger_queue(queue);

    let report = handle(&mut runtime, &mut broker, issue_event(b"{}")).expect("event should handle");

    assert_eq!(report.submitted.len(), 0);
    assert_eq!(report.failed.len(), 1);
    assert_eq!(runtime.dead_triggers().len(), 1);
    assert_eq!(runtime.dead_trigger_count(), 1);
    assert_eq!(broker.calls, 0);
    assert!(runtime.observed_lanes().is_empty());
}

#[test]
fn injected_queue_keeps_its_earlier_records() {
    let mut broker = Broker::new();
    let mut queue = InMemoryDeadTriggerQueue::new();
    queue
        .record(DeadTriggerRecord {
            event: github_issue_event(),
            trigger_name: "earlier".to_owned(),
            error: "e".to_owned(),
        })
        .unwrap();
    let mut runtime = TriggerRuntime::new(failing_registry()).with_dead_trigger_queue(queue);
    handle(&mut runtime, &mut broker, issue_event(b"{}")).expect("event should handle");
    let names: Vec<_> = runtime
        .dead_triggers()
        .into_iter()
        .map(|record| record.trigger_name)
        .collect();
    assert_eq!(names, vec!["earlier", "failing"]);
}

struct FailingQueue;

impl DeadTriggerQueue for FailingQueue {
    fn record(&mut self, _record: DeadTriggerRecord) -> Result<(), StorageError> {
        Err(StorageError::new("dead-trigger write failed"))
    }

    fn all(&self) -> Vec<DeadTriggerRecord> {
        Vec::new()
    }

    fn drain(&mut self) -> Result<Vec<DeadTriggerRecord>, StorageError> {
        Ok(Vec::new())
    }

    fn prune(&mut self, _policy: &ManualRetention) -> Result<usize, StorageError> {
        Ok(0)
    }

    fn enforce_retention(
        &mut self,
        _policy: &AutoRetention,
        _now: &Timestamp,
        _sizes: &Vec<u64>,
    ) -> Result<usize, StorageError> {
        Ok(0)
    }

    fn size_bytes(&self) -> u64 {
        0
    }

    fn len(&self) -> usize {
        0
    }
}

#[test]
fn dead_trigger_record_failure_surfaces_as_error() {
    let mut broker = Broker::new();
    // Whitespace lane fails to enqueue, so handling tries to record a dead
    // trigger — which here fails durably.
    let mut runtime = TriggerRuntime::new(registry_of(vec![trigger("bad-lane", 10, "  ")]))
        .with_dead_trigger_queue(FailingQueue);

    let error = match handle(&mut runtime, &mut broker, issue_event(b"{}")) {
        Ok(_) => panic!("dead-trigger write failure should surface"),
        Err(error) => error,
    };
    assert!(matches!(error, RuntimeError::Storage(_)));
    assert_eq!(
        error.message(),
        "durable storage error: dead-trigger write failed"
    );
}

struct FailingStore;

impl EventStore for FailingStore {
    fn append(&mut self, _event: EventEnvelope) -> Result<(), StorageError> {
        Err(StorageError::new("event store write failed"))
    }

    fn get(&self, _id: EventId) -> Option<EventEnvelope> {
        None
    }

    fn all(&self) -> Vec<EventEnvelope> {
        Vec::new()
    }

    fn mark_delivered(&mut self, _id: EventId) -> Result<(), StorageError> {
        Err(StorageError::new("event store write failed"))
    }

    fn undelivered(&self) -> Vec<EventEnvelope> {
        Vec::new()
    }

    fn enforce_retention(
        &mut self,
        _policy: &AutoRetention,
        _now: &Timestamp,
        _sizes: &Vec<u64>,
    ) -> Result<usize, StorageError> {
        Ok(0)
    }

    fn prune(&mut self, _policy: &ManualRetention) -> Result<usize, StorageError> {
        Ok(0)
    }

    fn size_bytes(&self) -> u64 {
        0
    }
}

#[test]
fn event_store_append_failure_surfaces_through_ingest() {
    let mut broker = Broker::new();
    let runtime = TriggerRuntime::new(TriggerRegistry::new());
    let mut ingest = EventIngest::new(FailingStore, runtime);
    let event = EventEnvelope::new(
        Source::Manual,
        EventType::new("event.manual.test"),
        b"{}".to_vec(),
    );

    let error = match ingest_event(&mut ingest, &mut broker, event) {
        Ok(_) => panic!("append failure should surface"),
        Err(error) => error,
    };
    assert!(matches!(error, RuntimeError::Storage(_)));
    assert_eq!(error.message(), "durable storage error: event store write failed");
}

#[test]
fn retry_recovers_when_failure_is_resolved() {
    // The registry now has a valid trigger; a dead-trigger record left over
    // from an earlier failure re-handles successfully and leaves the queue.
    let mut broker = Broker::new();
    let mut queue = InMemoryDeadTriggerQueue::new();
    queue
        .record(DeadTriggerRecord {
            event: github_issue_event(),
            trigger_name: "github-issue".to_owned(),
            error: "broker was down".to_owned(),
        })
        .unwrap();
    let mut runtime =
        TriggerRuntime::new(github_issue_registry()).with_dead_trigger_queue(queue);

    let report = retry(&mut runtime, &mut broker).expect("retry should run");

    assert_eq!(report.drained, 1);
    assert_eq!(report.recovered, 1);
    assert_eq!(report.still_failed, 0);
    assert_eq!(report.submitted.len(), 1);
    assert!(runtime.dead_triggers().is_empty());
    assert_eq!(broker.len(), 1);
}

#[test]
fn retry_re_records_persistent_failure() {
    let mut broker = Broker::new();
    // Whitespace lane is always rejected, so the failure persists.
    let mut runtime = TriggerRuntime::new(registry_of(vec![trigger("bad-lane", 10, "  ")]))
        .with_dead_trigger_queue(InMemoryDeadTriggerQueue::new());
    handle(&mut runtime, &mut broker, issue_event(b"{}"))
        .expect("handle should record a dead trigger");
    assert_eq!(runtime.dead_triggers().len(), 1);

    let report = retry(&mut runtime, &mut broker).expect("retry should run");

    assert_eq!(report.drained, 1);
    assert_eq!(report.recovered, 0);
    assert_eq!(report.still_failed, 1);
    // The renewed failure is re-recorded (queue drained first, then re-added).
    assert_eq!(runtime.dead_triggers().len(), 1);
}

#[test]
fn retry_does_not_double_submit_a_succeeded_trigger() {
    // One event, two triggers: one valid (submits), one invalid (dead). On
    // retry the whole event is re-handled; the valid trigger must dedup at
    // the broker rather than create a second job.
    let mut broker = Broker::new();
    let mut runtime = TriggerRuntime::new(registry_of(vec![
        trigger("ok", 20, "projection"),
        trigger("bad-lane", 10, "  "),
    ]))
    .with_dead_trigger_queue(InMemoryDeadTriggerQueue::new());
    handle(&mut runtime, &mut broker, github_issue_event()).expect("handle should run");
    assert_eq!(broker.len(), 1);
    assert_eq!(runtime.dead_triggers().len(), 1);

    let report = retry(&mut runtime, &mut broker).expect("retry should run");

    assert_eq!(report.drained, 1);
    assert_eq!(report.still_failed, 1);
    assert_eq!(report.recovered, 0);
    // The valid trigger deduplicated rather than creating a second job.
    assert_eq!(broker.len(), 1);
}

#[test]
fn retry_counts_every_drained_record() {
    // Two events: one fails again through one of its two records, the other recovers.
    let mut broker = Broker::new();
    let mut queue = InMemoryDeadTriggerQueue::new();
    let first = github_issue_event();
    let mut second = github_issue_event();
    second.event_type = EventType::new("event.unmatched");
    for (event, name) in [
        (&first, "bad-lane"),
        (&second, "gone"),
        (&first, "ok"),
        (&first, "bad-lane"),
    ] {
        queue
            .record(DeadTriggerRecord {
                event: event.clone(),
                trigger_name: name.to_owned(),
                error: "e".to_owned(),
            })
            .unwrap();
    }
    let mut runtime = TriggerRuntime::new(registry_of(vec![
        trigger("ok", 20, "projection"),
        trigger("bad-lane", 10, "  "),
    ]))
    .with_dead_trigger_queue(queue);
    let report = retry(&mut runtime, &mut broker).expect("retry should run");
    assert_eq!(report.drained, 4);
    assert_eq!(report.events_retried, 2);
    assert_eq!(report.still_failed, 2);
    assert_eq!(report.recovered, 2);
    assert_eq!(report.submitted, vec!["job-0"]);
    assert_eq!(runtime.dead_trigger_count(), 1);
}

#[test]
fn retry_of_an_empty_queue_does_nothing() {
    let mut broker = Broker::new();
    let mut runtime = TriggerRuntime::new(github_issue_registry());
    let report = retry(&mut runtime, &mut broker).expect("retry should run");
    assert_eq!((report.drained, report.events_retried), (0, 0));
    assert_eq!(broker.calls, 0);
}

#[test]
fn duplicate_submission_dedups_via_unique_key() {
    let mut broker = Broker::new();
    let mut runtime = TriggerRuntime::new(github_issue_registry());
    let event = keyed_event("issue-1");

    // Handling the same event twice (e.g. duplicate delivery or replay) while
    // the job is still live must produce a single Worklane job.
    handle(&mut runtime, &mut broker, event.clone()).expect("first handle should succeed");
    handle(&mut runtime, &mut broker, event).expect("second handle should succeed");

    assert_eq!(broker.len(), 1);
}

#[test]
fn unique_keys_name_identity_and_trigger() {
    let keyed = keyed_event("issue-1");
    let other = keyed_event("issue-1");
    assert_ne!(keyed.id, other.id);
    assert_eq!(unique_key(&keyed, "t"), unique_key(&other, "t"));
    assert_eq!(unique_key(&keyed, "t"), "issue-1:t");
    let plain = github_issue_event();
    assert_eq!(unique_key(&plain, "t"), format!("{}:t", plain.id.to_string()));
    assert_ne!(unique_key(&plain, "t"), unique_key(&plain, "u"));
}

#[test]
fn duplicate_idempotency_key_is_deduplicated_on_ingest() {
    let (mut broker, mut ingest) = github_issue_ingest();

    let earlier = keyed_event("dup-1");
    let earlier_id = earlier.id.to_string();
    let first = ingest_event(&mut ingest, &mut broker, earlier).expect("first ingest");
    let second =
        ingest_event(&mut ingest, &mut broker, keyed_event("dup-1")).expect("second ingest");

    assert!(!first.deduplicated);
    assert!(second.deduplicated);
    assert_eq!(second.event_id, earlier_id);
    assert!(second.handle.submitted.is_empty());
    assert_eq!(
        ingest.store().all().len(),
        1,
        "duplicate event must not be stored"
    );
    assert_eq!(broker.len(), 1, "duplicate event must not submit again");
}

#[test]
fn accept_stores_without_handling_then_dispatch_handles() {
    let (mut broker, mut ingest) = github_issue_ingest();
    let event = github_issue_event();
    let id = event.id;

    // Accept durably stores the event but does NOT handle it: nothing submitted,
    // and the event is left undelivered for the dispatcher.
    let report = ingest.accept(event.clone()).expect("accept");
    assert!(!report.deduplicated);
    assert!(ingest.store().get(id).is_some());
    assert!(broker.is_empty(), "accept must not submit");
    assert_eq!(ingest.store().undelivered().len(), 1);

    // Dispatch handles the accepted event and marks it delivered.
    let run = ingest.dispatch(event);
    let finished = match drive(ingest.runtime_mut(), &mut broker, run) {
        Ok(finished) => finished,
        Err(_) => panic!("dispatch"),
    };
    assert_eq!(finished.event_id(), id);
    assert_eq!(finished.event().id, id);
    let handled = ingest.finish_dispatch(finished).expect("dispatch");
    assert_eq!(handled.submitted.len(), 1);
    assert_eq!(broker.len(), 1);
    assert!(ingest.store().undelivered().is_empty());
}

#[test]
fn accept_deduplicates_on_idempotency_key() {
    let (_broker, mut ingest) = github_issue_ingest();
    assert!(!ingest.accept(keyed_event("dup")).expect("first").deduplicated);
    assert!(ingest.accept(keyed_event("dup")).expect("second").deduplicated);
    assert_eq!(
        ingest.store().all().len(),
        1,
        "duplicate must not be stored again"
    );
}

#[test]
fn ingest_marks_event_delivered_once_work_is_taken() {
    let (mut broker, mut ingest) = github_issue_ingest();

    let report =
        ingest_event(&mut ingest, &mut broker, github_issue_event()).expect("ingest");

    assert_eq!(report.handle.submitted.len(), 1);
    assert_eq!(broker.len(), 1);
    // The event was submitted, so it is delivered and no longer in-flight.
    assert!(
        ingest.store().undelivered().is_empty(),
        "a fully-handled event must be marked delivered"
    );
}

fn recover_all(ingest: &mut Ingest, broker: &mut Broker) -> usize {
    let mut run = ingest.recover_undelivered();
    loop {
        match run.next() {
            RecoveryStep::Done(recovered) => return recovered,
            RecoveryStep::Handle(event, pending) => {
                let handling = ingest.runtime().handle(event);
                let finished = match drive(ingest.runtime_mut(), broker, handling) {
                    Ok(finished) => finished,
                    Err(_) => panic!("handles"),
                };
                run = match ingest.finish_recovered(pending, finished) {
                    Ok(next) => next,
                    Err(_) => panic!("recover"),
                };
            }
        }
    }
}

#[test]
fn recover_undelivered_replays_only_in_flight_events() {
    let (mut broker, mut ingest) = github_issue_ingest();

    // One event already delivered (e.g. handled before a restart) and one
    // in-flight event that was stored but never delivered.
    let delivered = github_issue_event();
    ingest.store_mut().append(delivered.clone()).unwrap();
    ingest.store_mut().mark_delivered(delivered.id).unwrap();
    let in_flight = github_issue_event();
    ingest.store_mut().append(in_flight.clone()).unwrap();

    let recovered = recover_all(&mut ingest, &mut broker);

    assert_eq!(recovered, 1, "only the in-flight event is replayed");
    assert_eq!(broker.len(), 1, "the delivered event is not re-submitted");
    assert!(ingest.store().undelivered().is_empty());
}

#[test]
fn dedup_is_bounded_by_retention() {
    let (mut broker, mut ingest) = github_issue_ingest();

    let first = ingest_event(&mut ingest, &mut broker, keyed_event("key-1")).expect("first ingest");
    assert!(!first.deduplicated);

    // Drop the stored copy from the retained window (as retention would).
    ingest
        .store_mut()
        .prune(&ManualRetention::KeepMostRecent(0))
        .unwrap();

    // With the earlier copy gone, the same key is treated as new, not deduped.
    let second =
        ingest_event(&mut ingest, &mut broker, keyed_event("key-1")).expect("second ingest");
    assert!(
        !second.deduplicated,
        "dedup must not see events pruned from the retained window"
    );
    assert_eq!(ingest.store().all().len(), 1);
}

#[test]
fn message_created_submits_process_message_job() {
    let mut broker = Broker::new();
    let mut runtime = TriggerRuntime::new(registry_of(vec![RegisteredTrigger::new(
        "message-created",
        10,
        Box::new(EventTypeTrigger::new("message.created")),
        Box::new(WorklaneJobBinding::new(
            "messaging",
            "messaging.process_message",
            3,
        )),
    )]));
    let event = EventEnvelope::new(
        Source::Http,
        EventType::new("message.created"),
        br#"{"message_id":"msg-1"}"#.to_vec(),
    );

    let report = handle(&mut runtime, &mut broker, event).expect("event should handle");

    assert_eq!(report.submitted.len(), 1);
    let reserved = broker.reserve("messaging").expect("job should exist");
    assert_eq!(reserved.kind, "messaging.process_message");
    assert_eq!(reserved.payload, br#"{"message_id":"msg-1"}"#);
}

#[test]
fn follow_up_event_preserves_metadata_and_trace() {
    let mut broker = Broker::new();
    let runtime = TriggerRuntime::with_trace_sink(
        registry_of(vec![RegisteredTrigger::new(
            "projection-created",
            10,
            Box::new(EventTypeTrigger::new("projection.created")),
            Box::new(WorklaneJobBinding::new(
                "projection",
                "projection.build_scope",
                3,
            )),
        )]),
        InMemoryTraceSink::new(),
    );
    let mut ingest = EventIngest::new(InMemoryEventStore::new(), runtime);
    let event = EventEnvelope::new(
        Source::Http,
        EventType::new("projection.created"),
        br#"{"message_id":"msg-1","projection_id":"proj-1"}"#.to_vec(),
    )
    .with_metadata(EventMetadata {
        trace_id: Some("trace-1".to_owned()),
        correlation_id: Some("msg-1".to_owned()),
        tenant_id: Some("tenant-1".to_owned()),
        idempotency_key: Some("projection.created:proj-1".to_owned()),
        causation_id: None,
    });
    let event_id = event.id;

    let report = ingest_event(&mut ingest, &mut broker, event).expect("event should ingest");

    assert_eq!(report.handle.submitted.len(), 1);
    let stored = ingest.store().get(event_id).expect("event should be stored");
    assert_eq!(stored.metadata.correlation_id.as_deref(), Some("msg-1"));
    assert_eq!(
        stored.metadata.idempotency_key.as_deref(),
        Some("projection.created:proj-1")
    );

    let traces = ingest.runtime().trace_sink().traces();
    assert_eq!(traces.len(), 1);
    assert_eq!(traces[0].event_type.as_str(), "projection.created");
    assert_eq!(traces[0].matched_triggers, ["projection-created"]);

    let reserved = broker.reserve("projection").expect("job should exist");
    assert_eq!(reserved.kind, "projection.build_scope");
    assert_eq!(
        reserved.payload,
        br#"{"message_id":"msg-1","projection_id":"proj-1"}"#
    );
}

#[test]
fn successful_handling_records_trigger_trace() {
    let mut broker = Broker::new();
    let mut runtime =
        TriggerRuntime::with_trace_sink(github_issue_registry(), InMemoryTraceSink::new());
    let event = github_issue_event();
    let event_id = event.id.to_string();

    let report = handle(&mut runtime, &mut broker, event).expect("event should handle");

    assert_eq!(report.submitted.len(), 1);
    let traces = runtime.trace_sink().traces();
    assert_eq!(traces.len(), 1);
    assert_eq!(traces[0].event_id, event_id);
    assert_eq!(traces[0].event_type.as_str(), EVENT_GITHUB_ISSUE_CREATED);
    assert_eq!(traces[0].source, Source::GitHub);
    assert_eq!(traces[0].matched_triggers, ["github-issue"]);
    assert_eq!(traces[0].submitted, report.submitted);
    assert_eq!(traces[0].failure_count, 0);
}

#[test]
fn handled_event_is_logged() {
    let mut broker = Broker::new();
    let mut runtime = TriggerRuntime::with_options_and_trace_sink(
        failing_registry(),
        RuntimeOptions::default(),
        LoggingTraceSink::default(),
    );
    handle(&mut runtime, &mut broker, issue_event(b"{}")).expect("event should handle");
    let records = runtime.trace_sink_mut().take_pending();
    assert_eq!(records.len(), 1);
    assert_eq!(records[0].level, LogLevel::Warn);
    assert_eq!((records[0].matched, records[0].submitted), (1, 0));
}

#[test]
fn replay_by_id_handles_stored_event() {
    let mut broker = Broker::new();
    let mut store = InMemoryEventStore::new();
    let mut runtime = TriggerRuntime::new(github_issue_registry());
    let event = github_issue_event();
    let event_id = event.id;
    store.append(event).unwrap();

    let run = match runtime.replay_by_id(&store, event_id) {
        Ok(run) => run,
        Err(_) => panic!("stored event should replay"),
    };
    let report = match drive(&mut runtime, &mut broker, run) {
        Ok(finished) => finished.report(),
        Err(_) => panic!("stored event should replay"),
    };

    assert_eq!(report.submitted.len(), 1);
    assert_eq!(broker.len(), 1);
}

#[test]
fn replay_by_id_returns_not_found_without_submitting() {
    let broker = Broker::new();
    let store = InMemoryEventStore::new();
    let runtime = TriggerRuntime::new(TriggerRegistry::new());
    let missing = EventEnvelope::new(
        Source::Manual,
        EventType::new("event.manual.missing"),
        b"{}".to_vec(),
    )
    .id;

    let error = match runtime.replay_by_id(&store, missing) {
        Ok(_) => panic!("missing event should not replay"),
        Err(error) => error,
    };

    assert!(matches!(error, ReplayError::EventNotFound(_)));
    assert_eq!(
        error.message(),
        format!("event {} was not found for replay", missing.to_string())
    );
    assert!(broker.is_empty());
}

#[test]
fn replay_range_handles_events_inside_time_window() {
    let mut broker = Broker::new();
    let mut store = InMemoryEventStore::new();
    let mut runtime = TriggerRuntime::new(github_issue_registry());
    let base = Timestamp::now();
    let before = event_at(minutes_after(&base, -5), b"before");
    let first = event_at(minutes_after(&base, 1), b"first");
    let second = event_at(minutes_after(&base, 2), b"second");
    let after = event_at(minutes_after(&base, 5), b"after");
    let first_id = first.id.to_string();
    let second_id = second.id.to_string();
    store.append(before).unwrap();
    store.append(first).unwrap();
    store.append(second).unwrap();
    store.append(after).unwrap();

    let run = runtime.replay_range(
        &store,
        &base,
        &minutes_after(&base, 3),
        &ReplayFilter::default(),
    );
    let report = replay(&mut runtime, &mut broker, run).expect("range should replay");

    let event_ids: Vec<_> = report
        .events
        .iter()
        .map(|event| event.event_id.as_str())
        .collect();
    assert_eq!(event_ids, [first_id, second_id]);
    assert_eq!(broker.len(), 2);
}

#[test]
fn replay_range_preserves_append_order() {
    let mut broker = Broker::new();
    let mut store = InMemoryEventStore::new();
    let mut runtime = TriggerRuntime::new(github_issue_registry());
    let base = Timestamp::now();
    let later_appended_first = event_at(minutes_after(&base, 2), b"first");
    let earlier_appended_second = event_at(minutes_after(&base, 1), b"second");
    let first_id = later_appended_first.id.to_string();
    let second_id = earlier_appended_second.id.to_string();
    store.append(later_appended_first).unwrap();
    store.append(earlier_appended_second).unwrap();

    let run = runtime.replay_range(
        &store,
        &base,
        &minutes_after(&base, 3),
        &ReplayFilter::default(),
    );
    let report = replay(&mut runtime, &mut broker, run).expect("range should replay");

    let event_ids: Vec<_> = report
        .events
        .iter()
        .map(|event| event.event_id.as_str())
        .collect();
    assert_eq!(event_ids, [first_id, second_id]);
    assert_eq!(report.events.len(), 2);
}

#[test]
fn replay_range_filters_by_event_type_and_preview_does_not_submit() {
    let mut broker = Broker::new();
    let mut store = InMemoryEventStore::new();
    let mut runtime = TriggerRuntime::new(github_issue_registry());
    let base = Timestamp::now();
    let matching = event_at(minutes_after(&base, 1), b"match");
    let mut other = event_at(minutes_after(&base, 2), b"other");
    other.event_type = EventType::new("event.other.kind");
    store.append(matching.clone()).unwrap();
    store.append(other).unwrap();

    let filter = ReplayFilter {
        event_type: Some(EVENT_GITHUB_ISSUE_CREATED.to_owned()),
        source: None,
    };
    let window_end = minutes_after(&base, 5);

    // Dry-run preview returns only the matching event and submits nothing.
    let preview = runtime.preview_range(&store, &base, &window_end, &filter);
    assert_eq!(preview.len(), 1);
    assert_eq!(preview[0].id, matching.id);
    assert!(broker.is_empty(), "dry-run must not submit");

    // A real filtered replay handles only the matching event.
    let run = runtime.replay_range(&store, &base, &window_end, &filter);
    let report = replay(&mut runtime, &mut broker, run).expect("filtered replay should run");
    assert_eq!(report.events.len(), 1);
    assert_eq!(broker.len(), 1);
}

#[test]
fn replay_window_holds_its_start_and_not_its_end() {
    let mut store = InMemoryEventStore::new();
    let runtime = TriggerRuntime::new(github_issue_registry());
    let base = Timestamp::now();
    let end = minutes_after(&base, 1);
    let mut at_start = event_at(minutes_after(&base, 0), b"start");
    at_start.source = Source::Cron;
    store.append(at_start.clone()).unwrap();
    store.append(event_at(minutes_after(&base, 1), b"end")).unwrap();
    let all = runtime.preview_range(&store, &base, &end, &ReplayFilter::default());
    assert_eq!(all, vec![at_start.clone()]);
    let by_source = |source| ReplayFilter {
        event_type: None,
        source: Some(source),
    };
    assert_eq!(
        runtime.preview_range(&store, &base, &end, &by_source(Source::Cron)).len(),
        1
    );
    assert!(runtime
        .preview_range(&store, &base, &end, &by_source(Source::Slack))
        .is_empty());
    assert!(!by_source(Source::Slack).matches(&at_start));
    assert!(runtime.preview_range(&store, &end, &base, &ReplayFilter::default()).is_empty());
}

#[test]
fn ingest_persists_event_and_handles_it() {
    let (mut broker, mut ingest) = github_issue_ingest();
    let event = github_issue_event();
    let event_id = event.id;

    let report = ingest_event(&mut ingest, &mut broker, event).expect("event should ingest");

    assert_eq!(report.event_id, event_id.to_string());
    assert_eq!(report.handle.submitted.len(), 1);
    assert_eq!(broker.len(), 1);
    assert!(ingest.store().get(event_id).is_some());
}

#[test]
fn ingest_persists_event_even_when_handling_fails() {
    let mut broker = Broker::new();
    let runtime = TriggerRuntime::new(failing_registry());
    let mut ingest = EventIngest::new(InMemoryEventStore::new(), runtime);
    let event = issue_event(b"{}");
    let event_id = event.id;

    let report = ingest_event(&mut ingest, &mut broker, event).expect("event should ingest");

    assert_eq!(report.handle.failed.len(), 1);
    assert!(ingest.store().get(event_id).is_some());
}

#[test]
fn no_match_handling_records_empty_trace() {
    let mut broker = Broker::new();
    let mut runtime =
        TriggerRuntime::with_trace_sink(TriggerRegistry::new(), InMemoryTraceSink::default());
    let event = EventEnvelope::new(
        Source::Manual,
        EventType::new("event.manual.unmatched"),
        b"{}".to_vec(),
    );

    let report = handle(&mut runtime, &mut broker, event).expect("event should handle");

    assert!(report.submitted.is_empty());
    let traces = runtime.trace_sink().traces();
    assert_eq!(traces.len(), 1);
    assert!(traces[0].matched_triggers.is_empty());
    assert!(traces[0].submitted.is_empty());
    assert_eq!(traces[0].failure_count, 0);
}

#[test]
fn disabled_trigger_does_not_submit() {
    let mut broker = Broker::new();
    let mut runtime = TriggerRuntime::new(registry_of(vec![
        trigger("disabled", 10, "projection").disabled()
    ]));

    let report = handle(&mut runtime, &mut broker, issue_event(b"{}")).expect("event should handle");

    assert!(report.submitted.is_empty());
    assert!(broker.is_empty());
}

#[test]
fn binding_failure_records_dead_trigger() {
    let mut broker = Broker::new();
    let mut runtime = TriggerRuntime::new(failing_registry());

    let report = handle(&mut runtime, &mut broker, issue_event(b"{}")).expect("event should handle");

    assert_eq!(report.failed.len(), 1);
    assert_eq!(runtime.dead_triggers().len(), 1);
    assert_eq!(runtime.dead_triggers()[0].trigger_name, "failing");
    assert_eq!(
        runtime.dead_triggers()[0].error,
        "binding rejected event: bad event"
    );
}

#[test]
fn failed_trigger_records_failure_count_in_trace() {
    let mut broker = Broker::new();
    let mut runtime = TriggerRuntime::with_trace_sink(failing_registry(), InMemoryTraceSink::new());

    let report = handle(&mut runtime, &mut broker, issue_event(b"{}")).expect("event should handle");

    assert_eq!(report.failed.len(), 1);
    let traces = runtime.trace_sink().traces();
    assert_eq!(traces.len(), 1);
    assert_eq!(traces[0].matched_triggers, ["failing"]);
    assert_eq!(traces[0].failure_count, 1);
}

fn two_attempts() -> RuntimeOptions {
    RuntimeOptions {
        max_submission_attempts: 2,
        submission_backoff: Delay { nanos: 0 },
    }
}

#[test]
fn retryable_submission_failure_can_succeed() {
    let mut broker = Broker::failing(1);
    let mut runtime = TriggerRuntime::with_options(
        registry_of(vec![trigger("flaky", 10, "projection")]),
        two_attempts(),
    );

    let report = handle(&mut runtime, &mut broker, issue_event(b"{}")).expect("event should handle");

    assert_eq!(report.submitted.len(), 1);
    assert!(report.failed.is_empty());
    assert_eq!(broker.calls, 2);
}

#[test]
fn exhausted_submission_retry_records_dead_trigger() {
    let mut broker = Broker::failing(3);
    let mut runtime = TriggerRuntime::with_options(
        registry_of(vec![trigger("always-failing", 10, "projection")]),
        two_attempts(),
    );

    let report = handle(&mut runtime, &mut broker, issue_event(b"{}")).expect("event should handle");

    assert!(report.submitted.is_empty());
    assert_eq!(report.failed.len(), 1);
    assert_eq!(runtime.dead_triggers().len(), 1);
    assert_eq!(runtime.dead_triggers()[0].error, "temporary failure");
    assert_eq!(broker.calls, 2);
}

#[test]
fn repeated_submissions_wait_longer_and_keep_their_key() {
    let mut broker = Broker::failing(3);
    let mut runtime = TriggerRuntime::with_options(
        registry_of(vec![trigger("flaky", 10, "projection")]),
        RuntimeOptions {
            max_submission_attempts: 5,
            submission_backoff: Delay::from_millis(100),
        },
    );
    let event = issue_event(b"{}");
    let key = unique_key(&event, "flaky");
    handle(&mut runtime, &mut broker, event).expect("event should handle");
    assert_eq!(
        broker.delays,
        vec![0, 100_000_000, 200_000_000, 400_000_000]
    );
    assert_eq!(broker.jobs[0].0, key);
}

#[test]
fn zero_attempts_still_submit_once() {
    let mut broker = Broker::failing(1);
    let mut runtime = TriggerRuntime::with_options(
        github_issue_registry(),
        RuntimeOptions {
            max_submission_attempts: 0,
            submission_backoff: Delay { nanos: 0 },
        },
    );
    let report = handle(&mut runtime, &mut broker, issue_event(b"{}")).expect("event should handle");
    assert_eq!(report.failed.len(), 1);
    assert_eq!(broker.calls, 1);
}

#[test]
fn triggers_are_settled_one_after_the_other() {
    let mut broker = Broker::new();
    let mut runtime = TriggerRuntime::new(registry_of(vec![
        trigger("low", 1, "a"),
        trigger("bad", 5, " x"),
        trigger("high", 9, "b"),
        trigger("again", 0, "a"),
    ]));
    let event = issue_event(b"{}");
    let run = runtime.handle(event.clone());
    assert_eq!(run.last_settled(), None);
    assert_eq!(run.next_unsettled(), Some("high"));
    assert!(!run.last_submitted());
    assert_eq!(run.event(), &event);
    let report = match drive(&mut runtime, &mut broker, run) {
        Ok(finished) => finished.report(),
        Err(_) => panic!("handles"),
    };
    // Higher priorities first; one failure does not keep the others from their jobs.
    let lanes: Vec<_> = broker.jobs.iter().map(|(_, job)| job.lane.as_str()).collect();
    assert_eq!(lanes, vec!["b", "a", "a"]);
    assert_eq!(report.submitted, vec!["job-0", "job-1", "job-2"]);
    assert_eq!(report.failed[0].trigger_name, "bad");
    assert_eq!(runtime.observed_lanes(), vec!["b", "a"]);
}

#[test]
fn registry_orders_by_priority() {
    let registry = registry_of(vec![trigger("low", 1, "lane"), trigger("high", 9, "lane")]);
    let event = issue_event(b"{}");

    let matching = registry.matching(&event);
    let names: Vec<_> = matching.iter().map(RegisteredTrigger::name).collect();

    assert_eq!(names, ["high", "low"]);
}

#[test]
fn sweep_bounds_store_and_queue() {
    let mut broker = Broker::new();
    let runtime = TriggerRuntime::new(failing_registry());
    let mut ingest = EventIngest::new(InMemoryEventStore::new(), runtime);
    for _ in 0..3 {
        ingest_event(&mut ingest, &mut broker, github_issue_event()).expect("ingest");
    }
    let now = Timestamp::now();
    let policy = AutoRetention {
        max_count: Some(1),
        ..AutoRetention::unbounded()
    };
    let swept = ingest.sweep(&policy, &now, &Vec::new(), &Vec::new()).expect("sweep");
    assert_eq!((swept.events, swept.dead_triggers), (2, 2));
    assert_eq!(ingest.store().len(), 1);
    assert_eq!(ingest.runtime().dead_trigger_count(), 1);
    let grace = AutoRetention {
        delivered_grace: TimeSpan::seconds(60),
        ..AutoRetention::unbounded()
    };
    let later = minutes_after(&now, 5);
    let swept = ingest.sweep(&grace, &later, &Vec::new(), &Vec::new()).expect("sweep");
    assert_eq!((swept.events, swept.dead_triggers), (1, 0));
    let unbounded = ingest
        .sweep(&AutoRetention::unbounded(), &later, &Vec::new(), &Vec::new())
        .expect("sweep");
    assert_eq!((unbounded.events, unbounded.dead_triggers), (0, 0));
    let removed = ingest
        .runtime_mut()
        .enforce_dead_trigger_retention(
            &AutoRetention {
                max_bytes: Some(9),
                ..AutoRetention::unbounded()
            },
            &later,
            &vec![10],
        )
        .expect("enforces");
    assert_eq!(removed, 1);
}

#[test]
fn undelivered_event_survives_a_failed_run() {
    let runtime = TriggerRuntime::new(registry_of(vec![trigger("bad-lane", 10, "  ")]))
        .with_dead_trigger_queue(FailingQueue);
    let mut ingest = EventIngest::new(InMemoryEventStore::new(), runtime);
    let mut broker = Broker::new();
    assert!(ingest_event(&mut ingest, &mut broker, github_issue_event()).is_err());
    assert_eq!(ingest.store().undelivered().len(), 1);
}

#[test]
fn record_store_metrics_is_noop_without_recorder() {
    let (_broker, mut ingest) = github_issue_ingest();
    ingest.store_mut().append(github_issue_event()).unwrap();
    let metrics = ingest.runtime().store_metrics(ingest.store());
    assert_eq!(metrics.event_records, 1);
    assert_eq!(metrics.event_bytes, 0);
    assert_eq!(metrics.dead_triggers, 0);
    assert_eq!(metrics.dead_trigger_bytes, 0);
}

#[test]
fn record_broker_metrics_tracks_submitted_lane_and_is_noop_without_recorder() {
    let (mut broker, mut ingest) = github_issue_ingest();
    // No lanes observed yet: nothing to query.
    assert!(ingest.runtime().observed_lanes().is_empty());
    // After a submission, the lane is observed.
    ingest_event(&mut ingest, &mut broker, github_issue_event()).expect("ingest");
    assert_eq!(ingest.runtime().observed_lanes(), vec!["projection"]);
}

#[test]
fn adjoining_windows_cover_their_union_once() {
    let mut store = InMemoryEventStore::new();
    let runtime = TriggerRuntime::new(github_issue_registry());
    let base = Timestamp::parse("2026-06-01T00:00:00Z").expect("parses");
    for minute in 0..6 {
        store.append(event_at(minutes_after(&base, minute), b"{}")).unwrap();
    }
    let count = |from: i64, to: i64| {
        runtime
            .preview_range(
                &store,
                &minutes_after(&base, from),
                &minutes_after(&base, to),
                &ReplayFilter::default(),
            )
            .len()
    };
    assert_eq!(count(0, 6), 6);
    for middle in 0..=6 {
        assert_eq!(count(0, middle) + count(middle, 6), 6);
    }
}

/// A store that neither tracks delivery nor applies retention.
struct PlainStore {
    events: Vec<EventEnvelope>,
}

impl EventStore for PlainStore {
    fn append(&mut self, event: EventEnvelope) -> Result<(), StorageError> {
        self.events.push(event);
        Ok(())
    }

    fn get(&self, id: EventId) -> Option<EventEnvelope> {
        self.events.iter().find(|event| event.id == id).cloned()
    }

    fn all(&self) -> Vec<EventEnvelope> {
        self.events.clone()
    }

    fn mark_delivered(&mut self, _id: EventId) -> Result<(), StorageError> {
        Ok(())
    }

    fn undelivered(&self) -> Vec<EventEnvelope> {
        self.all()
    }

    fn enforce_retention(
        &mut self,
        _policy: &AutoRetention,
        _now: &Timestamp,
        _sizes: &Vec<u64>,
    ) -> Result<usize, StorageError> {
        Ok(0)
    }

    fn prune(&mut self, policy: &ManualRetention) -> Result<usize, StorageError> {
        let kept = policy.keep(&self.events);
        let removed = self.events.len() - kept.len();
        self.events = kept;
        Ok(removed)
    }

    fn size_bytes(&self) -> u64 {
        0
    }
}

#[test]
fn store_without_delivery_state_serves_the_pipeline() {
    let mut broker = Broker::new();
    let store = PlainStore { events: Vec::new() };
    let mut ingest = EventIngest::new(store, TriggerRuntime::new(github_issue_registry()));
    let report = ingest_event(&mut ingest, &mut broker, keyed_event("k")).expect("ingest");
    assert_eq!(report.handle.submitted.len(), 1);
    assert!(ingest_event(&mut ingest, &mut broker, keyed_event("k")).expect("ingest").deduplicated);
    assert_eq!(ingest.store().undelivered().len(), 1);
    let policy = AutoRetention {
        max_count: Some(0),
        ..AutoRetention::unbounded()
    };
    let swept = ingest
        .sweep(&policy, &Timestamp::now(), &Vec::new(), &Vec::new())
        .expect("sweep");
    assert_eq!(swept.events, 0);
    assert_eq!(ingest.store().len(), 1);
}

#[test]
fn copies_hold_the_same_values() {
    let mut broker = Broker::new();
    let mut runtime = TriggerRuntime::new(failing_registry());
    let report = handle(&mut runtime, &mut broker, issue_event(b"{}")).expect("handles");
    assert_eq!(report.clone(), report);
    let pass = retry(&mut runtime, &mut broker).expect("retries");
    assert_eq!(pass.clone(), pass);
    let filter = ReplayFilter {
        event_type: Some("t".to_owned()),
        source: Some(Source::Cron),
    };
    assert_eq!(filter.clone(), filter);
    let binding = WorklaneJobBinding::new("lane", "kind", 2)
        .with_payload_transform(|event| Ok(vec![event.payload.len() as u8]));
    let event = issue_event(b"abc");
    assert_eq!(
        binding.clone().bind(&event).expect("binds"),
        binding.bind(&event).expect("binds")
    );
    assert_eq!(binding.clone().bind(&event).expect("binds").payload, vec![3]);
}

#[test]
fn interleaved_runs_do_not_disturb_each_other() {
    let mut runtime = TriggerRuntime::with_trace_sink(
        registry_of(vec![trigger("ok", 9, "lane"), trigger("bad", 5, " ")]),
        InMemoryTraceSink::new(),
    );
    let first = issue_event(b"1");
    let second = issue_event(b"2");
    let submitted = |runtime: &mut TriggerRuntime<InMemoryDeadTriggerQueue, InMemoryTraceSink>,
                     event: &EventEnvelope| {
        let run = runtime.handle(event.clone());
        match runtime.advance(run) {
            Ok(HandleStep::Submit(pending)) => pending,
            _ => panic!("the first trigger submits"),
        }
    };
    let a = submitted(&mut runtime, &first);
    let b = submitted(&mut runtime, &second);
    let settled = |runtime: &mut TriggerRuntime<InMemoryDeadTriggerQueue, InMemoryTraceSink>,
                   pending,
                   id: &str| {
        match runtime.resume(pending, Ok(id.to_owned())) {
            Ok(ReplyStep::Settled(run)) => run,
            _ => panic!("the job is accepted"),
        }
    };
    let b = settled(&mut runtime, b, "job-b");
    let a = settled(&mut runtime, a, "job-a");
    let mut broker = Broker::new();
    for (run, event, job) in [(b, &second, "job-b"), (a, &first, "job-a")] {
        let finished = match drive(&mut runtime, &mut broker, run) {
            Ok(finished) => finished,
            Err(_) => panic!("handles"),
        };
        assert_eq!(finished.event(), event);
        assert_eq!(finished.report().submitted, vec![job]);
        assert_eq!(finished.report().failed[0].event, *event);
    }
    assert_eq!(runtime.dead_trigger_count(), 2);
    assert_eq!(runtime.trace_sink().traces().len(), 2);
}
