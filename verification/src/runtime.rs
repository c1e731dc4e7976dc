//! Event handling: match an event, bind it, submit the jobs, and keep account of every
//! outcome.
//!
//! Submitting a job and waiting between attempts is outside work. Handling is therefore
//! written as steps: [`TriggerRuntime::handle`] starts a [`HandleRun`],
//! [`TriggerRuntime::advance`] takes it to the next point where a job has to be submitted,
//! and [`TriggerRuntime::resume`] takes the broker's reply.

use crate::broker::{
    backoff, invalid_lane_text, lane_fault, submission_backoff_delay, validate_lane,
};
use crate::event::{id_text, EventEnvelope, EventId, EventView};
use crate::model::views;
use crate::registry::{names_of, selected, RegisteredTrigger, TriggerRegistry};
use crate::retention::{copy_all, AutoRetention};
use crate::storage::{
    swept_records, DeadTriggerQueue, DeadTriggerRecord, DeadTriggerView, EventStore, FaultView,
    InMemoryDeadTriggerQueue, QueueChange, StorageError,
};
use crate::text::same_text;
use crate::time::{Delay, Timestamp};
use crate::trace::{copy_strings, trace_of, NoopTraceSink, TraceSink, TraceView, TriggerTrace};
use crate::trigger::{bound_view, rejection_text, BindingError, JobView, WorklaneJob};
use vstd::prelude::*;

verus! {

/// How jobs are submitted.
#[derive(Debug, Clone, Copy, PartialEq, Eq)]
pub struct RuntimeOptions {
    /// How many times to attempt a job submission before recording a dead trigger.
    pub max_submission_attempts: u32,
    /// Wait before the first retry, doubled for each further retry up to 30 seconds. Zero
    /// means no waiting. Matters only with more than one attempt.
    pub submission_backoff: Delay,
}

impl Default for RuntimeOptions {
    fn default() -> (r: RuntimeOptions)
        ensures
            r.max_submission_attempts == 1,
            r.submission_backoff.nanos == 100_000_000,
    {
        RuntimeOptions {
            max_submission_attempts: 1,
            submission_backoff: Delay { nanos: 100_000_000 },
        }
    }
}

/// How many attempts a submission gets: at least one.
pub open spec fn attempts_allowed(options: RuntimeOptions) -> int {
    if options.max_submission_attempts == 0 {
        1
    } else {
        options.max_submission_attempts as int
    }
}

/// Why handling an event stopped.
#[derive(Debug)]
pub enum RuntimeError {
    Binding(BindingError),
    Storage(StorageError),
}

/// The message of a [`RuntimeError`].
pub open spec fn runtime_error_text(error: RuntimeError) -> Seq<char> {
    match error {
        RuntimeError::Binding(error) => rejection_text(error@),
        RuntimeError::Storage(error) => "durable storage error: "@ + error@.message,
    }
}

impl RuntimeError {
    /// The message of this error.
    pub fn message(&self) -> (r: String)
        ensures
            r@ == runtime_error_text(*self),
    {
        match self {
            RuntimeError::Binding(error) => error.message(),
            RuntimeError::Storage(error) => {
                let mut out = "durable storage error: ".to_owned();
                out.append(error.message.as_str());
                out
            },
        }
    }
}

/// The identity of an event for submission: its idempotency key when it has one, else its
/// id, which a replay reuses.
pub open spec fn event_identity(event: EventView) -> Seq<char> {
    match event.metadata.idempotency_key {
        Some(key) => key,
        None => id_text(event.id),
    }
}

/// The key under which a job is submitted for an event and a trigger. It depends on nothing
/// else, so a repeated or replayed submission is recognized by the broker.
pub open spec fn submission_key(event: EventView, trigger: Seq<char>) -> Seq<char> {
    event_identity(event) + ":"@ + trigger
}

/// The submission key of `event` and `trigger`.
pub fn unique_key(event: &EventEnvelope, trigger: &str) -> (r: String)
    ensures
        r@ == submission_key(event@, trigger@),
{
    let mut key = match &event.metadata.idempotency_key {
        Some(key) => key.clone(),
        None => event.id.to_string(),
    };
    key.append(":");
    key.append(trigger);
    key
}

/// How one matched trigger ended: with a job that the broker accepted under an id, or with
/// a failure that was recorded.
pub enum TriggerOutcome {
    Submitted(String),
    Failed(DeadTriggerRecord),
}

/// The values of a [`TriggerOutcome`].
pub enum OutcomeView {
    Submitted(Seq<char>),
    Failed(DeadTriggerView),
}

impl View for TriggerOutcome {
    type V = OutcomeView;

    open spec fn view(&self) -> OutcomeView {
        match self {
            TriggerOutcome::Submitted(id) => OutcomeView::Submitted(id@),
            TriggerOutcome::Failed(record) => OutcomeView::Failed(record@),
        }
    }
}

/// The ids of the jobs that were submitted, in order.
pub open spec fn submitted_of(outcomes: Seq<OutcomeView>) -> Seq<Seq<char>>
    decreases outcomes.len(),
{
    if outcomes.len() == 0 {
        Seq::empty()
    } else {
        match outcomes.last() {
            OutcomeView::Submitted(id) => submitted_of(outcomes.drop_last()).push(id),
            OutcomeView::Failed(_) => submitted_of(outcomes.drop_last()),
        }
    }
}

/// The failures that were recorded, in order.
pub open spec fn failed_of(outcomes: Seq<OutcomeView>) -> Seq<DeadTriggerView>
    decreases outcomes.len(),
{
    if outcomes.len() == 0 {
        Seq::empty()
    } else {
        match outcomes.last() {
            OutcomeView::Submitted(_) => failed_of(outcomes.drop_last()),
            OutcomeView::Failed(record) => failed_of(outcomes.drop_last()).push(record),
        }
    }
}

/// What became of one event: the jobs submitted and the failures recorded.
#[derive(Debug, PartialEq, Eq)]
pub struct HandleReport {
    pub submitted: Vec<String>,
    pub failed: Vec<DeadTriggerRecord>,
}

/// The values of a [`HandleReport`].
pub struct ReportView {
    pub submitted: Seq<Seq<char>>,
    pub failed: Seq<DeadTriggerView>,
}

impl View for HandleReport {
    type V = ReportView;

    open spec fn view(&self) -> ReportView {
        ReportView { submitted: views(self.submitted@), failed: views(self.failed@) }
    }
}

impl Clone for HandleReport {
    fn clone(&self) -> (r: HandleReport)
        ensures
            r@ == self@,
    {
        HandleReport { submitted: copy_strings(&self.submitted), failed: copy_all(&self.failed) }
    }
}

/// The report of a run with these outcomes.
pub open spec fn report_of(outcomes: Seq<OutcomeView>) -> ReportView {
    ReportView { submitted: submitted_of(outcomes), failed: failed_of(outcomes) }
}

/// The handling of one event, between steps: the triggers that matched, in order of
/// priority, and the outcomes of those that are settled.
pub struct HandleRun {
    event: EventEnvelope,
    matched: Vec<RegisteredTrigger>,
    outcomes: Vec<TriggerOutcome>,
}

/// The values of a [`HandleRun`].
pub struct RunView {
    pub event: EventView,
    pub matched: Seq<RegisteredTrigger>,
    pub outcomes: Seq<OutcomeView>,
}

impl View for HandleRun {
    type V = RunView;

    closed spec fn view(&self) -> RunView {
        RunView { event: self.event@, matched: self.matched@, outcomes: views(self.outcomes@) }
    }
}

impl HandleRun {
    #[verifier::type_invariant]
    spec fn within(self) -> bool {
        self.outcomes@.len() <= self.matched@.len()
    }

    /// The event that is handled.
    pub fn event(&self) -> (r: &EventEnvelope)
        ensures
            r@ == self@.event,
    {
        &self.event
    }

    /// The name of the trigger that was settled last.
    pub fn last_settled(&self) -> (r: Option<&str>)
        ensures
            self@.outcomes.len() == 0 ==> r is None,
            self@.outcomes.len() > 0 ==> r is Some && r->0@ == self@.matched[self@.outcomes.len()
                - 1].name_text(),
    {
        proof {
            use_type_invariant(self);
        }
        if self.outcomes.len() == 0 {
            None
        } else {
            Some(self.matched[self.outcomes.len() - 1].name())
        }
    }

    /// The name of the trigger that is settled next.
    pub fn next_unsettled(&self) -> (r: Option<&str>)
        ensures
            match r {
                Some(name) => self@.outcomes.len() < self@.matched.len() && name@ == next_trigger(
                    self@,
                ).name_text(),
                None => self@.outcomes.len() >= self@.matched.len(),
            },
    {
        if self.outcomes.len() < self.matched.len() {
            Some(self.matched[self.outcomes.len()].name())
        } else {
            None
        }
    }

    /// Whether the trigger that was settled last had its job accepted.
    pub fn last_submitted(&self) -> (r: bool)
        ensures
            r == (self@.outcomes.len() > 0 && self@.outcomes.last() is Submitted),
    {
        if self.outcomes.len() == 0 {
            return false;
        }
        assert(self@.outcomes.last() == self.outcomes@.last()@);
        match &self.outcomes[self.outcomes.len() - 1] {
            TriggerOutcome::Submitted(_) => true,
            TriggerOutcome::Failed(_) => false,
        }
    }
}

/// A job to hand to the broker.
#[derive(Debug)]
pub struct Submission {
    pub trigger_name: String,
    pub job: WorklaneJob,
    /// The same for every attempt, and for every later submission of the same event
    /// through the same trigger.
    pub unique_key: String,
    /// 0 for the first attempt.
    pub attempt: u32,
    /// How long to wait before handing the job over.
    pub delay: Delay,
}

/// The values of a [`Submission`].
pub struct SubmissionView {
    pub trigger_name: Seq<char>,
    pub job: JobView,
    pub unique_key: Seq<char>,
    pub attempt: int,
    pub delay: int,
}

impl View for Submission {
    type V = SubmissionView;

    open spec fn view(&self) -> SubmissionView {
        SubmissionView {
            trigger_name: self.trigger_name@,
            job: self.job@,
            unique_key: self.unique_key@,
            attempt: self.attempt as int,
            delay: self.delay.nanos as int,
        }
    }
}

/// A run that waits for the broker's reply to a submission.
pub struct PendingSubmission {
    run: HandleRun,
    submission: Submission,
}

/// The values of a [`PendingSubmission`].
pub struct PendingView {
    pub run: RunView,
    pub submission: SubmissionView,
}

impl View for PendingSubmission {
    type V = PendingView;

    closed spec fn view(&self) -> PendingView {
        PendingView { run: self.run@, submission: self.submission@ }
    }
}

impl PendingSubmission {
    #[verifier::type_invariant]
    spec fn unsettled(self) -> bool {
        self.run.outcomes@.len() < self.run.matched@.len()
    }

    /// What to hand to the broker.
    pub fn submission(&self) -> (r: &Submission)
        ensures
            r@ == self@.submission,
    {
        &self.submission
    }
}

/// A run at its end: every trigger that matched the event has had its job accepted or its
/// failure recorded.
pub struct FinishedRun {
    run: HandleRun,
}

impl View for FinishedRun {
    type V = RunView;

    closed spec fn view(&self) -> RunView {
        self.run@
    }
}

impl FinishedRun {
    #[verifier::type_invariant]
    spec fn complete(self) -> bool {
        self.run.outcomes@.len() == self.run.matched@.len()
    }

    /// The id of the event that was handled. Every trigger that matched it is settled.
    pub fn event_id(&self) -> (r: EventId)
        ensures
            r@ == self@.event.id,
            self@.outcomes.len() == self@.matched.len(),
    {
        proof {
            use_type_invariant(self);
        }
        self.run.event.id
    }

    /// The event that was handled.
    pub fn event(&self) -> (r: &EventEnvelope)
        ensures
            r@ == self@.event,
    {
        &self.run.event
    }

    /// What came of the matched triggers.
    pub fn report(&self) -> (r: HandleReport)
        ensures
            r@ == report_of(self@.outcomes),
            self@.outcomes.len() == self@.matched.len(),
    {
        proof {
            use_type_invariant(self);
        }
        collect_report(&self.run.outcomes)
    }
}

/// Where a run stands after a step.
pub enum HandleStep {
    /// A job has to be submitted.
    Submit(PendingSubmission),
    /// One more trigger is settled; the run goes on.
    Settled(HandleRun),
    /// Every matched trigger is settled.
    Finished(FinishedRun),
}

/// Where a run stands after the broker replied.
pub enum ReplyStep {
    /// The submission failed and has to be repeated.
    Retry(PendingSubmission),
    /// The trigger is settled; the run goes on.
    Settled(HandleRun),
}

/// The values of a step's result.
pub enum StepView {
    /// A job has to be submitted, for the first time or again.
    Submit(PendingView),
    /// One more trigger is settled; the run goes on.
    Settled(RunView),
    /// Every matched trigger is settled.
    Finished(RunView),
}

impl View for HandleStep {
    type V = StepView;

    open spec fn view(&self) -> StepView {
        match self {
            HandleStep::Submit(pending) => StepView::Submit(pending@),
            HandleStep::Settled(run) => StepView::Settled(run@),
            HandleStep::Finished(finished) => StepView::Finished(finished@),
        }
    }
}

impl View for ReplyStep {
    type V = StepView;

    open spec fn view(&self) -> StepView {
        match self {
            ReplyStep::Retry(pending) => StepView::Submit(pending@),
            ReplyStep::Settled(run) => StepView::Settled(run@),
        }
    }
}

/// The values of the result of a step that may stop on an error.
pub open spec fn step_view<S: View<V = StepView>>(result: Result<S, RuntimeError>) -> Result<
    StepView,
    RuntimeError,
> {
    match result {
        Ok(step) => Ok(step@),
        Err(error) => Err(error),
    }
}

/// The values that a runtime's steps change.
pub struct RuntimeState {
    pub dead: Seq<DeadTriggerView>,
    pub traces: Seq<TraceView>,
    pub lanes: Seq<Seq<char>>,
}

/// The run after one more trigger was settled.
pub open spec fn settled(run: RunView, outcome: OutcomeView) -> RunView {
    RunView { outcomes: run.outcomes.push(outcome), ..run }
}

/// The registration that a run settles next.
pub open spec fn next_trigger(run: RunView) -> RegisteredTrigger {
    run.matched[run.outcomes.len() as int]
}

/// The record of a failure of the trigger that is settled next.
pub open spec fn failure_record(run: RunView, error: Seq<char>) -> DeadTriggerView {
    DeadTriggerView { event: run.event, trigger_name: next_trigger(run).name_text(), error }
}

/// The first submission of a job for the trigger that is settled next.
pub open spec fn first_submission(run: RunView, job: JobView) -> SubmissionView {
    SubmissionView {
        trigger_name: next_trigger(run).name_text(),
        job,
        unique_key: submission_key(run.event, next_trigger(run).name_text()),
        attempt: 0,
        delay: 0,
    }
}

/// The next attempt of a submission: the same job under the same key, after a longer wait.
pub open spec fn next_attempt(submission: SubmissionView, options: RuntimeOptions) -> SubmissionView {
    SubmissionView {
        attempt: submission.attempt + 1,
        delay: backoff(submission.attempt + 1, options.submission_backoff.nanos as int),
        ..submission
    }
}

/// The lanes seen so far, with one more.
pub open spec fn with_lane(lanes: Seq<Seq<char>>, lane: Seq<char>) -> Seq<Seq<char>> {
    if lanes.contains(lane) {
        lanes
    } else {
        lanes.push(lane)
    }
}

/// The errors with which a queue may turn the record of a failure down.
pub type Refusals = spec_fn(DeadTriggerView, FaultView) -> bool;

/// Recording the failure of the trigger that is settled next: with it recorded the run goes
/// on; a queue that turns the record down stops the run with its error.
pub open spec fn failure_step(
    before: RuntimeState,
    run: RunView,
    error: Seq<char>,
    refusals: Refusals,
    after: RuntimeState,
    result: Result<StepView, RuntimeError>,
) -> bool {
    match result {
        Ok(step) => {
            &&& step == StepView::Settled(
                settled(run, OutcomeView::Failed(failure_record(run, error))),
            )
            &&& after == (RuntimeState {
                dead: before.dead.push(failure_record(run, error)),
                ..before
            })
        },
        Err(stop) => {
            &&& stop is Storage
            &&& refusals(failure_record(run, error), stop->Storage_0@)
            &&& after == before
        },
    }
}

/// One step of a run whose next trigger's binding gave `bound`: a rejection and a lane that
/// is not valid are recorded as failures without submitting anything; otherwise the job has
/// to be submitted.
pub open spec fn bound_step(
    before: RuntimeState,
    run: RunView,
    bound: Result<JobView, Seq<char>>,
    refusals: Refusals,
    after: RuntimeState,
    result: Result<StepView, RuntimeError>,
) -> bool {
    match bound {
        Err(reason) => failure_step(before, run, rejection_text(reason), refusals, after, result),
        Ok(job) => match lane_fault(job.lane) {
            Some(fault) => failure_step(
                before,
                run,
                invalid_lane_text(job.lane, fault),
                refusals,
                after,
                result,
            ),
            None => {
                &&& result == Ok::<StepView, RuntimeError>(
                    StepView::Submit(PendingView { run, submission: first_submission(run, job) }),
                )
                &&& after == (RuntimeState { lanes: with_lane(before.lanes, job.lane), ..before })
            },
        },
    }
}

/// The traces after one more was recorded by a sink that keeps them, or one that does not.
pub open spec fn with_trace(traces: Seq<TraceView>, trace: TraceView, keeps: bool) -> Seq<
    TraceView,
> {
    if keeps {
        traces.push(trace)
    } else {
        traces
    }
}

/// One step of a run: with every matched trigger settled, the trace is recorded and the run
/// is finished; otherwise the next trigger's binding gives a result that it may give, and
/// the step is the one for that result.
pub open spec fn run_step(
    before: RuntimeState,
    run: RunView,
    keeps_traces: bool,
    refusals: Refusals,
    after: RuntimeState,
    result: Result<StepView, RuntimeError>,
) -> bool {
    if run.outcomes.len() >= run.matched.len() {
        &&& result == Ok::<StepView, RuntimeError>(StepView::Finished(run))
        &&& after == (RuntimeState {
            traces: with_trace(before.traces, run_trace(run), keeps_traces),
            ..before
        })
    } else {
        exists|bound: Result<JobView, Seq<char>>|
            {
                &&& #[trigger] next_trigger(run).binding().may_bind(run.event, bound)
                &&& bound_step(before, run, bound, refusals, after, result)
            }
    }
}

/// One step of a run whose submission the broker replied to: an accepted job settles the
/// trigger; a failed one is repeated while attempts are left, and then recorded.
pub open spec fn reply_step(
    before: RuntimeState,
    pending: PendingView,
    reply: Result<Seq<char>, Seq<char>>,
    options: RuntimeOptions,
    refusals: Refusals,
    after: RuntimeState,
    result: Result<StepView, RuntimeError>,
) -> bool {
    match reply {
        Ok(id) => {
            &&& result == Ok::<StepView, RuntimeError>(
                StepView::Settled(settled(pending.run, OutcomeView::Submitted(id))),
            )
            &&& after == before
        },
        Err(error) => if pending.submission.attempt + 1 < attempts_allowed(options) {
            &&& result == Ok::<StepView, RuntimeError>(
                StepView::Submit(
                    PendingView {
                        run: pending.run,
                        submission: next_attempt(pending.submission, options),
                    },
                ),
            )
            &&& after == before
        } else {
            failure_step(before, pending.run, error, refusals, after, result)
        },
    }
}

/// The values of a broker's reply.
pub open spec fn reply_view(reply: Result<String, String>) -> Result<Seq<char>, Seq<char>> {
    match reply {
        Ok(id) => Ok(id@),
        Err(error) => Err(error@),
    }
}

/// The trace of a finished run.
pub open spec fn run_trace(run: RunView) -> TraceView {
    trace_of(
        run.event,
        names_of(run.matched),
        submitted_of(run.outcomes),
        failed_of(run.outcomes).len() as int,
    )
}

/// How much the stores hold: what their gauges report.
#[derive(Debug, Clone, Copy, PartialEq, Eq)]
pub struct StoreMetrics {
    pub event_records: usize,
    pub event_bytes: u64,
    pub dead_triggers: usize,
    pub dead_trigger_bytes: u64,
}

/// The trigger runtime: the registry, the dead-trigger queue, the submission options, and
/// the sink for traces.
pub struct TriggerRuntime<Q: DeadTriggerQueue, T: TraceSink> {
    registry: TriggerRegistry,
    dead_triggers: Q,
    options: RuntimeOptions,
    trace_sink: T,
    /// The lanes that jobs were submitted to, each once, so that their backlog can be
    /// reported.
    observed_lanes: Vec<String>,
}

impl TriggerRuntime<InMemoryDeadTriggerQueue, NoopTraceSink> {
    /// A runtime with the default options, an in-memory dead-trigger queue, and no traces.
    pub fn new(registry: TriggerRegistry) -> (r: Self)
        ensures
            r.registrations() == registry.registrations(),
            attempts_allowed(r.options()) == 1,
            r.options().submission_backoff.nanos == 100_000_000,
            !r.keeps_traces(),
            r.dead_bytes() == 0,
            r.state() == (RuntimeState {
                dead: Seq::empty(),
                traces: Seq::empty(),
                lanes: Seq::empty(),
            }),
    {
        Self::with_options(registry, RuntimeOptions::default())
    }

    /// A runtime with an in-memory dead-trigger queue and no traces.
    pub fn with_options(registry: TriggerRegistry, options: RuntimeOptions) -> (r: Self)
        ensures
            r.registrations() == registry.registrations(),
            r.options() == options,
            !r.keeps_traces(),
            r.dead_bytes() == 0,
            r.state() == (RuntimeState {
                dead: Seq::empty(),
                traces: Seq::empty(),
                lanes: Seq::empty(),
            }),
    {
        TriggerRuntime::with_options_and_trace_sink(registry, options, NoopTraceSink)
    }
}

impl<T: TraceSink> TriggerRuntime<InMemoryDeadTriggerQueue, T> {
    /// A runtime with the default options and an in-memory dead-trigger queue.
    pub fn with_trace_sink(registry: TriggerRegistry, trace_sink: T) -> (r: Self)
        ensures
            r.registrations() == registry.registrations(),
            attempts_allowed(r.options()) == 1,
            r.options().submission_backoff.nanos == 100_000_000,
            r.sink() == trace_sink,
            r.keeps_traces() == trace_sink.keeps(),
            r.dead_bytes() == 0,
            r.state() == (RuntimeState {
                dead: Seq::empty(),
                traces: trace_sink.kept(),
                lanes: Seq::empty(),
            }),
    {
        Self::with_options_and_trace_sink(registry, RuntimeOptions::default(), trace_sink)
    }

    /// A runtime with an in-memory dead-trigger queue.
    pub fn with_options_and_trace_sink(
        registry: TriggerRegistry,
        options: RuntimeOptions,
        trace_sink: T,
    ) -> (r: Self)
        ensures
            r.registrations() == registry.registrations(),
            r.options() == options,
            r.sink() == trace_sink,
            r.keeps_traces() == trace_sink.keeps(),
            r.dead_bytes() == 0,
            r.state() == (RuntimeState {
                dead: Seq::empty(),
                traces: trace_sink.kept(),
                lanes: Seq::empty(),
            }),
    {
        let observed_lanes: Vec<String> = Vec::new();
        assert(views(observed_lanes@) =~= Seq::<Seq<char>>::empty());
        TriggerRuntime {
            registry,
            dead_triggers: InMemoryDeadTriggerQueue::new(),
            options,
            trace_sink,
            observed_lanes,
        }
    }
}

impl<Q: DeadTriggerQueue, T: TraceSink> TriggerRuntime<Q, T> {
    pub closed spec fn registrations(&self) -> Seq<RegisteredTrigger> {
        self.registry.registrations()
    }

    pub closed spec fn options(&self) -> RuntimeOptions {
        self.options
    }

    pub closed spec fn keeps_traces(&self) -> bool {
        self.trace_sink.keeps()
    }

    /// What the steps of this runtime change.
    pub closed spec fn state(&self) -> RuntimeState {
        RuntimeState {
            dead: self.dead_triggers.records(),
            traces: self.trace_sink.kept(),
            lanes: views(self.observed_lanes@),
        }
    }

    /// The size on disk of the dead-trigger queue, in bytes.
    pub closed spec fn dead_bytes(&self) -> u64 {
        self.dead_triggers.disk_bytes()
    }

    /// The dead-trigger queue, as a value.
    pub closed spec fn queue(&self) -> Q {
        self.dead_triggers
    }

    /// The errors with which the queue may turn the record of a failure down.
    pub open spec fn refusals(&self) -> Refusals {
        |record: DeadTriggerView, error: FaultView|
            self.queue().may_refuse(QueueChange::Record(record), error)
    }

    /// The trace sink, as a value.
    pub closed spec fn sink(&self) -> T {
        self.trace_sink
    }

    /// Whether two runtimes have the same triggers, options and kind of sink.
    pub open spec fn same_setup(&self, other: &Self) -> bool {
        &&& self.registrations() == other.registrations()
        &&& self.options() == other.options()
        &&& self.keeps_traces() == other.keeps_traces()
    }

    /// Use another dead-trigger queue, such as a durable one.
    pub fn with_dead_trigger_queue<R: DeadTriggerQueue>(self, dead_triggers: R) -> (r:
        TriggerRuntime<R, T>)
        ensures
            r.registrations() == self.registrations(),
            r.options() == self.options(),
            r.queue() == dead_triggers,
            r.dead_bytes() == dead_triggers.disk_bytes(),
            r.sink() == self.sink(),
            r.keeps_traces() == self.keeps_traces(),
            r.state() == (RuntimeState { dead: dead_triggers.records(), ..self.state() }),
    {
        TriggerRuntime {
            registry: self.registry,
            dead_triggers,
            options: self.options,
            trace_sink: self.trace_sink,
            observed_lanes: self.observed_lanes,
        }
    }

    /// Start handling an event: find the triggers that match it, highest priority first.
    pub fn handle(&self, event: EventEnvelope) -> (r: HandleRun)
        ensures
            r@ == (RunView {
                event: event@,
                matched: selected(self.registrations(), event@),
                outcomes: Seq::empty(),
            }),
    {
        let matched = self.registry.matching(&event);
        let outcomes: Vec<TriggerOutcome> = Vec::new();
        assert(views(outcomes@) =~= Seq::<OutcomeView>::empty());
        HandleRun { event, matched, outcomes }
    }

    /// Record the failure of the trigger that `run` settles next.
    fn fail(&mut self, run: HandleRun, error: String) -> (r: Result<HandleRun, RuntimeError>)
        requires
            run@.outcomes.len() < run@.matched.len(),
        ensures
            final(self).same_setup(old(self)),
            Q::never_fails() ==> r is Ok,
            failure_step(
                old(self).state(),
                run@,
                error@,
                old(self).refusals(),
                final(self).state(),
                match r {
                    Ok(next) => Ok(StepView::Settled(next@)),
                    Err(error) => Err(error),
                },
            ),
    {
        let record = DeadTriggerRecord {
            event: run.event.clone(),
            trigger_name: run.matched[run.outcomes.len()].name().to_owned(),
            error,
        };
        match self.dead_triggers.record(record.clone()) {
            Ok(()) => {
                let HandleRun { event, matched, outcomes } = run;
                let mut settled_outcomes = outcomes;
                let ghost outcome = OutcomeView::Failed(record@);
                settled_outcomes.push(TriggerOutcome::Failed(record));
                assert(views(settled_outcomes@) =~= views(outcomes@).push(outcome));
                Ok(HandleRun { event, matched, outcomes: settled_outcomes })
            },
            Err(error) => Err(RuntimeError::Storage(error)),
        }
    }

    /// Remember a lane that a job is submitted to.
    fn observe_lane(&mut self, lane: &str)
        ensures
            final(self).same_setup(old(self)),
            final(self).state() == (RuntimeState {
                lanes: with_lane(old(self).state().lanes, lane@),
                ..old(self).state()
            }),
    {
        let ghost lanes = views(self.observed_lanes@);
        let mut i: usize = 0;
        while i < self.observed_lanes.len()
            invariant
                i <= self.observed_lanes@.len(),
                *self == *old(self),
                lanes == views(self.observed_lanes@),
                forall|j: int| 0 <= j < i ==> #[trigger] lanes[j] != lane@,
            decreases self.observed_lanes@.len() - i,
        {
            if same_text(self.observed_lanes[i].as_str(), lane) {
                assert(lanes[i as int] == lane@);
                return;
            }
            i += 1;
        }
        let owned = lane.to_owned();
        self.observed_lanes.push(owned);
        assert(views(self.observed_lanes@) =~= lanes.push(lane@));
    }

    /// Settle the next matched trigger, up to the point where its job has to be submitted.
    /// With every trigger settled, record the trace and report.
    pub fn advance(&mut self, run: HandleRun) -> (r: Result<HandleStep, RuntimeError>)
        ensures
            final(self).same_setup(old(self)),
            Q::never_fails() ==> r is Ok,
            run_step(
                old(self).state(),
                run@,
                old(self).keeps_traces(),
                old(self).refusals(),
                final(self).state(),
                step_view(r),
            ),
    {
        proof {
            use_type_invariant(&run);
        }
        if run.outcomes.len() >= run.matched.len() {
            self.record_trace(&run);
            return Ok(HandleStep::Finished(FinishedRun { run }));
        }
        let bound = run.matched[run.outcomes.len()].bind(&run.event);
        assert(next_trigger(run@).binding().may_bind(run@.event, bound_view(bound)));
        match bound {
            Err(error) => {
                let message = error.message();
                match self.fail(run, message) {
                    Ok(next) => Ok(HandleStep::Settled(next)),
                    Err(error) => Err(error),
                }
            },
            Ok(job) => match validate_lane(job.lane.as_str()) {
                Err(message) => match self.fail(run, message) {
                    Ok(next) => Ok(HandleStep::Settled(next)),
                    Err(error) => Err(error),
                },
                Ok(()) => {
                    self.observe_lane(job.lane.as_str());
                    let name = run.matched[run.outcomes.len()].name();
                    let submission = Submission {
                        trigger_name: name.to_owned(),
                        job,
                        unique_key: unique_key(&run.event, name),
                        attempt: 0,
                        delay: Delay { nanos: 0 },
                    };
                    Ok(HandleStep::Submit(PendingSubmission { run, submission }))
                },
            },
        }
    }

    /// Take the broker's reply to a submission: the id of the accepted job, or the text of
    /// the error. A failed submission is repeated, with the same job and key, until the
    /// attempts are used up; then the failure is recorded.
    pub fn resume(
        &mut self,
        pending: PendingSubmission,
        reply: Result<String, String>,
    ) -> (r: Result<ReplyStep, RuntimeError>)
        ensures
            final(self).same_setup(old(self)),
            Q::never_fails() ==> r is Ok,
            reply_step(
                old(self).state(),
                pending@,
                reply_view(reply),
                old(self).options(),
                old(self).refusals(),
                final(self).state(),
                step_view(r),
            ),
    {
        proof {
            use_type_invariant(&pending);
        }
        let attempts: u32 = if self.options.max_submission_attempts == 0 {
            1
        } else {
            self.options.max_submission_attempts
        };
        let PendingSubmission { run, submission } = pending;
        match reply {
            Ok(id) => {
                let HandleRun { event, matched, outcomes } = run;
                let mut settled_outcomes = outcomes;
                let ghost outcome = OutcomeView::Submitted(id@);
                settled_outcomes.push(TriggerOutcome::Submitted(id));
                assert(views(settled_outcomes@) =~= views(outcomes@).push(outcome));
                Ok(ReplyStep::Settled(HandleRun { event, matched, outcomes: settled_outcomes }))
            },
            Err(error) => {
                if submission.attempt < attempts - 1 {
                    let retry: u32 = submission.attempt + 1;
                    let delay = submission_backoff_delay(retry, self.options.submission_backoff);
                    let Submission { trigger_name, job, unique_key, attempt: _, delay: _ } =
                        submission;
                    let again = Submission { trigger_name, job, unique_key, attempt: retry, delay };
                    Ok(ReplyStep::Retry(PendingSubmission { run, submission: again }))
                } else {
                    match self.fail(run, error) {
                        Ok(next) => Ok(ReplyStep::Settled(next)),
                        Err(error) => Err(error),
                    }
                }
            },
        }
    }

    /// Record the trace of a finished run.
    fn record_trace(&mut self, run: &HandleRun)
        ensures
            final(self).same_setup(old(self)),
            final(self).state() == (RuntimeState {
                traces: with_trace(
                    old(self).state().traces,
                    run_trace(run@),
                    old(self).keeps_traces(),
                ),
                ..old(self).state()
            }),
    {
        let report = collect_report(&run.outcomes);
        let names = collect_names(&run.matched);
        let trace = TriggerTrace::from_event_report(&run.event, names, &report);
        self.trace_sink.record(trace);
    }

    /// Take all dead-trigger records out of the queue.
    pub(crate) fn drain_dead_triggers(&mut self) -> (r: Result<
        Vec<DeadTriggerRecord>,
        StorageError,
    >)
        ensures
            final(self).same_setup(old(self)),
            Q::never_fails() ==> r is Ok,
            match r {
                Ok(drained) => {
                    &&& views(drained@) == old(self).state().dead
                    &&& final(self).state() == (RuntimeState {
                        dead: Seq::empty(),
                        ..old(self).state()
                    })
                },
                Err(error) => {
                    &&& old(self).queue().may_refuse(QueueChange::Drain, error@)
                    &&& final(self).state() == old(self).state()
                },
            },
    {
        let r = self.dead_triggers.drain();
        if r.is_ok() {
            assert(self.state().dead =~= Seq::<DeadTriggerView>::empty());
        }
        r
    }

    /// The trace sink.
    pub fn trace_sink(&self) -> (r: &T)
        ensures
            *r == self.sink(),
            r.keeps() == self.keeps_traces(),
            r.kept() == self.state().traces,
    {
        &self.trace_sink
    }

    /// The trace sink, for taking out what waits in it.
    pub fn trace_sink_mut(&mut self) -> (r: &mut T)
        ensures
            *r == old(self).sink(),
            r.keeps() == old(self).keeps_traces(),
            r.kept() == old(self).state().traces,
            final(self).registrations() == old(self).registrations(),
            final(self).options() == old(self).options(),
            final(self).sink() == *final(r),
            final(self).keeps_traces() == final(r).keeps(),
            final(self).state() == (RuntimeState {
                traces: final(r).kept(),
                ..old(self).state()
            }),
    {
        &mut self.trace_sink
    }

    /// The dead-trigger records.
    pub fn dead_triggers(&self) -> (r: Vec<DeadTriggerRecord>)
        ensures
            views(r@) == self.state().dead,
    {
        self.dead_triggers.all()
    }

    /// The number of dead-trigger records.
    pub fn dead_trigger_count(&self) -> (r: usize)
        ensures
            r == self.state().dead.len(),
    {
        self.dead_triggers.len()
    }

    /// Record counts and sizes of the event store and the dead-trigger queue, so that
    /// operators can see them grow.
    pub fn store_metrics<S: EventStore>(&self, store: &S) -> (r: StoreMetrics)
        ensures
            r.event_records == store.log().len(),
            r.event_bytes == store.disk_bytes(),
            r.dead_triggers == self.state().dead.len(),
            r.dead_trigger_bytes == self.dead_bytes(),
    {
        StoreMetrics {
            event_records: store.len(),
            event_bytes: store.size_bytes(),
            dead_triggers: self.dead_triggers.len(),
            dead_trigger_bytes: self.dead_triggers.size_bytes(),
        }
    }

    /// The lanes that jobs were submitted to, each once.
    pub fn observed_lanes(&self) -> (r: Vec<String>)
        ensures
            views(r@) == self.state().lanes,
    {
        copy_strings(&self.observed_lanes)
    }

    /// Apply the hard bounds of a retention policy to the dead-trigger queue, so that
    /// triggers that keep failing cannot grow it without limit. Returns the number of
    /// records removed.
    pub fn enforce_dead_trigger_retention(
        &mut self,
        policy: &AutoRetention,
        now: &Timestamp,
        sizes: &Vec<u64>,
    ) -> (r: Result<usize, StorageError>)
        ensures
            final(self).same_setup(old(self)),
            Q::never_fails() ==> r is Ok,
            match r {
                Ok(removed) => {
                    &&& final(self).state() == (RuntimeState {
                        dead: swept_records(
                            Q::sweeps(),
                            old(self).state().dead,
                            sizes@,
                            policy@,
                            now@,
                        ),
                        ..old(self).state()
                    })
                    &&& removed == old(self).state().dead.len() - final(self).state().dead.len()
                },
                Err(error) => {
                    &&& old(self).queue().may_refuse(
                        QueueChange::Sweep(policy@, now@, sizes@),
                        error@,
                    )
                    &&& final(self).state() == old(self).state()
                },
            },
    {
        self.dead_triggers.enforce_retention(policy, now, sizes)
    }
}

/// The report of a run with these outcomes.
fn collect_report(outcomes: &Vec<TriggerOutcome>) -> (r: HandleReport)
    ensures
        r@ == report_of(views(outcomes@)),
{
    let ghost all = views(outcomes@);
    let mut submitted: Vec<String> = Vec::new();
    let mut failed: Vec<DeadTriggerRecord> = Vec::new();
    let mut i: usize = 0;
    assert(views(submitted@) =~= submitted_of(all.take(0)));
    assert(views(failed@) =~= failed_of(all.take(0)));
    while i < outcomes.len()
        invariant
            i <= outcomes@.len(),
            all == views(outcomes@),
            views(submitted@) == submitted_of(all.take(i as int)),
            views(failed@) == failed_of(all.take(i as int)),
        decreases outcomes@.len() - i,
    {
        assert(all.take(i + 1).drop_last() =~= all.take(i as int));
        assert(all.take(i + 1).last() == outcomes@[i as int]@);
        let ghost submitted_before = views(submitted@);
        let ghost failed_before = views(failed@);
        match &outcomes[i] {
            TriggerOutcome::Submitted(id) => {
                submitted.push(id.clone());
                assert(views(submitted@) =~= submitted_before.push(id@));
            },
            TriggerOutcome::Failed(record) => {
                failed.push(record.clone());
                assert(views(failed@) =~= failed_before.push(record@));
            },
        }
        i += 1;
    }
    assert(all.take(i as int) =~= all);
    HandleReport { submitted, failed }
}

/// The names of registrations.
fn collect_names(matched: &Vec<RegisteredTrigger>) -> (r: Vec<String>)
    ensures
        views(r@) == names_of(matched@),
{
    let mut out: Vec<String> = Vec::new();
    let mut i: usize = 0;
    while i < matched.len()
        invariant
            i <= matched@.len(),
            out@.len() == i,
            forall|j: int| 0 <= j < i ==> (#[trigger] out@[j])@ == matched@[j].name_text(),
        decreases matched@.len() - i,
    {
        out.push(matched[i].name().to_owned());
        i += 1;
    }
    assert(views(out@) =~= names_of(matched@));
    out
}

// ---------------------------------------------------------------------------------------
// Laws

/// A moment in the handling of one event: what the runtime's steps change, and where the
/// last step left the run. A run that has just begun is a settled one without outcomes.
pub struct Moment {
    pub state: RuntimeState,
    pub step: StepView,
}

/// The run of a moment.
pub open spec fn run_of(step: StepView) -> RunView {
    match step {
        StepView::Submit(pending) => pending.run,
        StepView::Settled(run) => run,
        StepView::Finished(run) => run,
    }
}

/// No record is turned down.
pub open spec fn no_refusal() -> Refusals {
    |record: DeadTriggerView, error: FaultView| false
}

/// Whether a step that did not stop on an error may lead from one moment to the next: one
/// that [`TriggerRuntime::advance`] promises, or, for some reply of the broker, one that
/// [`TriggerRuntime::resume`] promises.
pub open spec fn may_follow(
    a: Moment,
    b: Moment,
    options: RuntimeOptions,
    keeps_traces: bool,
) -> bool {
    match a.step {
        StepView::Settled(run) => run_step(
            a.state,
            run,
            keeps_traces,
            no_refusal(),
            b.state,
            Ok(b.step),
        ),
        StepView::Submit(pending) => exists|reply: Result<Seq<char>, Seq<char>>| #[trigger]
            reply_step(a.state, pending, reply, options, no_refusal(), b.state, Ok(b.step)),
        StepView::Finished(_) => false,
    }
}

/// A course of moments that begins with the handling of `event` and in which each moment
/// follows from the one before.
pub open spec fn is_course(
    course: Seq<Moment>,
    registrations: Seq<RegisteredTrigger>,
    options: RuntimeOptions,
    keeps_traces: bool,
    event: EventView,
) -> bool {
    &&& course.len() > 0
    &&& course[0].step == StepView::Settled(
        RunView { event, matched: selected(registrations, event), outcomes: Seq::empty() },
    )
    &&& forall|i: int|
        0 <= i < course.len() - 1 ==> may_follow(
            #[trigger] course[i],
            course[i + 1],
            options,
            keeps_traces,
        )
}

/// What holds of a run at every step: it is about the event and the triggers that matched
/// it, the settled ones are the first of them in order of priority, every failure among them
/// is on record under its trigger's name, and what is submitted is a job that the next
/// trigger's binding gave, for a valid lane, under the key of event and trigger, no more
/// often than allowed and each time after its wait.
pub open spec fn run_in_order(
    step: StepView,
    registrations: Seq<RegisteredTrigger>,
    options: RuntimeOptions,
    event: EventView,
) -> bool {
    let run = run_of(step);
    &&& run.event == event
    &&& run.matched == selected(registrations, event)
    &&& run.outcomes.len() <= run.matched.len()
    &&& step is Finished ==> run.outcomes.len() == run.matched.len()
    &&& step is Submit ==> run.outcomes.len() < run.matched.len()
    &&& forall|i: int|
        0 <= i < run.outcomes.len() ==> ((#[trigger] run.outcomes[i]) matches OutcomeView::Failed(
            record,
        ) ==> record.event == event && record.trigger_name == run.matched[i].name_text())
    &&& step matches StepView::Submit(pending) ==> {
        &&& pending.submission.trigger_name == next_trigger(run).name_text()
        &&& pending.submission.unique_key == submission_key(event, next_trigger(run).name_text())
        &&& next_trigger(run).binding().may_bind(event, Ok(pending.submission.job))
        &&& lane_fault(pending.submission.job.lane) is None
        &&& 0 <= pending.submission.attempt < attempts_allowed(options)
        &&& pending.submission.delay == backoff(
            pending.submission.attempt,
            options.submission_backoff.nanos as int,
        )
    }
}

/// The failures that one step of a run settles.
pub open spec fn new_failures(a: StepView, b: StepView) -> Seq<DeadTriggerView> {
    failed_of(run_of(b).outcomes).skip(failed_of(run_of(a).outcomes).len() as int)
}

/// What one step of a run changes: it adds the failures that it settles to the dead-trigger
/// queue, and the run's trace when it finishes; nothing else.
pub open spec fn changes_its_own(a: Moment, b: Moment, keeps_traces: bool) -> bool {
    &&& failed_of(run_of(a.step).outcomes) + new_failures(a.step, b.step) == failed_of(
        run_of(b.step).outcomes,
    )
    &&& b.state.dead == a.state.dead + new_failures(a.step, b.step)
    &&& b.state.traces == if b.step is Finished {
        with_trace(a.state.traces, run_trace(run_of(b.step)), keeps_traces)
    } else {
        a.state.traces
    }
}

proof fn lemma_step_in_order(
    a: Moment,
    b: Moment,
    registrations: Seq<RegisteredTrigger>,
    options: RuntimeOptions,
    keeps_traces: bool,
    event: EventView,
)
    requires
        run_in_order(a.step, registrations, options, event),
        may_follow(a, b, options, keeps_traces),
    ensures
        run_in_order(b.step, registrations, options, event),
        changes_its_own(a, b, keeps_traces),
{
    let before = run_of(a.step);
    let after = run_of(b.step);
    let failed = failed_of(before.outcomes);
    if after.outcomes.len() > before.outcomes.len() {
        assert(after.outcomes.drop_last() =~= before.outcomes);
        assert forall|i: int| 0 <= i < after.outcomes.len() implies ((
        #[trigger] after.outcomes[i]) matches OutcomeView::Failed(record) ==> record.event
            == event && record.trigger_name == after.matched[i].name_text()) by {
            if i < before.outcomes.len() {
                assert(after.outcomes[i] == before.outcomes[i]);
            }
        }
        match after.outcomes.last() {
            OutcomeView::Failed(record) => {
                assert(new_failures(a.step, b.step) =~= seq![record]);
                assert(failed + seq![record] =~= failed.push(record));
                assert(b.state.dead =~= a.state.dead + seq![record]);
            },
            OutcomeView::Submitted(_) => {
                assert(new_failures(a.step, b.step) =~= Seq::<DeadTriggerView>::empty());
                assert(failed + new_failures(a.step, b.step) =~= failed);
                assert(b.state.dead =~= a.state.dead + new_failures(a.step, b.step));
            },
        }
    } else {
        assert(after == before);
        assert(new_failures(a.step, b.step) =~= Seq::<DeadTriggerView>::empty());
        assert(failed + new_failures(a.step, b.step) =~= failed);
        assert(b.state.dead =~= a.state.dead + new_failures(a.step, b.step));
    }
}

/// Whether a run went through these steps while others used the runtime as well: the state
/// before a step need not be the state that the step before it left.
pub open spec fn is_interleaved_course(
    steps: Seq<StepView>,
    states: Seq<(RuntimeState, RuntimeState)>,
    registrations: Seq<RegisteredTrigger>,
    options: RuntimeOptions,
    keeps_traces: bool,
    event: EventView,
) -> bool {
    &&& steps.len() == states.len() + 1
    &&& steps[0] == StepView::Settled(
        RunView { event, matched: selected(registrations, event), outcomes: Seq::empty() },
    )
    &&& forall|i: int|
        0 <= i < states.len() ==> may_follow(
            Moment { state: (#[trigger] states[i]).0, step: steps[i] },
            Moment { state: states[i].1, step: steps[i + 1] },
            options,
            keeps_traces,
        )
}

/// Runs that share a runtime do not disturb each other. Whatever other runs, sweeps or
/// retries do in between, a run stays in order at every step, each of its steps adds to the
/// queue exactly the failures that it settles and to the traces exactly its own trace when
/// it finishes, and once it is finished every matched trigger is settled.
pub proof fn law_interleaved_runs_stay_in_order(
    steps: Seq<StepView>,
    states: Seq<(RuntimeState, RuntimeState)>,
    registrations: Seq<RegisteredTrigger>,
    options: RuntimeOptions,
    keeps_traces: bool,
    event: EventView,
    at: int,
)
    requires
        is_interleaved_course(steps, states, registrations, options, keeps_traces, event),
        0 <= at < steps.len(),
    ensures
        run_in_order(steps[at], registrations, options, event),
        at > 0 ==> changes_its_own(
            Moment { state: states[at - 1].0, step: steps[at - 1] },
            Moment { state: states[at - 1].1, step: steps[at] },
            keeps_traces,
        ),
    decreases at,
{
    if at > 0 {
        let last = at - 1;
        law_interleaved_runs_stay_in_order(
            steps,
            states,
            registrations,
            options,
            keeps_traces,
            event,
            last,
        );
        let a = Moment { state: states[last].0, step: steps[last] };
        let b = Moment { state: states[last].1, step: steps[last + 1] };
        assert(may_follow(a, b, options, keeps_traces));
        lemma_step_in_order(a, b, registrations, options, keeps_traces, event);
    }
}

/// What holds at every moment of a course.
pub open spec fn in_order(
    start: RuntimeState,
    moment: Moment,
    registrations: Seq<RegisteredTrigger>,
    options: RuntimeOptions,
    keeps_traces: bool,
    event: EventView,
) -> bool {
    let run = run_of(moment.step);
    &&& run_in_order(moment.step, registrations, options, event)
    &&& moment.state.dead == start.dead + failed_of(run.outcomes)
    &&& moment.state.traces == if moment.step is Finished {
        with_trace(start.traces, run_trace(run), keeps_traces)
    } else {
        start.traces
    }
}

/// No matched trigger is lost. Whatever the broker replies, at every moment of a course the
/// run is in order, and the dead-trigger queue holds what it held before and the failures of
/// the run, nothing else. Once the course is finished, every matched trigger is settled, and
/// the run has left its one trace.
pub proof fn law_every_matched_trigger_is_settled(
    course: Seq<Moment>,
    registrations: Seq<RegisteredTrigger>,
    options: RuntimeOptions,
    keeps_traces: bool,
    event: EventView,
    at: int,
)
    requires
        is_course(course, registrations, options, keeps_traces, event),
        0 <= at < course.len(),
    ensures
        in_order(course[0].state, course[at], registrations, options, keeps_traces, event),
    decreases at,
{
    let start = course[0].state;
    if at == 0 {
        assert(start.dead + failed_of(Seq::<OutcomeView>::empty()) =~= start.dead);
    } else {
        law_every_matched_trigger_is_settled(
            course,
            registrations,
            options,
            keeps_traces,
            event,
            at - 1,
        );
        let a = course[at - 1];
        let b = course[at];
        assert(may_follow(course[at - 1], course[at - 1 + 1], options, keeps_traces));
        lemma_step_in_order(a, b, registrations, options, keeps_traces, event);
        assert(b.state.dead =~= start.dead + failed_of(run_of(b.step).outcomes));
    }
}

/// The submitted and the failed triggers of a report together are all that were settled.
pub proof fn law_report_accounts_for_every_outcome(outcomes: Seq<OutcomeView>)
    ensures
        report_of(outcomes).submitted.len() + report_of(outcomes).failed.len() == outcomes.len(),
    decreases outcomes.len(),
{
    if outcomes.len() > 0 {
        law_report_accounts_for_every_outcome(outcomes.drop_last());
    }
}

/// When no trigger matches, handling finishes at once: nothing is submitted, nothing fails,
/// and the trace is that of an event without matches.
pub proof fn law_no_match_submits_nothing(
    course: Seq<Moment>,
    registrations: Seq<RegisteredTrigger>,
    options: RuntimeOptions,
    keeps_traces: bool,
    event: EventView,
)
    requires
        is_course(course, registrations, options, keeps_traces, event),
        selected(registrations, event).len() == 0,
        course.len() > 1,
    ensures
        course[1].step is Finished,
        report_of(run_of(course[1].step).outcomes) == (ReportView {
            submitted: Seq::empty(),
            failed: Seq::empty(),
        }),
        course[1].state.dead == course[0].state.dead,
        course[1].state.lanes == course[0].state.lanes,
        course[1].state.traces == with_trace(
            course[0].state.traces,
            trace_of(event, Seq::empty(), Seq::empty(), 0),
            keeps_traces,
        ),
{
    let first: int = 0;
    assert(may_follow(course[first], course[first + 1], options, keeps_traces));
    assert(names_of(selected(registrations, event)) =~= Seq::<Seq<char>>::empty());
}

/// A replay submits under the same key: the key depends on the identity of the event and
/// the name of the trigger alone.
pub proof fn law_submission_key_is_replay_stable(
    first: EventView,
    again: EventView,
    trigger: Seq<char>,
)
    requires
        first.id == again.id,
        first.metadata.idempotency_key == again.metadata.idempotency_key,
    ensures
        submission_key(first, trigger) == submission_key(again, trigger),
{
}

/// Events with different identities submit under different keys through the same trigger.
pub proof fn law_distinct_identities_have_distinct_keys(
    a: EventView,
    b: EventView,
    trigger: Seq<char>,
)
    requires
        event_identity(a) != event_identity(b),
    ensures
        submission_key(a, trigger) != submission_key(b, trigger),
{
    let tail = ":"@ + trigger;
    let key_a = submission_key(a, trigger);
    let key_b = submission_key(b, trigger);
    assert(key_a =~= event_identity(a) + tail);
    assert(key_b =~= event_identity(b) + tail);
    if key_a == key_b {
        assert(event_identity(a).len() == event_identity(b).len());
        assert(key_a.take(event_identity(a).len() as int) =~= event_identity(a));
        assert(key_b.take(event_identity(b).len() as int) =~= event_identity(b));
    }
}

/// Two events without idempotency keys have different identities unless they are the same
/// event.
pub proof fn law_distinct_ids_are_distinct_identities(a: EventView, b: EventView)
    requires
        a.metadata.idempotency_key is None,
        b.metadata.idempotency_key is None,
        a.id != b.id,
    ensures
        event_identity(a) != event_identity(b),
{
    if event_identity(a) == event_identity(b) {
        crate::event::law_id_text_is_injective(a.id, b.id);
    }
}

/// A submission that failed is tried again while attempts are left, and only then. With `m`
/// attempts configured, a failed reply to attempt `k`, counted from 0, leads to another
/// attempt exactly when `k + 1 < m`. The other attempt hands over the same job for the same
/// trigger under the same key; otherwise the failure goes on record with the broker's error.
pub proof fn law_failed_reply_is_retried_while_attempts_are_left(
    before: RuntimeState,
    pending: PendingView,
    error: Seq<char>,
    options: RuntimeOptions,
    refusals: Refusals,
    after: RuntimeState,
    result: Result<StepView, RuntimeError>,
)
    requires
        reply_step(before, pending, Err(error), options, refusals, after, result),
        pending.submission.attempt >= 0,
    ensures
        ({
            let again = pending.submission.attempt + 1 < options.max_submission_attempts;
            let name = pending.run.matched[pending.run.outcomes.len() as int].name_text();
            let record = DeadTriggerView { event: pending.run.event, trigger_name: name, error };
            &&& again <==> (result matches Ok(step) && step is Submit)
            &&& again ==> {
                let next = result->Ok_0->Submit_0;
                &&& after == before
                &&& next.run == pending.run
                &&& next.submission.trigger_name == pending.submission.trigger_name
                &&& next.submission.job == pending.submission.job
                &&& next.submission.unique_key == pending.submission.unique_key
                &&& next.submission.attempt == pending.submission.attempt + 1
            }
            &&& !again && result is Ok ==> {
                &&& result->Ok_0 is Settled
                &&& result->Ok_0->Settled_0.event == pending.run.event
                &&& result->Ok_0->Settled_0.matched == pending.run.matched
                &&& result->Ok_0->Settled_0.outcomes == pending.run.outcomes.push(
                    OutcomeView::Failed(record),
                )
                &&& after.dead == before.dead.push(record)
                &&& after.traces == before.traces
                &&& after.lanes == before.lanes
            }
            &&& result is Err ==> {
                &&& after == before
                &&& result->Err_0 is Storage
                &&& refusals(record, result->Err_0->Storage_0@)
            }
        }),
{
}

/// An accepted job settles its trigger at once, whatever the attempt: the job's id is added
/// to the outcomes, and nothing is recorded.
pub proof fn law_accepted_job_settles_its_trigger(
    before: RuntimeState,
    pending: PendingView,
    id: Seq<char>,
    options: RuntimeOptions,
    refusals: Refusals,
    after: RuntimeState,
    result: Result<StepView, RuntimeError>,
)
    requires
        reply_step(before, pending, Ok(id), options, refusals, after, result),
    ensures
        result is Ok,
        result->Ok_0 is Settled,
        result->Ok_0->Settled_0.event == pending.run.event,
        result->Ok_0->Settled_0.matched == pending.run.matched,
        result->Ok_0->Settled_0.outcomes == pending.run.outcomes.push(OutcomeView::Submitted(id)),
        after == before,
{
}

/// Whether a submission was handed to the broker at these stages, failed each time, and was
/// not handed to it again after the last.
pub open spec fn is_failing_submission(
    stages: Seq<PendingView>,
    errors: Seq<Seq<char>>,
    states: Seq<(RuntimeState, RuntimeState)>,
    options: RuntimeOptions,
    refusals: Refusals,
    end: Result<StepView, RuntimeError>,
) -> bool {
    &&& stages.len() > 0
    &&& errors.len() == stages.len()
    &&& states.len() == stages.len()
    &&& stages[0].submission.attempt == 0
    &&& stages[0].submission.delay == 0
    &&& forall|i: int|
        0 <= i < stages.len() - 1 ==> reply_step(
            (#[trigger] states[i]).0,
            stages[i],
            Err(errors[i]),
            options,
            refusals,
            states[i].1,
            Ok(StepView::Submit(stages[i + 1])),
        )
    &&& reply_step(
        states.last().0,
        stages.last(),
        Err(errors.last()),
        options,
        refusals,
        states.last().1,
        end,
    )
    &&& !(end matches Ok(step) && step is Submit)
}

/// The lesser of two numbers.
pub open spec fn lesser(a: int, b: int) -> int {
    if a <= b {
        a
    } else {
        b
    }
}

/// A submission that the broker keeps failing is handed to it exactly as often as
/// configured, and at least once, before it is given up.
pub proof fn law_failing_submission_uses_every_attempt(
    stages: Seq<PendingView>,
    errors: Seq<Seq<char>>,
    states: Seq<(RuntimeState, RuntimeState)>,
    options: RuntimeOptions,
    refusals: Refusals,
    end: Result<StepView, RuntimeError>,
)
    requires
        is_failing_submission(stages, errors, states, options, refusals, end),
    ensures
        options.max_submission_attempts >= 1 ==> stages.len() == options.max_submission_attempts,
        options.max_submission_attempts == 0 ==> stages.len() == 1,
{
    let last = stages.len() - 1;
    lemma_failing_submission(stages, errors, states, options, refusals, end, last);
    law_failed_reply_is_retried_while_attempts_are_left(
        states.last().0,
        stages.last(),
        errors.last(),
        options,
        refusals,
        states.last().1,
        end,
    );
    if last > 0 {
        let prev = last - 1;
        lemma_failing_submission(stages, errors, states, options, refusals, end, prev);
        let state = states[prev];
        law_failed_reply_is_retried_while_attempts_are_left(
            state.0,
            stages[prev],
            errors[prev],
            options,
            refusals,
            state.1,
            Ok(StepView::Submit(stages[prev + 1])),
        );
    }
}

/// Every attempt at a submission hands over the same job under the same key. The first does
/// not wait, the second waits the base, and every later one twice as long as the one before,
/// up to half a minute.
pub proof fn law_attempts_repeat_the_job_and_wait_longer(
    stages: Seq<PendingView>,
    errors: Seq<Seq<char>>,
    states: Seq<(RuntimeState, RuntimeState)>,
    options: RuntimeOptions,
    refusals: Refusals,
    end: Result<StepView, RuntimeError>,
    at: int,
)
    requires
        is_failing_submission(stages, errors, states, options, refusals, end),
        0 <= at < stages.len(),
    ensures
        stages[at].submission.attempt == at,
        stages[at].submission.job == stages[0].submission.job,
        stages[at].submission.unique_key == stages[0].submission.unique_key,
        stages[at].submission.trigger_name == stages[0].submission.trigger_name,
        stages[at].run == stages[0].run,
        at == 0 ==> stages[at].submission.delay == 0,
        at == 1 ==> stages[at].submission.delay == lesser(
            options.submission_backoff.nanos as int,
            30_000_000_000,
        ),
        at >= 2 ==> stages[at].submission.delay == lesser(
            2 * stages[at - 1].submission.delay,
            30_000_000_000,
        ),
{
    let base = options.submission_backoff.nanos as int;
    lemma_failing_submission(stages, errors, states, options, refusals, end, at);
    if at == 1 {
        crate::broker::law_backoff_recurrence(1, base);
    } else if at >= 2 {
        lemma_failing_submission(stages, errors, states, options, refusals, end, at - 1);
        crate::broker::law_backoff_recurrence(at - 1, base);
    }
}

proof fn lemma_failing_submission(
    stages: Seq<PendingView>,
    errors: Seq<Seq<char>>,
    states: Seq<(RuntimeState, RuntimeState)>,
    options: RuntimeOptions,
    refusals: Refusals,
    end: Result<StepView, RuntimeError>,
    at: int,
)
    requires
        is_failing_submission(stages, errors, states, options, refusals, end),
        0 <= at < stages.len(),
    ensures
        stages[at].submission.attempt == at,
        stages[at].submission.job == stages[0].submission.job,
        stages[at].submission.unique_key == stages[0].submission.unique_key,
        stages[at].submission.trigger_name == stages[0].submission.trigger_name,
        stages[at].run == stages[0].run,
        stages[at].submission.delay == backoff(at, options.submission_backoff.nanos as int),
    decreases at,
{
    if at > 0 {
        let last = at - 1;
        lemma_failing_submission(stages, errors, states, options, refusals, end, last);
        assert(reply_step(
            states[last].0,
            stages[last],
            Err(errors[last]),
            options,
            refusals,
            states[last].1,
            Ok(StepView::Submit(stages[last + 1])),
        ));
    }
}

/// What a step of a run does with what the next trigger's binding gave. A rejection goes on
/// record with its reason and submits nothing; so does a job for a lane that is not valid.
/// Any other job is submitted as it is, for the first time and at once, under the event's
/// idempotency key, or its id when it has none, and the trigger's name; nothing is recorded.
pub proof fn law_bound_job_is_submitted_or_recorded(
    before: RuntimeState,
    run: RunView,
    bound: Result<JobView, Seq<char>>,
    refusals: Refusals,
    after: RuntimeState,
    result: Result<StepView, RuntimeError>,
)
    requires
        bound_step(before, run, bound, refusals, after, result),
    ensures
        ({
            let name = run.matched[run.outcomes.len() as int].name_text();
            let valid = bound matches Ok(job) && lane_fault(job.lane) is None;
            &&& valid <==> (result matches Ok(step) && step is Submit)
            &&& valid ==> {
                let pending = result->Ok_0->Submit_0;
                &&& pending.run == run
                &&& pending.submission.job == bound->Ok_0
                &&& pending.submission.trigger_name == name
                &&& pending.submission.attempt == 0
                &&& pending.submission.delay == 0
                &&& run.event.metadata.idempotency_key matches Some(key) ==>
                    pending.submission.unique_key == key + ":"@ + name
                &&& run.event.metadata.idempotency_key is None ==> pending.submission.unique_key
                    == id_text(run.event.id) + ":"@ + name
                &&& after.dead == before.dead
                &&& after.traces == before.traces
                &&& after.lanes.contains(bound->Ok_0.lane)
                &&& before.lanes.contains(bound->Ok_0.lane) ==> after.lanes == before.lanes
                &&& !before.lanes.contains(bound->Ok_0.lane) ==> after.lanes == before.lanes.push(
                    bound->Ok_0.lane,
                )
            }
            &&& !valid && result is Ok ==> {
                let settled = result->Ok_0->Settled_0;
                &&& result->Ok_0 is Settled
                &&& settled.event == run.event
                &&& settled.matched == run.matched
                &&& settled.outcomes.len() == run.outcomes.len() + 1
                &&& settled.outcomes.drop_last() == run.outcomes
                &&& settled.outcomes.last() is Failed
                &&& settled.outcomes.last()->Failed_0.event == run.event
                &&& settled.outcomes.last()->Failed_0.trigger_name == name
                &&& bound matches Err(reason) ==> settled.outcomes.last()->Failed_0.error
                    == "binding rejected event: "@ + reason
                &&& after.dead == before.dead.push(settled.outcomes.last()->Failed_0)
                &&& after.traces == before.traces
                &&& after.lanes == before.lanes
            }
            &&& result is Err ==> !valid && after == before && result->Err_0 is Storage
        }),
{
    if let Ok(step) = result {
        if step is Settled {
            assert(step->Settled_0.outcomes.drop_last() =~= run.outcomes);
        }
    }
    if let Ok(job) = bound {
        assert(before.lanes.push(job.lane)[before.lanes.len() as int] == job.lane);
    }
}

/// A run is finished exactly when every matched trigger is settled. Its trace then tells the
/// event, every matched trigger in order, the submitted jobs and the number of failures; the
/// queue and the lanes stay as they were.
pub proof fn law_finished_run_leaves_its_trace(
    before: RuntimeState,
    run: RunView,
    refusals: Refusals,
    after: RuntimeState,
    result: Result<StepView, RuntimeError>,
)
    requires
        run_step(before, run, true, refusals, after, result),
        run.outcomes.len() <= run.matched.len(),
    ensures
        (result matches Ok(step) && step is Finished) <==> run.outcomes.len()
            == run.matched.len(),
        run.outcomes.len() == run.matched.len() ==> {
            let trace = after.traces.last();
            let report = report_of(run.outcomes);
            &&& result->Ok_0->Finished_0 == run
            &&& after.dead == before.dead
            &&& after.lanes == before.lanes
            &&& after.traces.drop_last() == before.traces
            &&& after.traces.len() == before.traces.len() + 1
            &&& trace.event_id == id_text(run.event.id)
            &&& trace.event_type == run.event.event_type
            &&& trace.source == run.event.source
            &&& trace.matched_triggers.len() == run.matched.len()
            &&& forall|i: int|
                0 <= i < run.matched.len() ==> (#[trigger] trace.matched_triggers[i])
                    == run.matched[i].name_text()
            &&& trace.submitted == report.submitted
            &&& trace.failure_count == report.failed.len()
        },
        run.outcomes.len() < run.matched.len() ==> after.traces == before.traces,
{
    if run.outcomes.len() == run.matched.len() {
        assert(after.traces.drop_last() =~= before.traces);
    }
}

/// A report lists the outcomes as they came: a submitted job at the end of the jobs, a
/// failure at the end of the failures, and neither anywhere else.
pub proof fn law_report_follows_the_outcomes(outcomes: Seq<OutcomeView>, outcome: OutcomeView)
    ensures
        report_of(Seq::empty()).submitted.len() == 0,
        report_of(Seq::empty()).failed.len() == 0,
        outcome matches OutcomeView::Submitted(id) ==> {
            &&& report_of(outcomes.push(outcome)).submitted == report_of(outcomes).submitted.push(
                id,
            )
            &&& report_of(outcomes.push(outcome)).failed == report_of(outcomes).failed
        },
        outcome matches OutcomeView::Failed(record) ==> {
            &&& report_of(outcomes.push(outcome)).failed == report_of(outcomes).failed.push(
                record,
            )
            &&& report_of(outcomes.push(outcome)).submitted == report_of(outcomes).submitted
        },
{
    assert(outcomes.push(outcome).drop_last() =~= outcomes);
}

/// The submission key is the event's idempotency key when it has one, else its id, and the
/// trigger's name: two events with one idempotency key submit under one key whatever their
/// ids, and an event without one submits under its id.
pub proof fn law_submission_key_is_identity_and_trigger(
    a: EventView,
    b: EventView,
    trigger: Seq<char>,
)
    ensures
        a.metadata.idempotency_key matches Some(key) ==> submission_key(a, trigger) == key + ":"@
            + trigger,
        a.metadata.idempotency_key is None ==> submission_key(a, trigger) == id_text(a.id) + ":"@
            + trigger,
        a.metadata.idempotency_key is Some && a.metadata.idempotency_key
            == b.metadata.idempotency_key ==> submission_key(a, trigger) == submission_key(
            b,
            trigger,
        ),
{
}

/// A run with a trigger left asks the binding of that very trigger, and goes by one of the
/// results that the binding may give for the event. A run with none left is finished, and
/// leaves no trace in a sink that keeps none.
pub proof fn law_run_asks_the_next_binding(
    before: RuntimeState,
    run: RunView,
    keeps_traces: bool,
    refusals: Refusals,
    after: RuntimeState,
    result: Result<StepView, RuntimeError>,
)
    requires
        run_step(before, run, keeps_traces, refusals, after, result),
    ensures
        run.outcomes.len() < run.matched.len() ==> exists|bound: Result<JobView, Seq<char>>|
            #[trigger] run.matched[run.outcomes.len() as int].binding().may_bind(run.event, bound)
                && bound_step(before, run, bound, refusals, after, result),
        run.outcomes.len() >= run.matched.len() && !keeps_traces ==> after == before,
{
    if run.outcomes.len() < run.matched.len() {
        let bound = choose|bound: Result<JobView, Seq<char>>|
            {
                &&& #[trigger] next_trigger(run).binding().may_bind(run.event, bound)
                &&& bound_step(before, run, bound, refusals, after, result)
            };
        assert(run.matched[run.outcomes.len() as int].binding().may_bind(run.event, bound));
    }
}

/// What goes on record of a job that is not submitted: the event, the trigger's name, and the
/// binding's reason or what is wrong with the lane. Where the queue turns that record down,
/// its own error stops the run.
pub proof fn law_unsubmitted_job_is_recorded_with_its_reason(
    before: RuntimeState,
    run: RunView,
    bound: Result<JobView, Seq<char>>,
    refusals: Refusals,
    after: RuntimeState,
    result: Result<StepView, RuntimeError>,
)
    requires
        bound_step(before, run, bound, refusals, after, result),
        bound is Ok ==> lane_fault(bound->Ok_0.lane) is Some,
    ensures
        ({
            let error = match bound {
                Err(reason) => "binding rejected event: "@ + reason,
                Ok(job) => "broker error: "@ + ("invalid worklane lane "@
                    + crate::text::debug_text(job.lane) + ": "@ + crate::broker::lane_fault_text(
                    lane_fault(job.lane)->0,
                )),
            };
            let record = DeadTriggerView {
                event: run.event,
                trigger_name: run.matched[run.outcomes.len() as int].name_text(),
                error,
            };
            &&& result is Ok ==> result->Ok_0 is Settled && result->Ok_0->Settled_0.outcomes
                == run.outcomes.push(OutcomeView::Failed(record)) && after.dead
                == before.dead.push(record)
            &&& result is Err ==> result->Err_0 is Storage && refusals(
                record,
                result->Err_0->Storage_0@,
            )
        }),
{
}

/// A message about an error ends with its cause.
pub proof fn law_runtime_message_gives_the_cause(error: RuntimeError)
    ensures
        error matches RuntimeError::Binding(cause) ==> crate::text::stripped(
            runtime_error_text(error),
            "binding rejected event: "@,
        ) == Some(cause@),
        error matches RuntimeError::Storage(cause) ==> crate::text::stripped(
            runtime_error_text(error),
            "durable storage error: "@,
        ) == Some(cause@.message),
{
    match error {
        RuntimeError::Binding(cause) => crate::text::law_stripping_undoes_prefixing(
            cause@,
            "binding rejected event: "@,
        ),
        RuntimeError::Storage(cause) => crate::text::law_stripping_undoes_prefixing(
            cause@.message,
            "durable storage error: "@,
        ),
    }
}

/// What the runtime makes of a failed reply: with `m` attempts configured, a failed reply to
/// attempt `k`, counted from 0, gives the same submission out again exactly when `k + 1 < m`,
/// and changes nothing; otherwise the failure goes on record, with the broker's error, unless
/// the queue turns it down.
pub proof fn law_resumed_submission_is_repeated_while_attempts_are_left<
    Q: DeadTriggerQueue,
    T: TraceSink,
>(
    runtime: &mut TriggerRuntime<Q, T>,
    pending: PendingSubmission,
    error: String,
    result: Result<ReplyStep, RuntimeError>,
)
    requires
        call_ensures(TriggerRuntime::<Q, T>::resume, (runtime, pending, Err(error)), result),
    ensures
        ({
            let again = pending@.submission.attempt + 1 < old(
                runtime,
            ).options().max_submission_attempts;
            let before = old(runtime).state();
            let after = final(runtime).state();
            &&& again <==> (result matches Ok(step) && step is Retry)
            &&& again ==> {
                let next = result->Ok_0->Retry_0@;
                &&& after == before
                &&& next.run == pending@.run
                &&& next.submission.job == pending@.submission.job
                &&& next.submission.unique_key == pending@.submission.unique_key
                &&& next.submission.trigger_name == pending@.submission.trigger_name
                &&& next.submission.attempt == pending@.submission.attempt + 1
            }
            &&& !again && result is Ok ==> {
                let record = after.dead.last();
                &&& result->Ok_0 is Settled
                &&& after.dead.len() == before.dead.len() + 1
                &&& after.dead.drop_last() == before.dead
                &&& record.event == pending@.run.event
                &&& record.error == error@
                &&& result->Ok_0->Settled_0@.outcomes == pending@.run.outcomes.push(
                    OutcomeView::Failed(record),
                )
            }
            &&& result is Err ==> after == before && !Q::never_fails()
        }),
{
    let reply = Err::<String, String>(error);
    assert(reply_view(reply) == Err::<Seq<char>, Seq<char>>(error@));
    law_failed_reply_is_retried_while_attempts_are_left(
        old(runtime).state(),
        pending@,
        error@,
        old(runtime).options(),
        old(runtime).refusals(),
        final(runtime).state(),
        step_view(result),
    );
    if let Ok(ReplyStep::Settled(_)) = result {
        assert(final(runtime).state().dead.drop_last() =~= old(runtime).state().dead);
    }
}

/// What the runtime makes of an accepted job: the trigger is settled with the job's id, and
/// nothing goes on record.
pub proof fn law_resumed_job_settles_its_trigger<Q: DeadTriggerQueue, T: TraceSink>(
    runtime: &mut TriggerRuntime<Q, T>,
    pending: PendingSubmission,
    id: String,
    result: Result<ReplyStep, RuntimeError>,
)
    requires
        call_ensures(TriggerRuntime::<Q, T>::resume, (runtime, pending, Ok(id)), result),
    ensures
        result matches Ok(step) && step is Settled,
        result->Ok_0->Settled_0@.event == pending@.run.event,
        result->Ok_0->Settled_0@.matched == pending@.run.matched,
        result->Ok_0->Settled_0@.outcomes == pending@.run.outcomes.push(
            OutcomeView::Submitted(id@),
        ),
        final(runtime).state() == old(runtime).state(),
{
    let reply = Ok::<String, String>(id);
    assert(reply_view(reply) == Ok::<Seq<char>, Seq<char>>(id@));
}

/// Handling starts with the registrations that are switched on and accept the event, in
/// their order, and advancing a run with nothing left to settle finishes it.
pub proof fn law_run_starts_matched_and_ends_settled<Q: DeadTriggerQueue, T: TraceSink>(
    runtime: &TriggerRuntime<Q, T>,
    event: EventEnvelope,
    start: HandleRun,
    later: &mut TriggerRuntime<Q, T>,
    run: HandleRun,
    result: Result<HandleStep, RuntimeError>,
)
    requires
        call_ensures(TriggerRuntime::<Q, T>::handle, (runtime, event), start),
        call_ensures(TriggerRuntime::<Q, T>::advance, (later, run), result),
    ensures
        start@.event == event@,
        start@.outcomes.len() == 0,
        start@.matched == runtime.registrations().filter(
            |registration: RegisteredTrigger|
                registration.enabled() && registration.trigger().accepts(event@),
        ),
        run@.outcomes.len() >= run@.matched.len() <==> (result matches Ok(step)
            && step is Finished),
        result matches Ok(HandleStep::Finished(finished)) ==> finished@ == run@,
{
    assert((|registration: RegisteredTrigger|
        registration.enabled() && registration.trigger().accepts(event@)) =~= (
    |registration: RegisteredTrigger| registration.selects(event@)));
}

} // verus!
