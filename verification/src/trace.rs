//! Traces of handled events and the sinks that take them.

use crate::event::{EventEnvelope, EventType, EventView, Source};
use crate::model::views;
use crate::runtime::HandleReport;
use vstd::prelude::*;

verus! {

/// What happened when one event was handled.
#[derive(Debug, PartialEq, Eq)]
pub struct TriggerTrace {
    pub event_id: String,
    pub event_type: EventType,
    pub source: Source,
    pub matched_triggers: Vec<String>,
    pub submitted: Vec<String>,
    pub failure_count: usize,
}

/// The values of a [`TriggerTrace`].
pub struct TraceView {
    pub event_id: Seq<char>,
    pub event_type: Seq<char>,
    pub source: Source,
    pub matched_triggers: Seq<Seq<char>>,
    pub submitted: Seq<Seq<char>>,
    pub failure_count: int,
}

impl View for TriggerTrace {
    type V = TraceView;

    open spec fn view(&self) -> TraceView {
        TraceView {
            event_id: self.event_id@,
            event_type: self.event_type@,
            source: self.source,
            matched_triggers: views(self.matched_triggers@),
            submitted: views(self.submitted@),
            failure_count: self.failure_count as int,
        }
    }
}

/// A copy of a list of strings.
pub(crate) fn copy_strings(list: &Vec<String>) -> (r: Vec<String>)
    ensures
        views(r@) == views(list@),
{
    let mut out: Vec<String> = Vec::new();
    let mut i: usize = 0;
    while i < list.len()
        invariant
            i <= list@.len(),
            out@.len() == i,
            forall|j: int| 0 <= j < i ==> (#[trigger] out@[j])@ == list@[j]@,
        decreases list@.len() - i,
    {
        out.push(list[i].clone());
        i += 1;
    }
    assert(views(out@) =~= views(list@));
    out
}

impl Clone for TriggerTrace {
    fn clone(&self) -> (r: TriggerTrace)
        ensures
            r@ == self@,
    {
        TriggerTrace {
            event_id: self.event_id.clone(),
            event_type: self.event_type.clone(),
            source: self.source,
            matched_triggers: copy_strings(&self.matched_triggers),
            submitted: copy_strings(&self.submitted),
            failure_count: self.failure_count,
        }
    }
}

/// The trace of an event that was handled with this outcome.
pub open spec fn trace_of(
    event: EventView,
    matched: Seq<Seq<char>>,
    submitted: Seq<Seq<char>>,
    failures: int,
) -> TraceView {
    TraceView {
        event_id: crate::event::id_text(event.id),
        event_type: event.event_type,
        source: event.source,
        matched_triggers: matched,
        submitted,
        failure_count: failures,
    }
}

impl TriggerTrace {
    /// The trace of `event`, which these triggers matched and which was handled with
    /// `report`.
    pub fn from_event_report(
        event: &EventEnvelope,
        matched_triggers: Vec<String>,
        report: &HandleReport,
    ) -> (r: TriggerTrace)
        ensures
            r@ == trace_of(
                event@,
                views(matched_triggers@),
                report@.submitted,
                report@.failed.len() as int,
            ),
    {
        assert(report@.failed.len() == report.failed@.len());
        TriggerTrace {
            event_id: event.id.to_string(),
            event_type: event.event_type.clone(),
            source: event.source,
            matched_triggers,
            submitted: copy_strings(&report.submitted),
            failure_count: report.failed.len(),
        }
    }
}

/// Takes the trace of every handled event.
pub trait TraceSink {
    /// Whether the sink keeps the traces it takes.
    open spec fn keeps(&self) -> bool {
        false
    }

    /// The traces it has kept.
    open spec fn kept(&self) -> Seq<TraceView> {
        Seq::empty()
    }

    fn record(&mut self, trace: TriggerTrace)
        ensures
            final(self).keeps() == old(self).keeps(),
            final(self).kept() == if old(self).keeps() {
                old(self).kept().push(trace@)
            } else {
                old(self).kept()
            },
    ;
}

/// Keeps traces in memory, for tests and inspection.
pub struct InMemoryTraceSink {
    traces: Vec<TriggerTrace>,
}

impl InMemoryTraceSink {
    pub fn new() -> (r: InMemoryTraceSink)
        ensures
            r.kept() == Seq::<TraceView>::empty(),
    {
        let traces: Vec<TriggerTrace> = Vec::new();
        assert(views(traces@) =~= Seq::<TraceView>::empty());
        InMemoryTraceSink { traces }
    }

    /// The traces recorded so far.
    pub fn traces(&self) -> (r: Vec<TriggerTrace>)
        ensures
            views(r@) == self.kept(),
    {
        let mut out: Vec<TriggerTrace> = Vec::new();
        let mut i: usize = 0;
        while i < self.traces.len()
            invariant
                i <= self.traces@.len(),
                out@.len() == i,
                forall|j: int| 0 <= j < i ==> (#[trigger] out@[j])@ == self.traces@[j]@,
            decreases self.traces@.len() - i,
        {
            out.push(self.traces[i].clone());
            i += 1;
        }
        assert(views(out@) =~= views(self.traces@));
        out
    }
}

impl Default for InMemoryTraceSink {
    fn default() -> (r: InMemoryTraceSink)
        ensures
            r.kept() == Seq::<TraceView>::empty(),
    {
        InMemoryTraceSink::new()
    }
}

impl TraceSink for InMemoryTraceSink {
    open spec fn keeps(&self) -> bool {
        true
    }

    closed spec fn kept(&self) -> Seq<TraceView> {
        views(self.traces@)
    }

    fn record(&mut self, trace: TriggerTrace) {
        let before = Ghost(self.traces@);
        self.traces.push(trace);
        assert(views(self.traces@) =~= views(before@).push(trace@));
    }
}

/// Drops every trace.
pub struct NoopTraceSink;

impl TraceSink for NoopTraceSink {
    open spec fn keeps(&self) -> bool {
        false
    }

    open spec fn kept(&self) -> Seq<TraceView> {
        Seq::empty()
    }

    fn record(&mut self, trace: TriggerTrace) {
    }
}

/// How important a log record is.
#[derive(Debug, Clone, Copy, PartialEq, Eq, Structural)]
pub enum LogLevel {
    Info,
    Warn,
}

/// The level of a trace: an event with trigger-side failures is logged higher than a clean
/// one.
pub open spec fn trace_level(trace: TraceView) -> LogLevel {
    if trace.failure_count > 0 {
        LogLevel::Warn
    } else {
        LogLevel::Info
    }
}

/// The message of a trace in the log.
pub open spec fn trace_message(trace: TraceView) -> Seq<char> {
    if trace.failure_count > 0 {
        "event handled with trigger failures"@
    } else {
        "event handled"@
    }
}

/// One structured log record.
#[derive(Debug, PartialEq, Eq)]
pub struct LogRecord {
    pub level: LogLevel,
    pub message: String,
    pub event_id: String,
    pub event_type: String,
    pub source: Source,
    pub matched: usize,
    pub submitted: usize,
    pub failure_count: usize,
}

/// The values of a [`LogRecord`].
pub struct LogView {
    pub level: LogLevel,
    pub message: Seq<char>,
    pub event_id: Seq<char>,
    pub event_type: Seq<char>,
    pub source: Source,
    pub matched: int,
    pub submitted: int,
    pub failure_count: int,
}

impl View for LogRecord {
    type V = LogView;

    open spec fn view(&self) -> LogView {
        LogView {
            level: self.level,
            message: self.message@,
            event_id: self.event_id@,
            event_type: self.event_type@,
            source: self.source,
            matched: self.matched as int,
            submitted: self.submitted as int,
            failure_count: self.failure_count as int,
        }
    }
}

/// The log record of a trace.
pub open spec fn log_of(trace: TraceView) -> LogView {
    LogView {
        level: trace_level(trace),
        message: trace_message(trace),
        event_id: trace.event_id,
        event_type: trace.event_type,
        source: trace.source,
        matched: trace.matched_triggers.len() as int,
        submitted: trace.submitted.len() as int,
        failure_count: trace.failure_count,
    }
}

impl LogRecord {
    /// The log record of `trace`.
    pub fn of_trace(trace: &TriggerTrace) -> (r: LogRecord)
        ensures
            r@ == log_of(trace@),
    {
        let failed = trace.failure_count > 0;
        LogRecord {
            level: if failed {
                LogLevel::Warn
            } else {
                LogLevel::Info
            },
            message: if failed {
                "event handled with trigger failures".to_owned()
            } else {
                "event handled".to_owned()
            },
            event_id: trace.event_id.clone(),
            event_type: trace.event_type.as_str().to_owned(),
            source: trace.source,
            matched: trace.matched_triggers.len(),
            submitted: trace.submitted.len(),
            failure_count: trace.failure_count,
        }
    }
}

/// Turns every trace into a log record. The traces wait here until their records are written
/// out.
pub struct LoggingTraceSink {
    pending: Vec<TriggerTrace>,
}

impl LoggingTraceSink {
    pub fn new() -> (r: LoggingTraceSink)
        ensures
            r.kept() == Seq::<TraceView>::empty(),
    {
        let pending: Vec<TriggerTrace> = Vec::new();
        assert(views(pending@) =~= Seq::<TraceView>::empty());
        LoggingTraceSink { pending }
    }

    /// Take the log records of the waiting traces, in the order in which they came.
    pub fn take_pending(&mut self) -> (r: Vec<LogRecord>)
        ensures
            views(r@) == old(self).kept().map_values(|trace: TraceView| log_of(trace)),
            final(self).kept() == Seq::<TraceView>::empty(),
    {
        let mut waiting: Vec<TriggerTrace> = Vec::new();
        assert(views(waiting@) =~= Seq::<TraceView>::empty());
        std::mem::swap(&mut waiting, &mut self.pending);
        let mut out: Vec<LogRecord> = Vec::new();
        let mut i: usize = 0;
        while i < waiting.len()
            invariant
                i <= waiting@.len(),
                out@.len() == i,
                forall|j: int| 0 <= j < i ==> (#[trigger] out@[j])@ == log_of(waiting@[j]@),
            decreases waiting@.len() - i,
        {
            out.push(LogRecord::of_trace(&waiting[i]));
            i += 1;
        }
        assert(views(out@) =~= views(waiting@).map_values(|trace: TraceView| log_of(trace)));
        out
    }
}

impl Default for LoggingTraceSink {
    fn default() -> (r: LoggingTraceSink)
        ensures
            r.kept() == Seq::<TraceView>::empty(),
    {
        LoggingTraceSink::new()
    }
}

impl TraceSink for LoggingTraceSink {
    open spec fn keeps(&self) -> bool {
        true
    }

    closed spec fn kept(&self) -> Seq<TraceView> {
        views(self.pending@)
    }

    fn record(&mut self, trace: TriggerTrace) {
        let ghost before = self.pending@;
        self.pending.push(trace);
        assert(views(self.pending@) =~= views(before).push(trace@));
    }
}

/// A trace with failures is logged above a clean one.
pub proof fn law_failures_raise_the_level(clean: TraceView, failed: TraceView)
    requires
        clean.failure_count == 0,
        failed.failure_count > 0,
    ensures
        log_of(clean).level == LogLevel::Info,
        log_of(failed).level == LogLevel::Warn,
{
}

/// A trace tells of its event: its id, type and source, the triggers that matched, the jobs
/// that were submitted and how many triggers failed.
pub proof fn law_trace_tells_of_its_event(
    event: EventView,
    matched: Seq<Seq<char>>,
    submitted: Seq<Seq<char>>,
    failures: int,
)
    ensures
        ({
            let trace = trace_of(event, matched, submitted, failures);
            &&& trace.event_id == crate::event::id_text(event.id)
            &&& trace.event_type == event.event_type
            &&& trace.source == event.source
            &&& trace.matched_triggers == matched
            &&& trace.submitted == submitted
            &&& trace.failure_count == failures
        }),
{
}

/// A log record counts what its trace lists, and its level and message say whether a trigger
/// failed.
pub proof fn law_log_counts_what_the_trace_lists(trace: TraceView)
    ensures
        ({
            let log = log_of(trace);
            &&& log.event_id == trace.event_id
            &&& log.event_type == trace.event_type
            &&& log.source == trace.source
            &&& log.matched == trace.matched_triggers.len()
            &&& log.submitted == trace.submitted.len()
            &&& log.failure_count == trace.failure_count
            &&& trace.failure_count > 0 ==> log.level == LogLevel::Warn && log.message
                == "event handled with trigger failures"@
            &&& trace.failure_count <= 0 ==> log.level == LogLevel::Info && log.message
                == "event handled"@
        }),
{
}

} // verus!
