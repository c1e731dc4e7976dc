//! Replay of retained events: by id, and by time range with an optional filter.

use crate::event::{copy_opt, id_text, EventEnvelope, EventId, EventView, Source};
use crate::model::{lemma_filter_take, views};
use crate::registry::selected;
use crate::runtime::{
    report_of, runtime_error_text, FinishedRun, HandleReport, HandleRun, ReportView, RunView,
    RuntimeError, TriggerRuntime,
};
use crate::storage::{event_with_id, DeadTriggerQueue, EventStore};
use crate::text::{opt_text, same_text};
use crate::time::{at_or_after, Timestamp, TimestampView};
use crate::trace::TraceSink;
use vstd::prelude::*;

verus! {

/// Why a replay did not happen.
#[derive(Debug)]
pub enum ReplayError {
    EventNotFound(String),
    Runtime(RuntimeError),
}

/// The message of a [`ReplayError`].
pub open spec fn replay_error_text(error: ReplayError) -> Seq<char> {
    match error {
        ReplayError::EventNotFound(id) => "event "@ + id@ + " was not found for replay"@,
        ReplayError::Runtime(error) => runtime_error_text(error),
    }
}

impl ReplayError {
    /// The message of this error.
    pub fn message(&self) -> (r: String)
        ensures
            r@ == replay_error_text(*self),
    {
        match self {
            ReplayError::EventNotFound(id) => {
                let mut out = "event ".to_owned();
                out.append(id.as_str());
                out.append(" was not found for replay");
                out
            },
            ReplayError::Runtime(error) => error.message(),
        }
    }
}

/// Narrows a range replay further. A field that is not set matches everything.
#[derive(Debug, PartialEq, Eq)]
pub struct ReplayFilter {
    pub event_type: Option<String>,
    pub source: Option<Source>,
}

/// The values of a [`ReplayFilter`].
pub struct FilterView {
    pub event_type: Option<Seq<char>>,
    pub source: Option<Source>,
}

impl View for ReplayFilter {
    type V = FilterView;

    open spec fn view(&self) -> FilterView {
        FilterView { event_type: opt_text(self.event_type), source: self.source }
    }
}

impl Clone for ReplayFilter {
    fn clone(&self) -> (r: ReplayFilter)
        ensures
            r@ == self@,
    {
        ReplayFilter { event_type: copy_opt(&self.event_type), source: self.source }
    }
}

impl Default for ReplayFilter {
    fn default() -> (r: ReplayFilter)
        ensures
            r@ == (FilterView { event_type: None, source: None }),
    {
        ReplayFilter { event_type: None, source: None }
    }
}

/// Whether an event passes a filter.
pub open spec fn passes(event: EventView, filter: FilterView) -> bool {
    &&& filter.event_type matches Some(wanted) ==> event.event_type == wanted
    &&& filter.source matches Some(wanted) ==> event.source == wanted
}

impl ReplayFilter {
    /// Whether `event` passes this filter.
    pub fn matches(&self, event: &EventEnvelope) -> (r: bool)
        ensures
            r == passes(event@, self@),
            r <==> {
                &&& self@.event_type is None || self@.event_type == Some(event@.event_type)
                &&& self@.source is None || self@.source == Some(event@.source)
            },
    {
        let type_matches = match &self.event_type {
            Some(wanted) => same_text(event.event_type.as_str(), wanted.as_str()),
            None => true,
        };
        let source_matches = match self.source {
            Some(wanted) => event.source == wanted,
            None => true,
        };
        type_matches && source_matches
    }
}

/// Whether a moment lies in `[start, end)`.
pub open spec fn in_window(time: TimestampView, start: TimestampView, end: TimestampView) -> bool {
    at_or_after(time, start) && !at_or_after(time, end)
}

/// The events in `[start, end)` that pass a filter, in append order.
pub open spec fn range_selection(
    log: Seq<EventView>,
    start: TimestampView,
    end: TimestampView,
    filter: FilterView,
) -> Seq<EventView> {
    log.filter(
        |event: EventView| in_window(event.timestamp, start, end) && passes(event, filter),
    )
}

/// What became of one replayed event.
#[derive(Debug, PartialEq, Eq)]
pub struct ReplayEventReport {
    pub event_id: String,
    pub report: HandleReport,
}

/// The values of a [`ReplayEventReport`].
pub struct ReplayEventView {
    pub event_id: Seq<char>,
    pub report: ReportView,
}

impl View for ReplayEventReport {
    type V = ReplayEventView;

    open spec fn view(&self) -> ReplayEventView {
        ReplayEventView { event_id: self.event_id@, report: self.report@ }
    }
}

impl Clone for ReplayEventReport {
    fn clone(&self) -> (r: ReplayEventReport)
        ensures
            r@ == self@,
    {
        ReplayEventReport { event_id: self.event_id.clone(), report: self.report.clone() }
    }
}

/// What became of every replayed event.
#[derive(Debug, PartialEq, Eq)]
pub struct ReplayRangeReport {
    pub events: Vec<ReplayEventReport>,
}

impl Clone for ReplayRangeReport {
    fn clone(&self) -> (r: ReplayRangeReport)
        ensures
            views(r.events@) == views(self.events@),
    {
        let mut events: Vec<ReplayEventReport> = Vec::new();
        let mut i: usize = 0;
        while i < self.events.len()
            invariant
                i <= self.events@.len(),
                events@.len() == i,
                forall|j: int| 0 <= j < i ==> (#[trigger] events@[j])@ == self.events@[j]@,
            decreases self.events@.len() - i,
        {
            events.push(self.events[i].clone());
            i += 1;
        }
        assert(views(events@) =~= views(self.events@));
        ReplayRangeReport { events }
    }
}

/// The replay of a range, between events: the events to replay, and the reports of those
/// that are done.
pub struct ReplayRun {
    events: Vec<EventEnvelope>,
    reports: Vec<ReplayEventReport>,
}

/// The values of a [`ReplayRun`].
pub struct ReplayRunView {
    pub events: Seq<EventView>,
    pub reports: Seq<ReplayEventView>,
}

impl View for ReplayRun {
    type V = ReplayRunView;

    closed spec fn view(&self) -> ReplayRunView {
        ReplayRunView { events: views(self.events@), reports: views(self.reports@) }
    }
}

/// Whether the reports of a replay are those of its first events, in order.
pub open spec fn reports_match(run: ReplayRunView) -> bool {
    &&& run.reports.len() <= run.events.len()
    &&& forall|i: int|
        0 <= i < run.reports.len() ==> (#[trigger] run.reports[i]).event_id == id_text(
            run.events[i].id,
        )
}

/// What a replay reports of one finished run.
pub open spec fn report_of_run(finished: RunView) -> ReplayEventView {
    ReplayEventView {
        event_id: id_text(finished.event.id),
        report: report_of(finished.outcomes),
    }
}

/// A replay after the handling of its next event was finished.
pub open spec fn replay_after(run: ReplayRunView, finished: RunView) -> ReplayRunView {
    ReplayRunView {
        events: run.events,
        reports: run.reports.push(report_of_run(finished)),
    }
}

/// A replay that waits for one event to be handled.
pub struct PendingReplay {
    run: ReplayRun,
}

impl View for PendingReplay {
    type V = ReplayRunView;

    closed spec fn view(&self) -> ReplayRunView {
        self.run@
    }
}

/// Where a replay stands.
pub enum ReplayStep {
    /// This event has to be handled next.
    Handle(EventEnvelope, PendingReplay),
    /// Every event has been replayed.
    Done(ReplayRangeReport),
}

impl ReplayRun {
    #[verifier::type_invariant]
    spec fn matched_up(self) -> bool {
        reports_match(
            ReplayRunView { events: views(self.events@), reports: views(self.reports@) },
        )
    }

    /// The next event to handle, or the report when there is none left.
    pub fn next(self) -> (r: ReplayStep)
        ensures
            reports_match(self@),
            self@.reports.len() < self@.events.len() ==> {
                &&& r is Handle
                &&& r->Handle_0@ == self@.events[self@.reports.len() as int]
                &&& r->Handle_1@ == self@
            },
            self@.reports.len() == self@.events.len() ==> {
                &&& r is Done
                &&& views(r->Done_0.events@) == self@.reports
            },
    {
        proof {
            use_type_invariant(&self);
        }
        let at: usize = self.reports.len();
        if at < self.events.len() {
            let event = self.events[at].clone();
            ReplayStep::Handle(event, PendingReplay { run: self })
        } else {
            ReplayStep::Done(ReplayRangeReport { events: self.reports })
        }
    }
}

impl PendingReplay {
    #[verifier::type_invariant]
    spec fn unfinished(self) -> bool {
        self.run.reports@.len() < self.run.events@.len()
    }

    /// Take the finished handling of the event that was given out.
    pub fn handled(self, finished: FinishedRun) -> (r: ReplayRun)
        requires
            self@.reports.len() < self@.events.len(),
            finished@.event == self@.events[self@.reports.len() as int],
        ensures
            finished@.outcomes.len() == finished@.matched.len(),
            r@ == replay_after(self@, finished@),
    {
        proof {
            use_type_invariant(&self);
            use_type_invariant(&self.run);
        }
        let ReplayRun { events, reports } = self.run;
        let ghost before = views(reports@);
        let mut done = reports;
        let event_id = events[done.len()].id.to_string();
        let entry = ReplayEventReport { event_id, report: finished.report() };
        let ghost added = entry@;
        done.push(entry);
        assert(views(done@) =~= before.push(added));
        ReplayRun { events, reports: done }
    }
}

impl<Q: DeadTriggerQueue, T: TraceSink> TriggerRuntime<Q, T> {
    /// Start the replay of one retained event through the normal handling path.
    pub fn replay_by_id<S: EventStore>(&self, store: &S, event_id: EventId) -> (r: Result<
        HandleRun,
        ReplayError,
    >)
        ensures
            match event_with_id(store.log(), event_id@) {
                Some(event) => r is Ok && r->Ok_0@ == (RunView {
                    event,
                    matched: selected(self.registrations(), event),
                    outcomes: Seq::empty(),
                }),
                None => {
                    &&& r is Err
                    &&& r->Err_0 is EventNotFound
                    &&& r->Err_0->EventNotFound_0@ == id_text(event_id@)
                },
            },
    {
        match store.get(event_id) {
            Some(event) => Ok(self.handle(event)),
            None => Err(ReplayError::EventNotFound(event_id.to_string())),
        }
    }

    /// The events in `[start, end)` that pass `filter`, in append order, without handling
    /// them: what [`TriggerRuntime::replay_range`] would replay.
    pub fn preview_range<S: EventStore>(
        &self,
        store: &S,
        start: &Timestamp,
        end: &Timestamp,
        filter: &ReplayFilter,
    ) -> (r: Vec<EventEnvelope>)
        ensures
            views(r@) == range_selection(store.log(), start@, end@, filter@),
    {
        let all = store.all();
        select_range(all, start, end, filter)
    }

    /// Start the replay of the events in `[start, end)` that pass `filter`, in append order.
    pub fn replay_range<S: EventStore>(
        &self,
        store: &S,
        start: &Timestamp,
        end: &Timestamp,
        filter: &ReplayFilter,
    ) -> (r: ReplayRun)
        ensures
            r@ == (ReplayRunView {
                events: range_selection(store.log(), start@, end@, filter@),
                reports: Seq::empty(),
            }),
    {
        let events = self.preview_range(store, start, end, filter);
        let reports: Vec<ReplayEventReport> = Vec::new();
        assert(views(reports@) =~= Seq::<ReplayEventView>::empty());
        ReplayRun { events, reports }
    }
}

/// The events of `all` in `[start, end)` that pass `filter`.
fn select_range(
    all: Vec<EventEnvelope>,
    start: &Timestamp,
    end: &Timestamp,
    filter: &ReplayFilter,
) -> (r: Vec<EventEnvelope>)
    ensures
        views(r@) == range_selection(views(all@), start@, end@, filter@),
{
    let ghost log = views(all@);
    let ghost wanted = |event: EventView|
        in_window(event.timestamp, start@, end@) && passes(event, filter@);
    let mut out: Vec<EventEnvelope> = Vec::new();
    let mut i: usize = 0;
    assert(views(out@) =~= log.take(0).filter(wanted)) by {
        reveal(Seq::filter);
    }
    while i < all.len()
        invariant
            i <= all@.len(),
            log == views(all@),
            wanted == (|event: EventView|
                in_window(event.timestamp, start@, end@) && passes(event, filter@)),
            views(out@) == log.take(i as int).filter(wanted),
        decreases all@.len() - i,
    {
        proof {
            lemma_filter_take(log, i as int, wanted);
        }
        let before = Ghost(out@);
        let time = &all[i].timestamp;
        if time.at_or_after(start) && !time.at_or_after(end) && filter.matches(&all[i]) {
            out.push(all[i].clone());
            assert(views(out@) =~= views(before@).push(log[i as int]));
        }
        i += 1;
    }
    assert(log.take(i as int) =~= log);
    out
}

/// Whether a replay went through these stages, with these finished runs in between: each the
/// handling of the event that was next.
pub open spec fn is_replay(stages: Seq<ReplayRunView>, runs: Seq<RunView>) -> bool {
    &&& stages.len() == runs.len() + 1
    &&& stages[0].reports.len() == 0
    &&& runs.len() <= stages[0].events.len()
    &&& forall|i: int|
        0 <= i < runs.len() ==> {
            &&& (#[trigger] runs[i]).event == stages[i].events[stages[i].reports.len() as int]
            &&& stages[i + 1] == replay_after(stages[i], runs[i])
        }
}

/// Each report of a replay is that of its own event's run: the report at a position comes
/// from the run of the event at that position.
pub proof fn law_replay_reports_its_own_runs(
    stages: Seq<ReplayRunView>,
    runs: Seq<RunView>,
    at: int,
)
    requires
        is_replay(stages, runs),
        0 <= at <= runs.len(),
    ensures
        stages[at].events == stages[0].events,
        stages[at].reports.len() == at,
        forall|i: int| 0 <= i < at ==> (#[trigger] runs[i]).event == stages[0].events[i],
        forall|i: int|
            0 <= i < at ==> (#[trigger] stages[at].reports[i]) == report_of_run(runs[i]),
    decreases at,
{
    if at > 0 {
        law_replay_reports_its_own_runs(stages, runs, at - 1);
        let last = at - 1;
        assert(runs[last].event == stages[last].events[stages[last].reports.len() as int]);
        assert(stages[last + 1] == replay_after(stages[last], runs[last]));
        assert forall|i: int| 0 <= i < at implies (#[trigger] stages[at].reports[i])
            == report_of_run(runs[i]) by {
            if i < last {
                assert(stages[at].reports[i] == stages[last].reports[i]);
            }
        }
    }
}

/// A finished replay reports every selected event, once and in append order.
pub proof fn law_replay_reports_every_event(run: ReplayRunView)
    requires
        reports_match(run),
        run.reports.len() == run.events.len(),
    ensures
        run.reports.map_values(|report: ReplayEventView| report.event_id) == run.events.map_values(
            |event: EventView| id_text(event.id),
        ),
{
    assert(run.reports.map_values(|report: ReplayEventView| report.event_id)
        =~= run.events.map_values(|event: EventView| id_text(event.id)));
}

/// A replay of a range takes exactly the retained events of that range that pass the
/// filter, in append order: nothing outside the window, nothing that the filter rejects, and
/// nothing twice that is not in the log twice.
pub proof fn law_range_selection(
    log: Seq<EventView>,
    start: TimestampView,
    end: TimestampView,
    filter: FilterView,
)
    ensures
        crate::model::is_subsequence(range_selection(log, start, end, filter), log),
        forall|k: int|
            0 <= k < range_selection(log, start, end, filter).len() ==> {
                let event = #[trigger] range_selection(log, start, end, filter)[k];
                in_window(event.timestamp, start, end) && passes(event, filter)
            },
        forall|i: int|
            0 <= i < log.len() && in_window((#[trigger] log[i]).timestamp, start, end) && passes(
                log[i],
                filter,
            ) ==> range_selection(log, start, end, filter).contains(log[i]),
{
    broadcast use Seq::lemma_filter_pred, Seq::lemma_filter_contains;

    let wanted = |event: EventView| in_window(event.timestamp, start, end) && passes(event, filter);
    crate::model::lemma_filter_is_subsequence(log, wanted);
    assert forall|i: int|
        0 <= i < log.len() && in_window((#[trigger] log[i]).timestamp, start, end) && passes(
            log[i],
            filter,
        ) implies range_selection(log, start, end, filter).contains(log[i]) by {
        assert(wanted(log[i]));
    }
}

/// A filter with nothing set narrows nothing.
pub proof fn law_empty_filter_passes_everything(event: EventView)
    ensures
        passes(event, FilterView { event_type: None, source: None }),
{
}

/// Adjoining windows split a range: each event of the whole is in exactly one of them.
pub proof fn law_windows_adjoin(
    time: TimestampView,
    start: TimestampView,
    middle: TimestampView,
    end: TimestampView,
)
    requires
        at_or_after(middle, start),
        at_or_after(end, middle),
    ensures
        in_window(time, start, end) <==> (in_window(time, start, middle) || in_window(
            time,
            middle,
            end,
        )),
        !(in_window(time, start, middle) && in_window(time, middle, end)),
{
}

/// What a range replay selects: nothing before the start, nothing at or after the end, only
/// events of the wanted type whenever a type is set and only those of the wanted source
/// whenever a source is set, each regardless of the other; and everything of which all that
/// holds, in append order.
pub proof fn law_range_replay_selects_by_window_type_and_source(
    log: Seq<EventView>,
    start: TimestampView,
    end: TimestampView,
    filter: FilterView,
    event: EventView,
)
    ensures
        range_selection(log, start, end, filter).contains(event) ==> {
            &&& log.contains(event)
            &&& at_or_after(event.timestamp, start)
            &&& !at_or_after(event.timestamp, end)
            &&& filter.event_type is Some ==> event.event_type == filter.event_type->0
            &&& filter.source is Some ==> event.source == filter.source->0
        },
        ({
            let wanted = {
                &&& at_or_after(event.timestamp, start)
                &&& !at_or_after(event.timestamp, end)
                &&& filter.event_type is None || filter.event_type == Some(event.event_type)
                &&& filter.source is None || filter.source == Some(event.source)
            };
            range_selection(log.push(event), start, end, filter) == if wanted {
                range_selection(log, start, end, filter).push(event)
            } else {
                range_selection(log, start, end, filter)
            }
        }),
        range_selection(Seq::empty(), start, end, filter).len() == 0,
{
    broadcast use Seq::lemma_filter_pred;

    let wanted = |event: EventView| in_window(event.timestamp, start, end) && passes(event, filter);
    crate::model::lemma_filter_push(log, event, wanted);
    reveal(Seq::filter);
    if range_selection(log, start, end, filter).contains(event) {
        log.lemma_filter_contains_rev(wanted, event);
        let k = choose|k: int|
            0 <= k < log.filter(wanted).len() && log.filter(wanted)[k] == event;
        assert(wanted(log.filter(wanted)[k]));
    }
}

/// A filter judges an event by its type and by its source, each on its own account: it lets
/// an event pass exactly when the type is the wanted one or none is set, and the source is
/// the wanted one or none is set.
pub proof fn law_filter_judges_type_and_source(event: EventView, filter: FilterView)
    ensures
        filter.event_type is Some && filter.event_type->0 != event.event_type ==> !passes(
            event,
            filter,
        ),
        filter.source is Some && filter.source->0 != event.source ==> !passes(event, filter),
        passes(
            event,
            FilterView { event_type: Some(event.event_type), source: Some(event.source) },
        ),
        passes(event, FilterView { event_type: Some(event.event_type), source: None }),
        passes(event, FilterView { event_type: None, source: Some(event.source) }),
        passes(event, filter) <==> passes(event, FilterView { source: None, ..filter }) && passes(
            event,
            FilterView { event_type: None, ..filter },
        ),
{
}

/// Handling the next event of a replay adds its report at the end: the event's id, and the
/// jobs and failures of that run as they came.
pub proof fn law_replayed_event_is_reported(run: ReplayRunView, finished: RunView)
    ensures
        ({
            let after = replay_after(run, finished);
            &&& after.events == run.events
            &&& after.reports.len() == run.reports.len() + 1
            &&& after.reports.drop_last() == run.reports
            &&& after.reports.last().event_id == id_text(finished.event.id)
            &&& after.reports.last().report == report_of(finished.outcomes)
        }),
{
    assert(replay_after(run, finished).reports.drop_last() =~= run.reports);
}

/// A message about a replay names the event that was not found, or gives the cause.
pub proof fn law_replay_message_names_the_event(error: ReplayError)
    ensures
        error matches ReplayError::EventNotFound(id) ==> crate::text::stripped(
            replay_error_text(error),
            "event "@ + id@,
        ) == Some(" was not found for replay"@),
        error matches ReplayError::Runtime(cause) ==> replay_error_text(error)
            == runtime_error_text(cause),
{
    if let ReplayError::EventNotFound(id) = error {
        crate::text::law_stripping_undoes_prefixing(
            " was not found for replay"@,
            "event "@ + id@,
        );
    }
}

/// Every event that a range replay takes is of the wanted type whenever one is set, of the
/// wanted source whenever one is set, and in the window; and every event of the log of which
/// all that holds is taken.
pub proof fn law_previewed_events_are_the_wanted_ones<
    S: EventStore,
    Q: DeadTriggerQueue,
    T: TraceSink,
>(
    runtime: &TriggerRuntime<Q, T>,
    store: &S,
    start: &Timestamp,
    end: &Timestamp,
    filter: &ReplayFilter,
    result: Vec<EventEnvelope>,
    event: EventView,
)
    requires
        call_ensures(
            TriggerRuntime::<Q, T>::preview_range::<S>,
            (runtime, store, start, end, filter),
            result,
        ),
    ensures
        views(result@).contains(event) <==> {
            &&& store.log().contains(event)
            &&& at_or_after(event.timestamp, start@)
            &&& !at_or_after(event.timestamp, end@)
            &&& filter.event_type is Some ==> event.event_type == filter.event_type->0@
            &&& filter.source is Some ==> event.source == filter.source->0
        },
{
    broadcast use Seq::lemma_filter_contains;

    law_range_replay_selects_by_window_type_and_source(
        store.log(),
        start@,
        end@,
        filter@,
        event,
    );
    if store.log().contains(event) {
        let k = choose|k: int| 0 <= k < store.log().len() && store.log()[k] == event;
        let wanted = |event: EventView|
            in_window(event.timestamp, start@, end@) && passes(event, filter@);
        if wanted(event) {
            assert(store.log().filter(wanted).contains(store.log()[k]));
        }
    }
}

} // verus!
