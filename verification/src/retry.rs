//! Retry of dead triggers: drain the queue, handle each failed event again, and report.

use crate::event::{EventEnvelope, EventView};
use crate::model::views;
use crate::runtime::{
    report_of, FinishedRun, HandleReport, OutcomeView, ReportView, RunView, RuntimeError,
    RuntimeState, TriggerRuntime,
};
use crate::storage::{DeadTriggerQueue, DeadTriggerRecord, DeadTriggerView, QueueChange};
use crate::text::same_text;
use crate::trace::{copy_strings, TraceSink};
use std::collections::HashMap;
use vstd::prelude::*;

verus! {

/// Outcome of one retry pass. `recovered` and `still_failed` divide the `drained` records
/// by whether their trigger still fails; `submitted` lists the jobs submitted in the pass.
#[derive(Debug, PartialEq, Eq)]
pub struct DeadTriggerRetryReport {
    pub drained: usize,
    pub events_retried: usize,
    pub recovered: usize,
    pub still_failed: usize,
    pub submitted: Vec<String>,
}

/// The values of a [`DeadTriggerRetryReport`].
pub struct RetryReportView {
    pub drained: int,
    pub events_retried: int,
    pub recovered: int,
    pub still_failed: int,
    pub submitted: Seq<Seq<char>>,
}

impl View for DeadTriggerRetryReport {
    type V = RetryReportView;

    open spec fn view(&self) -> RetryReportView {
        RetryReportView {
            drained: self.drained as int,
            events_retried: self.events_retried as int,
            recovered: self.recovered as int,
            still_failed: self.still_failed as int,
            submitted: views(self.submitted@),
        }
    }
}

impl Clone for DeadTriggerRetryReport {
    fn clone(&self) -> (r: DeadTriggerRetryReport)
        ensures
            r@ == self@,
    {
        DeadTriggerRetryReport {
            drained: self.drained,
            events_retried: self.events_retried,
            recovered: self.recovered,
            still_failed: self.still_failed,
            submitted: copy_strings(&self.submitted),
        }
    }
}

impl Default for DeadTriggerRetryReport {
    fn default() -> (r: DeadTriggerRetryReport)
        ensures
            r@ == empty_report(0),
    {
        let submitted: Vec<String> = Vec::new();
        assert(views(submitted@) =~= Seq::<Seq<char>>::empty());
        DeadTriggerRetryReport {
            drained: 0,
            events_retried: 0,
            recovered: 0,
            still_failed: 0,
            submitted,
        }
    }
}

/// The report of a pass that has drained `n` records and handled nothing yet.
pub open spec fn empty_report(n: int) -> RetryReportView {
    RetryReportView {
        drained: n,
        events_retried: 0,
        recovered: 0,
        still_failed: 0,
        submitted: Seq::empty(),
    }
}

/// The failed triggers of one event, one entry per record.
pub struct RetryGroup {
    event: EventEnvelope,
    triggers: Vec<String>,
}

/// The values of a [`RetryGroup`].
pub struct GroupView {
    pub event: EventView,
    pub triggers: Seq<Seq<char>>,
}

impl View for RetryGroup {
    type V = GroupView;

    closed spec fn view(&self) -> GroupView {
        GroupView { event: self.event@, triggers: views(self.triggers@) }
    }
}

/// The position of the group of an event, or the number of groups when it has none.
pub open spec fn group_position(groups: Seq<GroupView>, id: u128) -> int
    decreases groups.len(),
{
    if groups.len() == 0 || groups[0].event.id == id {
        0
    } else {
        1 + group_position(groups.drop_first(), id)
    }
}

/// The groups after one more record: it joins the group of its event, whose event it
/// brings up to date, or opens a new group at the end.
pub open spec fn with_record(groups: Seq<GroupView>, record: DeadTriggerView) -> Seq<GroupView> {
    let at = group_position(groups, record.event.id);
    if at < groups.len() {
        groups.update(
            at,
            GroupView {
                event: record.event,
                triggers: groups[at].triggers.push(record.trigger_name),
            },
        )
    } else {
        groups.push(GroupView { event: record.event, triggers: seq![record.trigger_name] })
    }
}

/// Records grouped by event, in the order in which each event first occurs.
pub open spec fn grouped(records: Seq<DeadTriggerView>) -> Seq<GroupView>
    decreases records.len(),
{
    if records.len() == 0 {
        Seq::empty()
    } else {
        with_record(grouped(records.drop_last()), records.last())
    }
}

/// How many records the groups hold.
pub open spec fn group_records(groups: Seq<GroupView>) -> int
    decreases groups.len(),
{
    if groups.len() == 0 {
        0
    } else {
        group_records(groups.drop_last()) + groups.last().triggers.len()
    }
}

/// Whether a trigger is among the failures of a report.
pub open spec fn fails_again(trigger: Seq<char>, report: ReportView) -> bool {
    exists|k: int| 0 <= k < report.failed.len() && (#[trigger] report.failed[k]).trigger_name
        == trigger
}

/// How many of the triggers are among the failures of a report.
pub open spec fn failing_again(triggers: Seq<Seq<char>>, report: ReportView) -> int
    decreases triggers.len(),
{
    if triggers.len() == 0 {
        0
    } else {
        failing_again(triggers.drop_last(), report) + if fails_again(triggers.last(), report) {
            1int
        } else {
            0int
        }
    }
}

/// A pass's report after the event of `group` was handled with `report`.
pub open spec fn with_result(
    report: RetryReportView,
    group: GroupView,
    result: ReportView,
) -> RetryReportView {
    RetryReportView {
        drained: report.drained,
        events_retried: report.events_retried + 1,
        recovered: report.recovered + group.triggers.len() - failing_again(group.triggers, result),
        still_failed: report.still_failed + failing_again(group.triggers, result),
        submitted: report.submitted + result.submitted,
    }
}

/// A retry pass, between events.
pub struct RetryRun {
    groups: Vec<RetryGroup>,
    report: DeadTriggerRetryReport,
}

/// The values of a [`RetryRun`].
pub struct RetryRunView {
    pub groups: Seq<GroupView>,
    pub report: RetryReportView,
}

impl View for RetryRun {
    type V = RetryRunView;

    closed spec fn view(&self) -> RetryRunView {
        RetryRunView { groups: views(self.groups@), report: self.report@ }
    }
}

/// Whether a pass's counts are right: the records of the events handled so far have either
/// recovered or failed again, and the groups hold all drained records.
pub open spec fn counts_match(run: RetryRunView) -> bool {
    &&& 0 <= run.report.events_retried <= run.groups.len()
    &&& run.report.recovered + run.report.still_failed == group_records(
        run.groups.take(run.report.events_retried),
    )
    &&& group_records(run.groups) == run.report.drained
}

/// A retry pass that waits for one event to be handled.
pub struct PendingRetry {
    run: RetryRun,
}

impl View for PendingRetry {
    type V = RetryRunView;

    closed spec fn view(&self) -> RetryRunView {
        self.run@
    }
}

/// Where a retry pass stands.
pub enum RetryStep {
    /// This event has to be handled next.
    Handle(EventEnvelope, PendingRetry),
    /// Every event has been handled.
    Done(DeadTriggerRetryReport),
}

proof fn lemma_group_position(groups: Seq<GroupView>, id: u128)
    ensures
        0 <= group_position(groups, id) <= groups.len(),
        group_position(groups, id) < groups.len() ==> groups[group_position(groups, id)].event.id
            == id,
        forall|i: int|
            0 <= i < group_position(groups, id) ==> (#[trigger] groups[i]).event.id != id,
    decreases groups.len(),
{
    if groups.len() > 0 && groups[0].event.id != id {
        let rest = groups.drop_first();
        lemma_group_position(rest, id);
        assert forall|i: int| 0 <= i < group_position(groups, id) implies (
        #[trigger] groups[i]).event.id != id by {
            if i > 0 {
                assert(groups[i] == rest[i - 1]);
            }
        }
    }
}

proof fn lemma_group_records_nonnegative(groups: Seq<GroupView>)
    ensures
        group_records(groups) >= 0,
    decreases groups.len(),
{
    if groups.len() > 0 {
        lemma_group_records_nonnegative(groups.drop_last());
    }
}

proof fn lemma_group_records_take(groups: Seq<GroupView>, n: int)
    requires
        0 <= n <= groups.len(),
    ensures
        0 <= group_records(groups.take(n)) <= group_records(groups),
        n < groups.len() ==> group_records(groups.take(n + 1)) == group_records(groups.take(n))
            + groups[n].triggers.len(),
    decreases groups.len(),
{
    lemma_group_records_nonnegative(groups.take(n));
    if n == groups.len() {
        assert(groups.take(n) =~= groups);
    } else {
        assert(groups.take(n + 1).drop_last() =~= groups.take(n));
        if n == groups.len() - 1 {
            assert(groups.take(n + 1) =~= groups);
        } else {
            lemma_group_records_take(groups.drop_last(), n);
            assert(groups.drop_last().take(n) =~= groups.take(n));
        }
    }
}

proof fn lemma_group_records_update(groups: Seq<GroupView>, at: int, group: GroupView)
    requires
        0 <= at < groups.len(),
    ensures
        group_records(groups.update(at, group)) == group_records(groups)
            - groups[at].triggers.len() + group.triggers.len(),
    decreases groups.len(),
{
    let after = groups.update(at, group);
    if at == groups.len() - 1 {
        assert(after.drop_last() =~= groups.drop_last());
    } else {
        lemma_group_records_update(groups.drop_last(), at, group);
        assert(after.drop_last() =~= groups.drop_last().update(at, group));
    }
}

proof fn lemma_with_record(groups: Seq<GroupView>, record: DeadTriggerView)
    ensures
        group_records(with_record(groups, record)) == group_records(groups) + 1,
{
    let at = group_position(groups, record.event.id);
    lemma_group_position(groups, record.event.id);
    if at < groups.len() {
        lemma_group_records_update(
            groups,
            at,
            GroupView {
                event: record.event,
                triggers: groups[at].triggers.push(record.trigger_name),
            },
        );
    } else {
        let group = GroupView { event: record.event, triggers: seq![record.trigger_name] };
        assert(groups.push(group).drop_last() =~= groups);
    }
}

proof fn lemma_grouped_records(records: Seq<DeadTriggerView>)
    ensures
        group_records(grouped(records)) == records.len(),
    decreases records.len(),
{
    if records.len() > 0 {
        lemma_grouped_records(records.drop_last());
        lemma_with_record(grouped(records.drop_last()), records.last());
    }
}

proof fn lemma_failing_again_bounds(triggers: Seq<Seq<char>>, report: ReportView)
    ensures
        0 <= failing_again(triggers, report) <= triggers.len(),
    decreases triggers.len(),
{
    if triggers.len() > 0 {
        lemma_failing_again_bounds(triggers.drop_last(), report);
    }
}

/// Whether an index gives the position of every group.
spec fn indexes(index: Map<u128, usize>, groups: Seq<GroupView>) -> bool {
    forall|id: u128|
        if #[trigger] index.contains_key(id) {
            index[id] == group_position(groups, id) && index[id] < groups.len()
        } else {
            group_position(groups, id) == groups.len()
        }
}

/// Adding a record moves no group.
proof fn lemma_positions_stay(groups: Seq<GroupView>, record: DeadTriggerView, id: u128)
    ensures
        group_position(with_record(groups, record), id) == if id == record.event.id {
            group_position(groups, id)
        } else if group_position(groups, id) < groups.len() {
            group_position(groups, id)
        } else {
            with_record(groups, record).len() as int
        },
{
    let after = with_record(groups, record);
    lemma_group_position(groups, record.event.id);
    lemma_group_position(groups, id);
    lemma_group_position(after, id);
    let before_at = group_position(groups, id);
    let after_at = group_position(after, id);
    if after_at < after.len() && after_at < groups.len() {
        assert(groups[after_at].event.id == after[after_at].event.id);
    }
    if before_at < groups.len() {
        assert(after[before_at].event.id == groups[before_at].event.id);
    } else if id == record.event.id {
        assert(after[before_at].event.id == id);
    }
}

/// Group records by event.
fn group_by_event(records: Vec<DeadTriggerRecord>) -> (r: Vec<RetryGroup>)
    ensures
        views(r@) == grouped(views(records@)),
{
    broadcast use vstd::std_specs::hash::group_hash_axioms;

    let ghost all = views(records@);
    let mut groups: Vec<RetryGroup> = Vec::new();
    let mut index: HashMap<u128, usize> = HashMap::new();
    assert(views(groups@) =~= grouped(all.take(0)));
    for record in it: records
        invariant
            it.seq() == records@,
            all == views(records@),
            views(groups@) == grouped(all.take(it.index() as int)),
            indexes(index@, views(groups@)),
    {
        let ghost n = it.index() as int;
        let ghost before = views(groups@);
        let ghost added = record@;
        proof {
            assert(all.take(n + 1).drop_last() =~= all.take(n));
            assert(all.take(n + 1).last() == added);
            lemma_group_position(before, added.event.id);
            assert forall|id: u128| true implies #[trigger] group_position(
                with_record(before, added),
                id,
            ) == (if id == added.event.id {
                group_position(before, id)
            } else if group_position(before, id) < before.len() {
                group_position(before, id)
            } else {
                with_record(before, added).len() as int
            }) by {
                lemma_positions_stay(before, added, id);
            }
        }
        let DeadTriggerRecord { event, trigger_name, error: _ } = record;
        let id: u128 = event.id.bits();
        match index.get(&id) {
            Some(found) => {
                let at: usize = *found;
                let group = &mut groups[at];
                group.event = event;
                group.triggers.push(trigger_name);
                proof {
                    let now = groups@[at as int]@;
                    assert(now.triggers =~= before[at as int].triggers.push(added.trigger_name));
                    assert(views(groups@) =~= before.update(at as int, now));
                }
            },
            None => {
                let triggers: Vec<String> = vec![trigger_name];
                assert(views(triggers@) =~= seq![added.trigger_name]);
                index.insert(id, groups.len());
                groups.push(RetryGroup { event, triggers });
                assert(views(groups@) =~= with_record(before, added));
            },
        }
    }
    assert(all.take(all.len() as int) =~= all);
    groups
}

/// How many of `triggers` are among the failures of `report`.
fn count_failing(triggers: &Vec<String>, report: &HandleReport) -> (r: usize)
    ensures
        r == failing_again(views(triggers@), report@),
        r <= triggers@.len(),
{
    let ghost all = views(triggers@);
    let mut count: usize = 0;
    let mut i: usize = 0;
    while i < triggers.len()
        invariant
            i <= triggers@.len(),
            all == views(triggers@),
            count == failing_again(all.take(i as int), report@),
            count <= i,
        decreases triggers@.len() - i,
    {
        assert(all.take(i + 1).drop_last() =~= all.take(i as int));
        assert(all.take(i + 1).last() == triggers@[i as int]@);
        let mut found: bool = false;
        let mut k: usize = 0;
        while k < report.failed.len() && !found
            invariant
                i < triggers@.len(),
                k <= report.failed@.len(),
                found ==> fails_again(triggers@[i as int]@, report@),
                !found ==> forall|j: int|
                    0 <= j < k ==> (#[trigger] report@.failed[j]).trigger_name
                        != triggers@[i as int]@,
            decreases report.failed@.len() - k,
        {
            assert(report@.failed[k as int] == report.failed@[k as int]@);
            if same_text(report.failed[k].trigger_name.as_str(), triggers[i].as_str()) {
                found = true;
            }
            k += 1;
        }
        if found {
            count += 1;
        }
        i += 1;
    }
    assert(all.take(i as int) =~= all);
    count
}

impl RetryRun {
    #[verifier::type_invariant]
    spec fn counted(self) -> bool {
        counts_match(RetryRunView { groups: views(self.groups@), report: self.report@ })
    }

    /// The next event to handle, or the report when there is none left.
    pub fn next(self) -> (r: RetryStep)
        ensures
            counts_match(self@),
            self@.report.events_retried < self@.groups.len() ==> {
                &&& r is Handle
                &&& r->Handle_0@ == self@.groups[self@.report.events_retried].event
                &&& r->Handle_1@ == self@
            },
            self@.report.events_retried == self@.groups.len() ==> {
                &&& r is Done
                &&& r->Done_0@ == self@.report
            },
    {
        proof {
            use_type_invariant(&self);
        }
        let at: usize = self.report.events_retried;
        if at < self.groups.len() {
            let event = self.groups[at].event.clone();
            assert(self@.groups[at as int] == self.groups@[at as int]@);
            RetryStep::Handle(event, PendingRetry { run: self })
        } else {
            RetryStep::Done(self.report)
        }
    }
}

impl PendingRetry {
    #[verifier::type_invariant]
    spec fn unfinished(self) -> bool {
        self.run.report.events_retried < self.run.groups@.len()
    }

    /// Take the finished handling of the event that was given out.
    pub fn handled(self, finished: FinishedRun) -> (r: RetryRun)
        requires
            0 <= self@.report.events_retried < self@.groups.len(),
            finished@.event == self@.groups[self@.report.events_retried].event,
        ensures
            finished@.outcomes.len() == finished@.matched.len(),
            r@ == (RetryRunView {
                groups: self@.groups,
                report: with_result(
                    self@.report,
                    self@.groups[self@.report.events_retried],
                    report_of(finished@.outcomes),
                ),
            }),
    {
        proof {
            use_type_invariant(&self);
            use_type_invariant(&self.run);
        }
        let ghost before = self.run@;
        let RetryRun { groups, report } = self.run;
        let at: usize = report.events_retried;
        let result = finished.report();
        let failing = count_failing(&groups[at].triggers, &result);
        let total: usize = groups[at].triggers.len();
        let count: usize = groups.len();
        assert(at < count);
        proof {
            assert(before.groups[at as int] == groups@[at as int]@);
            lemma_group_records_take(before.groups, at as int);
            lemma_group_records_take(before.groups, at + 1);
        }
        let DeadTriggerRetryReport { drained, events_retried, recovered, still_failed, submitted } =
            report;
        let mut all_submitted = submitted;
        let mut more = result.submitted;
        let ghost added = views(more@);
        all_submitted.append(&mut more);
        assert(views(all_submitted@) =~= before.report.submitted + added);
        let after = DeadTriggerRetryReport {
            drained,
            events_retried: events_retried + 1,
            recovered: recovered + (total - failing),
            still_failed: still_failed + failing,
            submitted: all_submitted,
        };
        RetryRun { groups, report: after }
    }
}

impl<Q: DeadTriggerQueue, T: TraceSink> TriggerRuntime<Q, T> {
    /// Start one retry pass: drain the dead-trigger queue and group the records by event,
    /// so that each failed event is handled once more. Handling uses the same submission
    /// keys as before, so a trigger that succeeded the first time is recognized by the
    /// broker; a trigger that fails again is recorded again.
    pub fn retry_dead_triggers(&mut self) -> (r: Result<RetryRun, RuntimeError>)
        ensures
            final(self).same_setup(old(self)),
            Q::never_fails() ==> r is Ok,
            match r {
                Ok(run) => {
                    &&& run@ == (RetryRunView {
                        groups: grouped(old(self).state().dead),
                        report: empty_report(old(self).state().dead.len() as int),
                    })
                    &&& final(self).state() == (RuntimeState {
                        dead: Seq::empty(),
                        ..old(self).state()
                    })
                },
                Err(error) => {
                    &&& error is Storage
                    &&& old(self).queue().may_refuse(QueueChange::Drain, error->Storage_0@)
                    &&& final(self).state() == old(self).state()
                },
            },
    {
        match self.drain_dead_triggers() {
            Ok(drained) => {
                let count: usize = drained.len();
                assert(views(drained@).len() == count);
                let groups = group_by_event(drained);
                let mut report = DeadTriggerRetryReport::default();
                report.drained = count;
                proof {
                    lemma_grouped_records(views(drained@));
                    assert(views(groups@).take(0) =~= Seq::<GroupView>::empty());
                }
                Ok(RetryRun { groups, report })
            },
            Err(error) => Err(RuntimeError::Storage(error)),
        }
    }
}

// ---------------------------------------------------------------------------------------
// Laws

/// Every drained record is accounted for: when all events of a pass have been handled, the
/// records that recovered and those that failed again are together all that were drained.
pub proof fn law_retry_divides_the_drained_records(run: RetryRunView)
    requires
        counts_match(run),
        run.report.events_retried == run.groups.len(),
    ensures
        run.report.recovered + run.report.still_failed == run.report.drained,
{
    assert(run.groups.take(run.groups.len() as int) =~= run.groups);
}

/// Taking the result of an event keeps the counts right.
pub proof fn law_retry_counts_stay_right(run: RetryRunView, result: ReportView)
    requires
        counts_match(run),
        run.report.events_retried < run.groups.len(),
    ensures
        counts_match(
            RetryRunView {
                groups: run.groups,
                report: with_result(run.report, run.groups[run.report.events_retried], result),
            },
        ),
{
    lemma_group_records_take(run.groups, run.report.events_retried);
}

/// Each failed event is handled once: the groups have distinct events, and every drained
/// record's event and trigger are in one of them.
pub proof fn law_each_event_is_retried_once(records: Seq<DeadTriggerView>)
    ensures
        forall|i: int, j: int|
            0 <= i < j < grouped(records).len() ==> (#[trigger] grouped(records)[i]).event.id != (
            #[trigger] grouped(records)[j]).event.id,
        forall|k: int|
            0 <= k < records.len() ==> exists|i: int|
                0 <= i < grouped(records).len() && (#[trigger] grouped(records)[i]).event.id
                    == (#[trigger] records[k]).event.id && grouped(records)[i].triggers.contains(
                    records[k].trigger_name,
                ),
    decreases records.len(),
{
    if records.len() > 0 {
        let rest = records.drop_last();
        let before = grouped(rest);
        let after = grouped(records);
        let last = records.last();
        let at = group_position(before, last.event.id);
        law_each_event_is_retried_once(rest);
        lemma_group_position(before, last.event.id);
        assert forall|k: int| 0 <= k < records.len() implies exists|i: int|
            0 <= i < after.len() && (#[trigger] after[i]).event.id == (
            #[trigger] records[k]).event.id && after[i].triggers.contains(
                records[k].trigger_name,
            ) by {
            if k == records.len() - 1 {
                let names = after[at].triggers;
                assert(names[names.len() - 1] == last.trigger_name);
                assert(after[at].event.id == records[k].event.id);
            } else {
                assert(rest[k] == records[k]);
                let i = choose|i: int|
                    0 <= i < before.len() && (#[trigger] before[i]).event.id == rest[k].event.id
                        && before[i].triggers.contains(rest[k].trigger_name);
                assert(after[i].event.id == records[k].event.id);
                if i == at {
                    let names = before[i].triggers;
                    let m = choose|m: int|
                        0 <= m < names.len() && names[m] == rest[k].trigger_name;
                    assert(after[i].triggers[m] == rest[k].trigger_name);
                }
            }
        }
    }
}

/// The report of a pass over these groups after these runs, of which each is the handling of
/// one group's event.
pub open spec fn pass_report(groups: Seq<GroupView>, drained: int, runs: Seq<RunView>) ->
    RetryReportView
    decreases runs.len(),
{
    if runs.len() == 0 {
        empty_report(drained)
    } else {
        with_result(
            pass_report(groups, drained, runs.drop_last()),
            groups[runs.len() - 1],
            report_of(runs.last().outcomes),
        )
    }
}

/// Whether a retry pass over drained records went through these stages, with these finished
/// runs in between: each the handling of the event that was next.
pub open spec fn is_pass(
    drained: Seq<DeadTriggerView>,
    stages: Seq<RetryRunView>,
    runs: Seq<RunView>,
) -> bool {
    &&& stages.len() == runs.len() + 1
    &&& stages[0] == (RetryRunView {
        groups: grouped(drained),
        report: empty_report(drained.len() as int),
    })
    &&& runs.len() <= grouped(drained).len()
    &&& forall|i: int|
        0 <= i < runs.len() ==> {
            let at = stages[i].report.events_retried;
            &&& (#[trigger] runs[i]).event == stages[i].groups[at].event
            &&& stages[i + 1] == (RetryRunView {
                groups: stages[i].groups,
                report: with_result(
                    stages[i].report,
                    stages[i].groups[at],
                    report_of(runs[i].outcomes),
                ),
            })
        }
}

/// A retry pass handles the drained events one after the other, and its report is made of
/// the reports of those very runs; at every stage the counts are right.
pub proof fn law_retry_reports_its_own_runs(
    drained: Seq<DeadTriggerView>,
    stages: Seq<RetryRunView>,
    runs: Seq<RunView>,
    at: int,
)
    requires
        is_pass(drained, stages, runs),
        0 <= at <= runs.len(),
    ensures
        stages[at].groups == grouped(drained),
        stages[at].report == pass_report(grouped(drained), drained.len() as int, runs.take(at)),
        stages[at].report.events_retried == at,
        counts_match(stages[at]),
        forall|i: int| 0 <= i < at ==> (#[trigger] runs[i]).event == grouped(drained)[i].event,
    decreases at,
{
    let groups = grouped(drained);
    if at == 0 {
        lemma_grouped_records(drained);
        assert(groups.take(0) =~= Seq::<GroupView>::empty());
    } else {
        law_retry_reports_its_own_runs(drained, stages, runs, at - 1);
        let last = at - 1;
        assert(runs[last].event == stages[last].groups[last].event);
        assert(runs.take(at).drop_last() =~= runs.take(last));
        assert(stages[last + 1].groups == stages[last].groups);
        law_retry_counts_stay_right(stages[last], report_of(runs[last].outcomes));
    }
}

/// A drained record still fails exactly when its trigger is among the failures of its event's
/// new run: a record more, of a trigger that failed again, adds one to what still fails and
/// nothing to what recovered, and the other way round for one that did not.
pub proof fn law_record_still_fails_exactly_when_its_trigger_does(
    report: RetryReportView,
    group: GroupView,
    name: Seq<char>,
    result: ReportView,
)
    ensures
        ({
            let more = GroupView { triggers: group.triggers.push(name), event: group.event };
            let without = with_result(report, group, result);
            let with = with_result(report, more, result);
            &&& (exists|k: int|
                0 <= k < result.failed.len() && (#[trigger] result.failed[k]).trigger_name
                    == name) ==> {
                &&& with.still_failed == without.still_failed + 1
                &&& with.recovered == without.recovered
            }
            &&& (forall|k: int|
                0 <= k < result.failed.len() ==> (#[trigger] result.failed[k]).trigger_name
                    != name) ==> {
                &&& with.recovered == without.recovered + 1
                &&& with.still_failed == without.still_failed
            }
            &&& group.triggers.len() == 0 ==> {
                &&& without.recovered == report.recovered
                &&& without.still_failed == report.still_failed
            }
            &&& without.drained == report.drained
            &&& without.events_retried == report.events_retried + 1
            &&& without.submitted == report.submitted + result.submitted
        }),
{
    assert(group.triggers.push(name).drop_last() =~= group.triggers);
}

/// When every trigger that had failed for an event fails again, nothing of it has recovered;
/// when none does, all of it has. Either way each record counts once.
pub proof fn law_retry_counts_follow_the_new_failures(
    report: RetryReportView,
    group: GroupView,
    result: ReportView,
)
    ensures
        ({
            let after = with_result(report, group, result);
            &&& (after.recovered - report.recovered) + (after.still_failed - report.still_failed)
                == group.triggers.len()
            &&& after.recovered >= report.recovered
            &&& after.still_failed >= report.still_failed
            &&& (forall|i: int|
                0 <= i < group.triggers.len() ==> exists|k: int|
                    0 <= k < result.failed.len() && (#[trigger] result.failed[k]).trigger_name
                        == #[trigger] group.triggers[i]) ==> {
                &&& after.recovered == report.recovered
                &&& after.still_failed == report.still_failed + group.triggers.len()
            }
            &&& (forall|i: int, k: int|
                0 <= i < group.triggers.len() && 0 <= k < result.failed.len() ==> (
                #[trigger] result.failed[k]).trigger_name != #[trigger] group.triggers[i]) ==> {
                &&& after.recovered == report.recovered + group.triggers.len()
                &&& after.still_failed == report.still_failed
            }
        }),
    decreases group.triggers.len(),
{
    if group.triggers.len() > 0 {
        let rest = GroupView { triggers: group.triggers.drop_last(), event: group.event };
        let name = group.triggers.last();
        assert(rest.triggers.push(name) =~= group.triggers);
        law_retry_counts_follow_the_new_failures(report, rest, result);
        law_record_still_fails_exactly_when_its_trigger_does(report, rest, name, result);
        assert(group.triggers[group.triggers.len() - 1] == name);
        if forall|i: int|
            0 <= i < group.triggers.len() ==> exists|k: int|
                0 <= k < result.failed.len() && (#[trigger] result.failed[k]).trigger_name
                    == #[trigger] group.triggers[i] {
            assert forall|i: int| 0 <= i < rest.triggers.len() implies exists|k: int|
                0 <= k < result.failed.len() && (#[trigger] result.failed[k]).trigger_name
                    == #[trigger] rest.triggers[i] by {
                assert(group.triggers[i] == rest.triggers[i]);
            }
        }
        if forall|i: int, k: int|
            0 <= i < group.triggers.len() && 0 <= k < result.failed.len() ==> (
            #[trigger] result.failed[k]).trigger_name != #[trigger] group.triggers[i] {
            assert forall|i: int, k: int|
                0 <= i < rest.triggers.len() && 0 <= k < result.failed.len() implies (
            #[trigger] result.failed[k]).trigger_name != #[trigger] rest.triggers[i] by {
                assert(group.triggers[i] == rest.triggers[i]);
            }
        }
    }
}

/// A group holds what was recorded of its event: the triggers of all its records, in the
/// order of the records and each as often as it was recorded, and the event as the last of
/// them has it.
pub proof fn law_group_holds_the_records_of_its_event(records: Seq<DeadTriggerView>, i: int)
    requires
        0 <= i < grouped(records).len(),
    ensures
        ({
            let group = grouped(records)[i];
            let own = records.filter(
                |record: DeadTriggerView| record.event.id == group.event.id,
            );
            &&& own.len() > 0
            &&& group.event == own.last().event
            &&& group.triggers == own.map_values(|record: DeadTriggerView| record.trigger_name)
        }),
    decreases records.len(),
{
    let rest = records.drop_last();
    let last = records.last();
    let before = grouped(rest);
    let group = grouped(records)[i];
    let id = group.event.id;
    let of_event = |record: DeadTriggerView| record.event.id == id;
    lemma_group_position(before, last.event.id);
    let at = group_position(before, last.event.id);
    assert(rest.push(last) =~= records);
    crate::model::lemma_filter_push(rest, last, of_event);
    let earlier = rest.filter(of_event);
    if i < before.len() {
        law_group_holds_the_records_of_its_event(rest, i);
        assert(before[i].event.id == id);
        assert((|record: DeadTriggerView| record.event.id == before[i].event.id) =~= of_event);
        law_each_event_is_retried_once(rest);
        if i == at {
            assert(earlier.push(last).map_values(|record: DeadTriggerView| record.trigger_name)
                =~= earlier.map_values(
                |record: DeadTriggerView| record.trigger_name,
            ).push(last.trigger_name));
        } else {
            if id == last.event.id {
                assert(before[i].event.id == last.event.id);
                if at < before.len() {
                    assert(before[at].event.id == last.event.id);
                } else {
                    assert(before[i].event.id != last.event.id);
                }
            }
        }
    } else {
        law_each_event_is_retried_once(rest);
        assert(id == last.event.id);
        assert forall|k: int| 0 <= k < rest.len() implies !of_event(#[trigger] rest[k]) by {
            let j = choose|j: int|
                0 <= j < before.len() && (#[trigger] before[j]).event.id == rest[k].event.id
                    && before[j].triggers.contains(rest[k].trigger_name);
            assert(before[j].event.id != last.event.id);
        }
        rest.lemma_all_neg_filter_empty(of_event);
        assert(earlier =~= Seq::<DeadTriggerView>::empty());
        assert(earlier.push(last).map_values(|record: DeadTriggerView| record.trigger_name)
            =~= seq![last.trigger_name]);
    }
}

/// Events are retried in the order in which they first failed: one record more leaves every
/// group in its place, and opens a new one, at the end, exactly when its event is new.
pub proof fn law_groups_stand_in_order_of_first_failure(
    records: Seq<DeadTriggerView>,
    record: DeadTriggerView,
)
    ensures
        ({
            let before = grouped(records);
            let after = grouped(records.push(record));
            let known = exists|k: int|
                0 <= k < records.len() && (#[trigger] records[k]).event.id == record.event.id;
            &&& forall|i: int|
                0 <= i < before.len() ==> (#[trigger] after[i]).event.id == before[i].event.id
            &&& known ==> after.len() == before.len()
            &&& !known ==> after.len() == before.len() + 1 && after.last().event == record.event
                && after.last().triggers == seq![record.trigger_name]
        }),
        grouped(Seq::empty()).len() == 0,
{
    let before = grouped(records);
    assert(records.push(record).drop_last() =~= records);
    lemma_group_position(before, record.event.id);
    law_each_event_is_retried_once(records);
    let at = group_position(before, record.event.id);
    if at < before.len() {
        law_group_holds_the_records_of_its_event(records, at);
        let own = |other: DeadTriggerView| other.event.id == before[at].event.id;
        let found = records.filter(own).last();
        assert(records.filter(own).contains(found));
        records.lemma_filter_contains_rev(own, found);
        broadcast use Seq::lemma_filter_pred;
        assert(own(records.filter(own)[records.filter(own).len() - 1]));
        let k = choose|k: int| 0 <= k < records.len() && records[k] == found;
        assert(records[k].event.id == record.event.id);
    } else {
        assert forall|k: int| 0 <= k < records.len() implies (#[trigger] records[k]).event.id
            != record.event.id by {
            let j = choose|j: int|
                0 <= j < before.len() && (#[trigger] before[j]).event.id == records[k].event.id
                    && before[j].triggers.contains(records[k].trigger_name);
            assert(before[j].event.id != record.event.id);
        }
    }
}

/// A pass starts with the drained records counted and nothing else; each run after that is
/// counted for its own group.
pub proof fn law_pass_counts_run_by_run(
    groups: Seq<GroupView>,
    drained: int,
    runs: Seq<RunView>,
    run: RunView,
)
    ensures
        ({
            let start = pass_report(groups, drained, Seq::empty());
            &&& start.drained == drained
            &&& start.events_retried == 0
            &&& start.recovered == 0
            &&& start.still_failed == 0
            &&& start.submitted.len() == 0
        }),
        pass_report(groups, drained, runs.push(run)) == with_result(
            pass_report(groups, drained, runs),
            groups[runs.len() as int],
            report_of(run.outcomes),
        ),
{
    assert(runs.push(run).drop_last() =~= runs);
}

/// Taking the finished handling of an event counts every drained record of that event by its
/// trigger: when all of them are among the triggers that failed in the run, nothing has
/// recovered; when none is, nothing still fails; and each record counts once.
pub proof fn law_handled_event_is_counted_by_its_failures(
    pending: PendingRetry,
    finished: FinishedRun,
    run: RetryRun,
)
    requires
        call_ensures(PendingRetry::handled, (pending, finished), run),
    ensures
        ({
            let before = pending@.report;
            let after = run@.report;
            let triggers = pending@.groups[before.events_retried].triggers;
            let outcomes = finished@.outcomes;
            &&& (after.recovered - before.recovered) + (after.still_failed - before.still_failed)
                == triggers.len()
            &&& (forall|i: int|
                0 <= i < triggers.len() ==> exists|k: int|
                    0 <= k < outcomes.len() && (#[trigger] outcomes[k]) is Failed
                        && outcomes[k]->Failed_0.trigger_name == #[trigger] triggers[i])
                ==> after.recovered == before.recovered
            &&& (forall|i: int, k: int|
                0 <= i < triggers.len() && 0 <= k < outcomes.len() && (
                #[trigger] outcomes[k]) is Failed ==> outcomes[k]->Failed_0.trigger_name
                    != #[trigger] triggers[i]) ==> after.still_failed == before.still_failed
            &&& after.drained == before.drained
            &&& after.events_retried == before.events_retried + 1
        }),
{
    let before = pending@.report;
    let group = pending@.groups[before.events_retried];
    let outcomes = finished@.outcomes;
    let result = report_of(outcomes);
    law_retry_counts_follow_the_new_failures(before, group, result);
    lemma_failures_are_failed_outcomes(outcomes);
    if forall|i: int|
        0 <= i < group.triggers.len() ==> exists|k: int|
            0 <= k < outcomes.len() && (#[trigger] outcomes[k]) is Failed
                && outcomes[k]->Failed_0.trigger_name == #[trigger] group.triggers[i] {
        assert forall|i: int| 0 <= i < group.triggers.len() implies exists|k: int|
            0 <= k < result.failed.len() && (#[trigger] result.failed[k]).trigger_name
                == #[trigger] group.triggers[i] by {
            let k = choose|k: int|
                0 <= k < outcomes.len() && (#[trigger] outcomes[k]) is Failed
                    && outcomes[k]->Failed_0.trigger_name == group.triggers[i];
            assert(result.failed.contains(outcomes[k]->Failed_0));
            let j = choose|j: int|
                0 <= j < result.failed.len() && result.failed[j] == outcomes[k]->Failed_0;
            assert(result.failed[j].trigger_name == group.triggers[i]);
        }
    }
    if forall|i: int, k: int|
        0 <= i < group.triggers.len() && 0 <= k < outcomes.len() && (
        #[trigger] outcomes[k]) is Failed ==> outcomes[k]->Failed_0.trigger_name
            != #[trigger] group.triggers[i] {
        assert forall|i: int, k: int|
            0 <= i < group.triggers.len() && 0 <= k < result.failed.len() implies (
        #[trigger] result.failed[k]).trigger_name != #[trigger] group.triggers[i] by {
            let j = choose|j: int|
                0 <= j < outcomes.len() && #[trigger] outcomes[j] == OutcomeView::Failed(
                    result.failed[k],
                );
            assert(outcomes[j] is Failed);
        }
    }
}

proof fn lemma_failures_are_failed_outcomes(outcomes: Seq<OutcomeView>)
    ensures
        forall|k: int|
            0 <= k < report_of(outcomes).failed.len() ==> exists|j: int|
                0 <= j < outcomes.len() && #[trigger] outcomes[j] == OutcomeView::Failed(
                    #[trigger] report_of(outcomes).failed[k],
                ),
        forall|j: int|
            0 <= j < outcomes.len() && (#[trigger] outcomes[j]) is Failed ==> report_of(
                outcomes,
            ).failed.contains(outcomes[j]->Failed_0),
    decreases outcomes.len(),
{
    if outcomes.len() > 0 {
        let rest = outcomes.drop_last();
        let last = outcomes.last();
        lemma_failures_are_failed_outcomes(rest);
        assert(rest.push(last) =~= outcomes);
        crate::runtime::law_report_follows_the_outcomes(rest, last);
        let failed = report_of(outcomes).failed;
        let before = report_of(rest).failed;
        assert forall|k: int| 0 <= k < failed.len() implies exists|j: int|
            0 <= j < outcomes.len() && #[trigger] outcomes[j] == OutcomeView::Failed(
                #[trigger] failed[k],
            ) by {
            if k < before.len() {
                assert(failed[k] == before[k]);
                let j = choose|j: int|
                    0 <= j < rest.len() && #[trigger] rest[j] == OutcomeView::Failed(before[k]);
                assert(outcomes[j] == OutcomeView::Failed(failed[k]));
            } else {
                assert(outcomes[outcomes.len() - 1] == OutcomeView::Failed(failed[k]));
            }
        }
        assert forall|j: int|
            0 <= j < outcomes.len() && (#[trigger] outcomes[j]) is Failed implies failed.contains(
            outcomes[j]->Failed_0,
        ) by {
            if j < rest.len() {
                assert(rest[j] == outcomes[j]);
                assert(before.contains(rest[j]->Failed_0));
                let k = choose|k: int| 0 <= k < before.len() && before[k] == rest[j]->Failed_0;
                assert(failed[k] == before[k]);
            } else {
                assert(failed[failed.len() - 1] == last->Failed_0);
            }
        }
    }
}

/// A retry pass takes every record out of the queue, counts them all, and has handled none of
/// them yet; with the queue unable to give them out, it leaves them there.
pub proof fn law_pass_drains_the_queue<Q: DeadTriggerQueue, T: TraceSink>(
    runtime: &mut TriggerRuntime<Q, T>,
    result: Result<RetryRun, RuntimeError>,
)
    requires
        call_ensures(TriggerRuntime::<Q, T>::retry_dead_triggers, (runtime,), result),
    ensures
        result matches Ok(run) ==> {
            &&& final(runtime).state().dead.len() == 0
            &&& run@.report.drained == old(runtime).state().dead.len()
            &&& run@.report.events_retried == 0
            &&& run@.report.recovered == 0
            &&& run@.report.still_failed == 0
            &&& run@.report.submitted.len() == 0
            &&& run@.groups == grouped(old(runtime).state().dead)
        },
        result is Err ==> final(runtime).state() == old(runtime).state(),
        final(runtime).state().traces == old(runtime).state().traces,
        final(runtime).state().lanes == old(runtime).state().lanes,
{
}

} // verus!
