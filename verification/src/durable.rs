//! What the files of a durable store hold after any series of changes.
//!
//! An event store keeps two files: one of events and, beside it, one of delivered ids. A
//! dead-trigger queue keeps one. Each file is a list of records, one per line. This module
//! says how every change is written, and that opening the files gives back what the store
//! held.

use crate::event::{EventEnvelope, EventId, EventView};
use crate::jsonl::{
    bad_line_text, closed_length, complete_tail, content_of, encoded_all, first_failure, frame,
    frame_all, framed, framed_all, is_record_text, last_is_open,
    law_acknowledged_records_survive_a_torn_append, law_appended_record_is_read_back,
    law_mended_file_holds_what_was_recovered, law_written_records_are_read_back, mend, mended,
    mended_for, parsed_values, recover, recovered, reopened, stores, tail_kept, ContentView, Mend,
    StoredContent,
};
use crate::model::views;
use crate::retention::{
    pruned, retained_events, retained_records, ManualRetention, RetentionView,
};
use crate::storage::{
    damage, delivered_after_sweep, delivered_among, undelivered_events, Compaction,
    DeadTriggerQueue, DeadTriggerRecord, DeadTriggerView, EventJournal, InMemoryDeadTriggerQueue,
    QueueChange, StorageError, StoreChange,
};
use crate::time::TimestampView;
use vstd::prelude::*;
use vstd::utf8::encode_utf8;

verus! {

/// How records are written as lines and read from them.
#[verifier::reject_recursive_types(R)]
pub struct Codec<R> {
    pub encode: spec_fn(R) -> Seq<char>,
    pub decode: spec_fn(Seq<char>) -> Result<R, Seq<char>>,
    /// The records that can be written.
    pub writable: spec_fn(R) -> bool,
}

/// Whether records that can be written are read back from their lines, and what is read
/// can be written again.
pub open spec fn reads_back<R>(codec: Codec<R>) -> bool {
    &&& forall|record: R| #[trigger]
        (codec.writable)(record) ==> is_record_text((codec.encode)(record)) && (codec.decode)(
            (codec.encode)(record),
        ) == Ok::<R, Seq<char>>(record)
    &&& forall|line: Seq<char>| #[trigger]
        (codec.decode)(line) is Ok ==> (codec.writable)((codec.decode)(line)->Ok_0)
}

/// The line of a record as it is appended.
pub open spec fn line_of<R>(record: R, codec: Codec<R>) -> Seq<u8> {
    framed(encode_utf8((codec.encode)(record)))
}

/// A file that holds exactly these records, as it is written as a whole.
pub open spec fn file_of<R>(records: Seq<R>, codec: Codec<R>) -> Seq<u8> {
    framed_all(encoded_all(Seq::new(records.len(), |i: int| (codec.encode)(records[i]))))
}

/// Whether a file opens with these records.
pub open spec fn opens<R>(bytes: Seq<u8>, records: Seq<R>, codec: Codec<R>) -> bool {
    reopened(bytes, codec.decode) == Some(Ok::<Seq<R>, int>(records))
}

/// Whether a file holds these records and can be appended to.
pub open spec fn keeps<R>(bytes: Seq<u8>, records: Seq<R>, codec: Codec<R>) -> bool {
    &&& stores(bytes, records, codec.decode)
    &&& forall|i: int| 0 <= i < records.len() ==> (codec.writable)(#[trigger] records[i])
}

/// The files of an event store.
pub struct DiskView {
    pub events: Seq<u8>,
    pub marks: Seq<u8>,
}

/// What an event store holds.
pub struct StoreView {
    pub log: Seq<EventView>,
    pub delivered: Set<u128>,
}

/// How events and ids are written.
pub struct Codecs {
    pub events: Codec<EventView>,
    pub ids: Codec<u128>,
}

/// Whether files that are opened give this store.
pub open spec fn opens_as(disk: DiskView, store: StoreView, codecs: Codecs) -> bool {
    &&& opens(disk.events, store.log, codecs.events)
    &&& exists|ids: Seq<u128>| #[trigger]
        opens(disk.marks, ids, codecs.ids) && ids.to_set() == store.delivered
}

/// Files after they were opened and mended.
pub open spec fn mended_disk(disk: DiskView, codecs: Codecs) -> DiskView {
    DiskView {
        events: mended_for(
            disk.events,
            reopened(disk.events, codecs.events.decode)->0->Ok_0.len() as int,
        ),
        marks: mended_for(
            disk.marks,
            reopened(disk.marks, codecs.ids.decode)->0->Ok_0.len() as int,
        ),
    }
}

/// What a store holds after a change.
pub open spec fn changed(store: StoreView, change: StoreChange) -> StoreView {
    match change {
        StoreChange::Append(event) => StoreView { log: store.log.push(event), ..store },
        StoreChange::Mark(id) => StoreView { delivered: store.delivered.insert(id), ..store },
        StoreChange::Prune(policy) => StoreView {
            log: pruned::<EventEnvelope>(store.log, policy),
            ..store
        },
        StoreChange::Sweep(policy, now, sizes) => {
            let kept = retained_events(store.log, sizes, store.delivered, policy, now);
            StoreView {
                log: kept,
                delivered: delivered_after_sweep(store.delivered, store.log, kept),
            }
        },
    }
}

/// Whether a change of a store is written to its files in this way: an event and a new mark
/// are appended, and what pruning or a sweep leaves is written as a whole, when it removes
/// something. A sweep writes the marks of the events that it leaves, in some order.
pub open spec fn written(
    before: DiskView,
    store: StoreView,
    change: StoreChange,
    after: DiskView,
    codecs: Codecs,
) -> bool {
    let kept = changed(store, change).log;
    match change {
        StoreChange::Append(event) => {
            &&& (codecs.events.writable)(event)
            &&& after.events == before.events + line_of(event, codecs.events)
            &&& after.marks == before.marks
        },
        StoreChange::Mark(id) => {
            &&& (codecs.ids.writable)(id)
            &&& after.events == before.events
            &&& after.marks == if store.delivered.contains(id) {
                before.marks
            } else {
                before.marks + line_of(id, codecs.ids)
            }
        },
        StoreChange::Prune(_) => {
            &&& after.events == if kept.len() < store.log.len() {
                file_of(kept, codecs.events)
            } else {
                before.events
            }
            &&& after.marks == before.marks
        },
        StoreChange::Sweep(_, _, _) => if kept.len() < store.log.len() {
            &&& after.events == file_of(kept, codecs.events)
            &&& exists|ids: Seq<u128>| #[trigger]
                file_of(ids, codecs.ids) == after.marks && ids.to_set() == delivered_among(
                    store.delivered,
                    kept,
                )
        } else {
            after == before
        },
    }
}

/// A moment in the life of a store: its files and what it holds.
pub struct StoreMoment {
    pub disk: DiskView,
    pub store: StoreView,
}

/// Whether a store was opened from files as they were found and then changed step by step,
/// each change written before the next.
pub open spec fn is_history(
    found: DiskView,
    moments: Seq<StoreMoment>,
    changes: Seq<StoreChange>,
    codecs: Codecs,
) -> bool {
    &&& moments.len() == changes.len() + 1
    &&& opens_as(found, moments[0].store, codecs)
    &&& moments[0].disk == mended_disk(found, codecs)
    &&& forall|i: int|
        0 <= i < changes.len() ==> {
            &&& written(
                (#[trigger] moments[i]).disk,
                moments[i].store,
                changes[i],
                moments[i + 1].disk,
                codecs,
            )
            &&& moments[i + 1].store == changed(moments[i].store, changes[i])
        }
}

/// Files that are not there yet open as an empty store.
pub proof fn law_new_files_open_as_an_empty_store(codecs: Codecs)
    ensures
        opens_as(
            DiskView { events: Seq::empty(), marks: Seq::empty() },
            StoreView { log: Seq::empty(), delivered: Set::empty() },
            codecs,
        ),
{
    lemma_empty_file(codecs.events);
    lemma_empty_file(codecs.ids);
    let disk = DiskView { events: Seq::empty(), marks: Seq::empty() };
    let store = StoreView { log: Seq::empty(), delivered: Set::empty() };
    let ids = Seq::<u128>::empty();
    assert(ids.to_set() =~= Set::<u128>::empty());
    assert(opens(disk.events, store.log, codecs.events));
    assert(opens(disk.marks, ids, codecs.ids) && ids.to_set() == store.delivered);
}

/// A reopened store is the store that was left. Whatever the files held when they were first
/// opened, and after any series of appends, marks, prunes and sweeps, opening them again
/// gives the same events in the same order and the same delivered ids, and so the same
/// events in flight.
pub proof fn law_reopened_store_is_the_same(
    found: DiskView,
    moments: Seq<StoreMoment>,
    changes: Seq<StoreChange>,
    codecs: Codecs,
    at: int,
)
    requires
        reads_back(codecs.events),
        reads_back(codecs.ids),
        is_history(found, moments, changes, codecs),
        0 <= at < moments.len(),
    ensures
        opens_as(moments[at].disk, moments[at].store, codecs),
        forall|again: StoreView| #[trigger]
            opens_as(moments[at].disk, again, codecs) ==> {
                &&& again.log == moments[at].store.log
                &&& undelivered_events(again.log, again.delivered) == undelivered_events(
                    moments[at].store.log,
                    moments[at].store.delivered,
                )
            },
{
    lemma_history_keeps(found, moments, changes, codecs, at);
}

/// A crash in the middle of a write costs a store nothing that it had acknowledged: with any
/// part of a line at the end of one of its files, it opens with the events and ids from
/// before, and with what that line holds if it is complete but for its newline.
pub proof fn law_store_survives_a_torn_write(
    disk: DiskView,
    store: StoreView,
    ids: Seq<u128>,
    tail: Seq<u8>,
    codecs: Codecs,
)
    requires
        keeps(disk.events, store.log, codecs.events),
        keeps(disk.marks, ids, codecs.ids),
        ids.to_set() == store.delivered,
        !tail.contains(10),
    ensures
        opens_as(
            DiskView { events: disk.events + tail, ..disk },
            StoreView {
                log: match complete_tail(tail, codecs.events.decode) {
                    Some(event) => store.log.push(event),
                    None => store.log,
                },
                ..store
            },
            codecs,
        ),
        opens_as(
            DiskView { marks: disk.marks + tail, ..disk },
            StoreView {
                delivered: match complete_tail(tail, codecs.ids.decode) {
                    Some(id) => store.delivered.insert(id),
                    None => store.delivered,
                },
                ..store
            },
            codecs,
        ),
{
    law_acknowledged_records_survive_a_torn_append(
        disk.events,
        store.log,
        tail,
        codecs.events.decode,
    );
    law_acknowledged_records_survive_a_torn_append(disk.marks, ids, tail, codecs.ids.decode);
    let torn_events = DiskView { events: disk.events + tail, ..disk };
    let with_event = StoreView {
        log: match complete_tail(tail, codecs.events.decode) {
            Some(event) => store.log.push(event),
            None => store.log,
        },
        ..store
    };
    assert(opens(torn_events.events, with_event.log, codecs.events));
    assert(opens(torn_events.marks, ids, codecs.ids) && ids.to_set() == with_event.delivered);
    let torn_marks = DiskView { marks: disk.marks + tail, ..disk };
    let with_mark = StoreView {
        delivered: match complete_tail(tail, codecs.ids.decode) {
            Some(id) => store.delivered.insert(id),
            None => store.delivered,
        },
        ..store
    };
    let marked = match complete_tail(tail, codecs.ids.decode) {
        Some(id) => ids.push(id),
        None => ids,
    };
    if let Some(id) = complete_tail(tail, codecs.ids.decode) {
        lemma_set_push(ids, id);
    }
    assert(opens(torn_marks.events, with_mark.log, codecs.events));
    assert(opens(torn_marks.marks, marked, codecs.ids) && marked.to_set() == with_mark.delivered);
}

/// What a dead-trigger queue holds after a change.
pub open spec fn queue_changed(records: Seq<DeadTriggerView>, change: QueueChange) -> Seq<
    DeadTriggerView,
> {
    match change {
        QueueChange::Record(record) => records.push(record),
        QueueChange::Drain => Seq::empty(),
        QueueChange::Prune(policy) => pruned::<DeadTriggerRecord>(records, policy),
        QueueChange::Sweep(policy, now, sizes) => retained_records::<DeadTriggerRecord>(
            records,
            sizes,
            policy,
            now,
        ),
    }
}

/// Whether a change of a queue is written to its file in this way: a record is appended,
/// draining empties the file, and what pruning or a sweep leaves is written as a whole, when
/// it removes something.
pub open spec fn queue_written(
    before: Seq<u8>,
    records: Seq<DeadTriggerView>,
    change: QueueChange,
    after: Seq<u8>,
    codec: Codec<DeadTriggerView>,
) -> bool {
    let kept = queue_changed(records, change);
    match change {
        QueueChange::Record(record) => {
            &&& (codec.writable)(record)
            &&& after == before + line_of(record, codec)
        },
        QueueChange::Drain => after.len() == 0,
        _ => after == if kept.len() < records.len() {
            file_of(kept, codec)
        } else {
            before
        },
    }
}

/// A moment in the life of a dead-trigger queue: its file and its records.
pub struct QueueMoment {
    pub file: Seq<u8>,
    pub records: Seq<DeadTriggerView>,
}

/// Whether a queue was opened from a file as it was found and then changed step by step.
pub open spec fn is_queue_history(
    found: Seq<u8>,
    moments: Seq<QueueMoment>,
    changes: Seq<QueueChange>,
    codec: Codec<DeadTriggerView>,
) -> bool {
    &&& moments.len() == changes.len() + 1
    &&& opens(found, moments[0].records, codec)
    &&& moments[0].file == mended_for(found, moments[0].records.len() as int)
    &&& forall|i: int|
        0 <= i < changes.len() ==> {
            &&& queue_written(
                (#[trigger] moments[i]).file,
                moments[i].records,
                changes[i],
                moments[i + 1].file,
                codec,
            )
            &&& moments[i + 1].records == queue_changed(moments[i].records, changes[i])
        }
}

/// Dead triggers survive a restart: after any series of records, drains, prunes and sweeps,
/// opening the queue's file again gives the records that the queue held.
pub proof fn law_reopened_queue_is_the_same(
    found: Seq<u8>,
    moments: Seq<QueueMoment>,
    changes: Seq<QueueChange>,
    codec: Codec<DeadTriggerView>,
    at: int,
)
    requires
        reads_back(codec),
        is_queue_history(found, moments, changes, codec),
        0 <= at < moments.len(),
    ensures
        opens(moments[at].file, moments[at].records, codec),
{
    lemma_queue_history_keeps(found, moments, changes, codec, at);
}

// ---------------------------------------------------------------------------------------
// Steps

/// What to do to a file for a change to last.
pub enum FileWrite {
    /// Leave it.
    Nothing,
    /// Append these bytes in one write.
    Append(Vec<u8>),
    /// Put these bytes in its place, in one step.
    Replace(Vec<u8>),
    /// Empty it.
    Clear,
}

/// The values of a [`FileWrite`].
pub enum WriteView {
    Nothing,
    Append(Seq<u8>),
    Replace(Seq<u8>),
    Clear,
}

impl View for FileWrite {
    type V = WriteView;

    open spec fn view(&self) -> WriteView {
        match self {
            FileWrite::Nothing => WriteView::Nothing,
            FileWrite::Append(bytes) => WriteView::Append(bytes@),
            FileWrite::Replace(bytes) => WriteView::Replace(bytes@),
            FileWrite::Clear => WriteView::Clear,
        }
    }
}

/// A file after a write.
pub open spec fn applied(bytes: Seq<u8>, write: WriteView) -> Seq<u8> {
    match write {
        WriteView::Nothing => bytes,
        WriteView::Append(more) => bytes + more,
        WriteView::Replace(other) => other,
        WriteView::Clear => Seq::empty(),
    }
}

/// What to do to the files of an event store: first to the events, then to the marks.
pub struct StoreWrites {
    pub events: FileWrite,
    pub marks: FileWrite,
}

/// The files of an event store after the writes.
pub open spec fn disk_after(disk: DiskView, writes: StoreWrites) -> DiskView {
    DiskView {
        events: applied(disk.events, writes.events@),
        marks: applied(disk.marks, writes.marks@),
    }
}

/// Whether these bytes are the encoding of a record that can be written.
pub open spec fn encodes<R>(codec: Codec<R>, record: R, encoded: Seq<u8>) -> bool {
    (codec.writable)(record) && encoded == encode_utf8((codec.encode)(record))
}

/// Whether these are the encodings of the records, in their order.
pub open spec fn encodes_all<R>(
    codec: Codec<R>,
    records: Seq<R>,
    encoded: Seq<Seq<u8>>,
) -> bool {
    encoded == encoded_all(Seq::new(records.len(), |i: int| (codec.encode)(records[i])))
}

impl EventJournal {
    /// What this journal holds.
    pub open spec fn held(&self) -> StoreView {
        StoreView { log: self.log(), delivered: self.delivered() }
    }

    /// What to write for an event to be appended, given its encoding. The journal takes the
    /// event afterwards.
    pub fn append_writes(&self, encoded: Vec<u8>) -> (r: StoreWrites)
        ensures
            r.events@ == WriteView::Append(framed(encoded@)),
            r.marks@ == WriteView::Nothing,
            forall|event: EventView, disk: DiskView, codecs: Codecs|
                encodes(codecs.events, event, encoded@) ==> #[trigger] written(
                    disk,
                    self.held(),
                    StoreChange::Append(event),
                    disk_after(disk, r),
                    codecs,
                ),
    {
        StoreWrites { events: FileWrite::Append(frame(encoded)), marks: FileWrite::Nothing }
    }

    /// What to write for an event to be marked delivered, given the encoding of its id:
    /// nothing when it is marked already.
    pub fn mark_writes(&self, id: EventId, encoded: Vec<u8>) -> (r: StoreWrites)
        ensures
            r.events@ == WriteView::Nothing,
            r.marks@ == if self.delivered().contains(id@) {
                WriteView::Nothing
            } else {
                WriteView::Append(framed(encoded@))
            },
            forall|disk: DiskView, codecs: Codecs|
                encodes(codecs.ids, id@, encoded@) ==> #[trigger] written(
                    disk,
                    self.held(),
                    StoreChange::Mark(id@),
                    disk_after(disk, r),
                    codecs,
                ),
    {
        let marks = if self.is_delivered(id) {
            FileWrite::Nothing
        } else {
            FileWrite::Append(frame(encoded))
        };
        StoreWrites { events: FileWrite::Nothing, marks }
    }

    /// What to write when pruning leaves fewer events, given their encodings.
    pub fn prune_writes(&self, encoded: &Vec<Vec<u8>>) -> (r: StoreWrites)
        ensures
            r.events@ == WriteView::Replace(framed_all(views(encoded@))),
            r.marks@ == WriteView::Nothing,
            forall|policy: ManualRetention, disk: DiskView, codecs: Codecs|
                ({
                    let kept = pruned::<EventEnvelope>(self.log(), policy);
                    kept.len() < self.log().len() && encodes_all(
                        codecs.events,
                        kept,
                        views(encoded@),
                    )
                }) ==> #[trigger] written(
                    disk,
                    self.held(),
                    StoreChange::Prune(policy),
                    disk_after(disk, r),
                    codecs,
                ),
    {
        StoreWrites { events: FileWrite::Replace(frame_all(encoded)), marks: FileWrite::Nothing }
    }

    /// What to write for a sweep that leaves `plan`, given the encodings of its events and
    /// of its delivered ids.
    pub fn sweep_writes(
        &self,
        plan: &Compaction,
        encoded: &Vec<Vec<u8>>,
        encoded_ids: &Vec<Vec<u8>>,
    ) -> (r: StoreWrites)
        ensures
            r.events@ == WriteView::Replace(framed_all(views(encoded@))),
            r.marks@ == WriteView::Replace(framed_all(views(encoded_ids@))),
            forall|
                policy: RetentionView,
                now: TimestampView,
                sizes: Seq<u64>,
                disk: DiskView,
                codecs: Codecs,
            |
                ({
                    let kept = retained_events(
                        self.log(),
                        sizes,
                        self.delivered(),
                        policy,
                        now,
                    );
                    &&& views(plan.events@) == kept
                    &&& kept.len() < self.log().len()
                    &&& views(plan.delivered@).to_set() == delivered_among(self.delivered(), kept)
                    &&& encodes_all(codecs.events, kept, views(encoded@))
                    &&& encodes_all(codecs.ids, views(plan.delivered@), views(encoded_ids@))
                }) ==> #[trigger] written(
                    disk,
                    self.held(),
                    StoreChange::Sweep(policy, now, sizes),
                    disk_after(disk, r),
                    codecs,
                ),
    {
        let r = StoreWrites {
            events: FileWrite::Replace(frame_all(encoded)),
            marks: FileWrite::Replace(frame_all(encoded_ids)),
        };
        assert forall|
            policy: RetentionView,
            now: TimestampView,
            sizes: Seq<u64>,
            disk: DiskView,
            codecs: Codecs,
        |
            ({
                let kept = retained_events(self.log(), sizes, self.delivered(), policy, now);
                &&& views(plan.events@) == kept
                &&& kept.len() < self.log().len()
                &&& views(plan.delivered@).to_set() == delivered_among(self.delivered(), kept)
                &&& encodes_all(codecs.events, kept, views(encoded@))
                &&& encodes_all(codecs.ids, views(plan.delivered@), views(encoded_ids@))
            }) implies #[trigger] written(
            disk,
            self.held(),
            StoreChange::Sweep(policy, now, sizes),
            disk_after(disk, r),
            codecs,
        ) by {
            let ids = views(plan.delivered@);
            assert(file_of(ids, codecs.ids) == disk_after(disk, r).marks);
        }
        r
    }
}

impl InMemoryDeadTriggerQueue {
    /// What to write for a failure to be recorded, given the record's encoding.
    pub fn record_write(&self, encoded: Vec<u8>) -> (r: FileWrite)
        ensures
            r@ == WriteView::Append(framed(encoded@)),
            forall|record: DeadTriggerView, file: Seq<u8>, codec: Codec<DeadTriggerView>|
                encodes(codec, record, encoded@) ==> #[trigger] queue_written(
                    file,
                    self.records(),
                    QueueChange::Record(record),
                    applied(file, r@),
                    codec,
                ),
    {
        FileWrite::Append(frame(encoded))
    }

    /// What to write for the queue to be drained.
    pub fn drain_write(&self) -> (r: FileWrite)
        ensures
            r@ == WriteView::Clear,
            forall|file: Seq<u8>, codec: Codec<DeadTriggerView>| #[trigger]
                queue_written(
                    file,
                    self.records(),
                    QueueChange::Drain,
                    applied(file, r@),
                    codec,
                ),
    {
        FileWrite::Clear
    }

    /// What to write when pruning or a sweep leaves fewer records, given their encodings.
    pub fn kept_write(&self, encoded: &Vec<Vec<u8>>) -> (r: FileWrite)
        ensures
            r@ == WriteView::Replace(framed_all(views(encoded@))),
            forall|change: QueueChange, file: Seq<u8>, codec: Codec<DeadTriggerView>|
                ({
                    let kept = queue_changed(self.records(), change);
                    &&& change is Prune || change is Sweep
                    &&& kept.len() < self.records().len()
                    &&& encodes_all(codec, kept, views(encoded@))
                }) ==> #[trigger] queue_written(
                    file,
                    self.records(),
                    change,
                    applied(file, r@),
                    codec,
                ),
    {
        FileWrite::Replace(frame_all(encoded))
    }
}

/// The records of a file that was opened, and how to mend it before anything is appended.
pub struct Opened<T> {
    pub records: Vec<T>,
    pub mend: Mend,
}

/// The values of what parsing a line gave.
pub open spec fn parsed_view<T: View>(parsed: Result<T, String>) -> Result<T::V, Seq<char>> {
    match parsed {
        Ok(record) => Ok(record@),
        Err(error) => Err(error@),
    }
}

/// Whether these are the results of parsing the lines of a file with a codec.
pub open spec fn parses<T: View>(
    codec: Codec<T::V>,
    bytes: Seq<u8>,
    content: ContentView,
    parsed: Seq<Result<T, String>>,
) -> bool {
    &&& content_of(bytes) == Some(content)
    &&& parsed.len() == content.lines.len()
    &&& forall|i: int|
        0 <= i < parsed.len() ==> parsed_view(#[trigger] parsed[i]) == (codec.decode)(
            content.lines[i].text,
        )
}

/// Open a store's file, given its bytes, the lines that they hold, and what parsing each of
/// the lines gave.
pub fn open_file<T: View>(
    path: &str,
    bytes: &[u8],
    content: &StoredContent,
    parsed: Vec<Result<T, String>>,
) -> (r: Result<Opened<T>, StorageError>)
    requires
        parsed@.len() == content.lines@.len(),
    ensures
        match recovered(parsed@, last_is_open(content@)) {
            Ok(records) => r is Ok && r->Ok_0.records@ == records,
            Err(at) => r is Err && r->Err_0@ == damage(
                bad_line_text(path@, content@.lines[at].number, parsed@[at]->Err_0@),
            ),
        },
        r matches Ok(opened) ==> bytes@.take(opened.mend.length as int) + opened.mend.ending@
            == mended(bytes@, tail_kept(content@, opened.records@.len() as int)),
        r matches Ok(opened) ==> closed_length(bytes@) <= opened.mend.length <= bytes@.len(),
        forall|codec: Codec<T::V>| #[trigger]
            parses(codec, bytes@, content@, parsed@) ==> match r {
                Ok(opened) => {
                    &&& opens(bytes@, views(opened.records@), codec)
                    &&& bytes@.take(opened.mend.length as int) + opened.mend.ending@ == mended_for(
                        bytes@,
                        opened.records@.len() as int,
                    )
                },
                Err(_) => reopened(bytes@, codec.decode) matches Some(result) && result is Err,
            },
{
    let ghost all = parsed@;
    assert forall|codec: Codec<T::V>| #[trigger] parses(codec, bytes@, content@, all) implies
        reopened(bytes@, codec.decode) == Some(
        match recovered(all, last_is_open(content@)) {
            Ok(records) => Ok::<Seq<T::V>, int>(views(records)),
            Err(at) => Err::<Seq<T::V>, int>(at),
        },
    ) by {
        let read = Seq::new(
            content@.lines.len(),
            |i: int| (codec.decode)(content@.lines[i].text),
        );
        let viewed = Seq::new(all.len(), |i: int| parsed_view(all[i]));
        assert(read =~= viewed);
        lemma_viewed_recovery(all, last_is_open(content@));
    }
    match recover(path, content, parsed) {
        Ok(records) => {
            let plan = mend(bytes, content, records.len());
            Ok(Opened { records, mend: plan })
        },
        Err(error) => Err(error),
    }
}

proof fn lemma_viewed_failure<T: View>(parsed: Seq<Result<T, String>>)
    ensures
        first_failure(Seq::new(parsed.len(), |i: int| parsed_view(parsed[i]))) == first_failure(
            parsed,
        ),
    decreases parsed.len(),
{
    let viewed = Seq::new(parsed.len(), |i: int| parsed_view(parsed[i]));
    if parsed.len() > 0 && parsed[0] is Ok {
        let rest = parsed.drop_first();
        lemma_viewed_failure(rest);
        assert(viewed.drop_first() =~= Seq::new(rest.len(), |i: int| parsed_view(rest[i])));
        assert(viewed[0] is Ok);
    }
}

/// Recovery sees the values of the records alone.
proof fn lemma_viewed_recovery<T: View>(parsed: Seq<Result<T, String>>, open: bool)
    ensures
        recovered(Seq::new(parsed.len(), |i: int| parsed_view(parsed[i])), open) == (
        match recovered(parsed, open) {
            Ok(records) => Ok::<Seq<T::V>, int>(views(records)),
            Err(at) => Err::<Seq<T::V>, int>(at),
        }),
{
    let viewed = Seq::new(parsed.len(), |i: int| parsed_view(parsed[i]));
    let n = first_failure(parsed);
    lemma_viewed_failure(parsed);
    crate::jsonl::lemma_first_failure(parsed);
    assert(parsed_values(viewed, n) =~= views(parsed_values(parsed, n)));
}

// ---------------------------------------------------------------------------------------
// One file

proof fn lemma_empty_file<R>(codec: Codec<R>)
    ensures
        keeps(Seq::empty(), Seq::empty(), codec),
        opens(Seq::empty(), Seq::empty(), codec),
{
    let none = Seq::<Seq<char>>::empty();
    law_written_records_are_read_back(none, codec.decode);
    assert(framed_all(encoded_all(none)) =~= Seq::<u8>::empty());
    assert(Seq::new(none.len(), |i: int| (codec.decode)(none[i])->Ok_0) =~= Seq::<R>::empty());
}

proof fn lemma_opened_keeps<R>(bytes: Seq<u8>, records: Seq<R>, codec: Codec<R>)
    requires
        reads_back(codec),
        opens(bytes, records, codec),
    ensures
        keeps(mended_for(bytes, records.len() as int), records, codec),
{
    law_mended_file_holds_what_was_recovered(bytes, records, codec.decode);
    crate::jsonl::lemma_recovered_records(bytes, records, codec.decode);
    assert forall|i: int| 0 <= i < records.len() implies (codec.writable)(
        #[trigger] records[i],
    ) by {
        let line = choose|line: Seq<char>| #[trigger]
            (codec.decode)(line) == Ok::<R, Seq<char>>(records[i]);
        assert((codec.decode)(line) is Ok);
    }
}

proof fn lemma_append_keeps<R>(bytes: Seq<u8>, records: Seq<R>, record: R, codec: Codec<R>)
    requires
        reads_back(codec),
        keeps(bytes, records, codec),
        (codec.writable)(record),
    ensures
        keeps(bytes + line_of(record, codec), records.push(record), codec),
{
    law_appended_record_is_read_back(bytes, records, (codec.encode)(record), codec.decode);
}

proof fn lemma_file_keeps<R>(records: Seq<R>, codec: Codec<R>)
    requires
        reads_back(codec),
        forall|i: int| 0 <= i < records.len() ==> (codec.writable)(#[trigger] records[i]),
    ensures
        keeps(file_of(records, codec), records, codec),
{
    let lines = Seq::new(records.len(), |i: int| (codec.encode)(records[i]));
    assert forall|i: int| 0 <= i < lines.len() implies is_record_text(#[trigger] lines[i]) && (
    codec.decode)(lines[i]) == Ok::<R, Seq<char>>(records[i]) by {
        assert((codec.writable)(records[i]));
    }
    law_written_records_are_read_back(lines, codec.decode);
    assert(Seq::new(lines.len(), |i: int| (codec.decode)(lines[i])->Ok_0) =~= records);
}

/// What is left of writable records is writable.
proof fn lemma_part_writable<R>(part: Seq<R>, whole: Seq<R>, codec: Codec<R>)
    requires
        crate::model::is_subsequence(part, whole),
        forall|i: int| 0 <= i < whole.len() ==> (codec.writable)(#[trigger] whole[i]),
    ensures
        forall|i: int| 0 <= i < part.len() ==> (codec.writable)(#[trigger] part[i]),
    decreases whole.len(),
{
    if part.len() > 0 {
        let shorter = whole.drop_last();
        assert forall|i: int| 0 <= i < shorter.len() implies (codec.writable)(
            #[trigger] shorter[i],
        ) by {
            assert(shorter[i] == whole[i]);
        }
        if part.last() == whole.last() && crate::model::is_subsequence(part.drop_last(), shorter) {
            lemma_part_writable(part.drop_last(), shorter, codec);
            assert forall|i: int| 0 <= i < part.len() implies (codec.writable)(
                #[trigger] part[i],
            ) by {
                if i < part.len() - 1 {
                    assert(part.drop_last()[i] == part[i]);
                } else {
                    assert(whole[whole.len() - 1] == part[i]);
                }
            }
        } else {
            lemma_part_writable(part, shorter, codec);
        }
    }
}

// ---------------------------------------------------------------------------------------
// Histories

proof fn lemma_set_push(ids: Seq<u128>, id: u128)
    ensures
        ids.push(id).to_set() == ids.to_set().insert(id),
{
    assert(ids.push(id).to_set() =~= ids.to_set().insert(id)) by {
        assert forall|other: u128| ids.to_set().insert(id).contains(other) implies ids.push(
            id,
        ).to_set().contains(other) by {
            if other == id {
                assert(ids.push(id)[ids.len() as int] == other);
            } else {
                let k = choose|k: int| 0 <= k < ids.len() && ids[k] == other;
                assert(ids.push(id)[k] == other);
            }
        }
    }
}

/// Whether the files hold what the store holds and can be written to.
spec fn on_disk(moment: StoreMoment, codecs: Codecs) -> bool {
    &&& keeps(moment.disk.events, moment.store.log, codecs.events)
    &&& exists|ids: Seq<u128>| #[trigger]
        keeps(moment.disk.marks, ids, codecs.ids) && ids.to_set() == moment.store.delivered
}

proof fn lemma_history_keeps(
    found: DiskView,
    moments: Seq<StoreMoment>,
    changes: Seq<StoreChange>,
    codecs: Codecs,
    at: int,
)
    requires
        reads_back(codecs.events),
        reads_back(codecs.ids),
        is_history(found, moments, changes, codecs),
        0 <= at < moments.len(),
    ensures
        on_disk(moments[at], codecs),
        opens_as(moments[at].disk, moments[at].store, codecs),
    decreases at,
{
    if at == 0 {
        let ids = choose|ids: Seq<u128>| #[trigger]
            opens(found.marks, ids, codecs.ids) && ids.to_set() == moments[0].store.delivered;
        lemma_opened_keeps(found.events, moments[0].store.log, codecs.events);
        lemma_opened_keeps(found.marks, ids, codecs.ids);
        assert(keeps(moments[0].disk.marks, ids, codecs.ids));
    } else {
        lemma_history_keeps(found, moments, changes, codecs, at - 1);
        let a = moments[at - 1];
        let b = moments[at];
        let change = changes[at - 1];
        assert(b.store == changed(a.store, change) && written(
            a.disk,
            a.store,
            change,
            b.disk,
            codecs,
        )) by {
            assert(moments[at - 1 + 1] == b);
        }
        lemma_change_keeps(a, change, b, codecs);
    }
    let ids = choose|ids: Seq<u128>| #[trigger]
        keeps(moments[at].disk.marks, ids, codecs.ids) && ids.to_set()
            == moments[at].store.delivered;
    assert(opens(moments[at].disk.marks, ids, codecs.ids));
}

proof fn lemma_change_keeps(
    a: StoreMoment,
    change: StoreChange,
    b: StoreMoment,
    codecs: Codecs,
)
    requires
        reads_back(codecs.events),
        reads_back(codecs.ids),
        on_disk(a, codecs),
        written(a.disk, a.store, change, b.disk, codecs),
        b.store == changed(a.store, change),
    ensures
        on_disk(b, codecs),
{
    let ids = choose|ids: Seq<u128>| #[trigger]
        keeps(a.disk.marks, ids, codecs.ids) && ids.to_set() == a.store.delivered;
    let kept = b.store.log;
    match change {
        StoreChange::Append(event) => {
            lemma_append_keeps(a.disk.events, a.store.log, event, codecs.events);
            assert(keeps(b.disk.marks, ids, codecs.ids));
        },
        StoreChange::Mark(id) => {
            if a.store.delivered.contains(id) {
                assert(a.store.delivered.insert(id) =~= a.store.delivered);
                assert(keeps(b.disk.marks, ids, codecs.ids));
            } else {
                lemma_append_keeps(a.disk.marks, ids, id, codecs.ids);
                lemma_set_push(ids, id);
                assert(keeps(b.disk.marks, ids.push(id), codecs.ids));
            }
        },
        StoreChange::Prune(policy) => {
            crate::retention::law_pruning_keeps_the_newer::<EventEnvelope>(
                a.store.log,
                policy,
            );
            crate::model::lemma_full_subsequence(kept, a.store.log);
            if kept.len() < a.store.log.len() {
                lemma_part_writable(kept, a.store.log, codecs.events);
                lemma_file_keeps(kept, codecs.events);
            }
            assert(keeps(b.disk.marks, ids, codecs.ids));
        },
        StoreChange::Sweep(policy, now, sizes) => {
            crate::retention::law_retention_keeps_append_order::<EventEnvelope>(
                a.store.log,
                Seq::empty(),
                sizes,
                a.store.delivered,
                policy,
                now,
            );
            crate::model::lemma_full_subsequence(kept, a.store.log);
            if kept.len() < a.store.log.len() {
                lemma_part_writable(kept, a.store.log, codecs.events);
                lemma_file_keeps(kept, codecs.events);
                let left = choose|left: Seq<u128>| #[trigger]
                    file_of(left, codecs.ids) == b.disk.marks && left.to_set() == delivered_among(
                        a.store.delivered,
                        kept,
                    );
                assert forall|i: int| 0 <= i < left.len() implies (codecs.ids.writable)(
                    #[trigger] left[i],
                ) by {
                    assert(left.to_set().contains(left[i]));
                    assert(ids.to_set().contains(left[i]));
                    let k = choose|k: int| 0 <= k < ids.len() && ids[k] == left[i];
                    assert((codecs.ids.writable)(ids[k]));
                }
                lemma_file_keeps(left, codecs.ids);
                assert(keeps(b.disk.marks, left, codecs.ids));
            } else {
                assert(keeps(b.disk.marks, ids, codecs.ids));
            }
        },
    }
}

proof fn lemma_queue_history_keeps(
    found: Seq<u8>,
    moments: Seq<QueueMoment>,
    changes: Seq<QueueChange>,
    codec: Codec<DeadTriggerView>,
    at: int,
)
    requires
        reads_back(codec),
        is_queue_history(found, moments, changes, codec),
        0 <= at < moments.len(),
    ensures
        keeps(moments[at].file, moments[at].records, codec),
    decreases at,
{
    if at == 0 {
        lemma_opened_keeps(found, moments[0].records, codec);
    } else {
        lemma_queue_history_keeps(found, moments, changes, codec, at - 1);
        let a = moments[at - 1];
        let b = moments[at];
        let change = changes[at - 1];
        assert(b.records == queue_changed(a.records, change) && queue_written(
            a.file,
            a.records,
            change,
            b.file,
            codec,
        )) by {
            assert(moments[at - 1 + 1] == b);
        }
        match change {
            QueueChange::Record(record) => {
                lemma_append_keeps(a.file, a.records, record, codec);
            },
            QueueChange::Drain => {
                lemma_empty_file(codec);
                assert(b.file =~= Seq::<u8>::empty());
            },
            QueueChange::Prune(policy) => {
                crate::retention::law_pruning_keeps_the_newer::<DeadTriggerRecord>(
                    a.records,
                    policy,
                );
                crate::model::lemma_full_subsequence(b.records, a.records);
                lemma_part_writable(b.records, a.records, codec);
                lemma_file_keeps(b.records, codec);
            },
            QueueChange::Sweep(policy, now, sizes) => {
                crate::retention::law_retention_keeps_append_order::<DeadTriggerRecord>(
                    Seq::empty(),
                    a.records,
                    sizes,
                    Set::empty(),
                    policy,
                    now,
                );
                crate::model::lemma_full_subsequence(b.records, a.records);
                lemma_part_writable(b.records, a.records, codec);
                lemma_file_keeps(b.records, codec);
            },
        }
    }
}

// ---------------------------------------------------------------------------------------
// What each change does

/// What each change does to an event store: an append adds its event at the end, a mark adds
/// its id, and neither touches anything else; pruning touches no mark, and a sweep leaves
/// every mark of an event that stays.
pub proof fn law_each_change_does_its_own(
    store: StoreView,
    event: EventView,
    id: u128,
    other: u128,
    policy: ManualRetention,
    bounds: RetentionView,
    now: TimestampView,
    sizes: Seq<u64>,
)
    ensures
        ({
            let appended = changed(store, StoreChange::Append(event));
            &&& appended.log.len() == store.log.len() + 1
            &&& appended.log.last() == event
            &&& appended.log.drop_last() == store.log
            &&& appended.delivered == store.delivered
        }),
        ({
            let marked = changed(store, StoreChange::Mark(id));
            &&& marked.log == store.log
            &&& marked.delivered.contains(other) <==> other == id || store.delivered.contains(other)
        }),
        ({
            let left = changed(store, StoreChange::Prune(policy));
            &&& left.log == pruned::<EventEnvelope>(store.log, policy)
            &&& left.delivered == store.delivered
        }),
        ({
            let left = changed(store, StoreChange::Sweep(bounds, now, sizes));
            &&& left.log == retained_events(store.log, sizes, store.delivered, bounds, now)
            &&& left.delivered.contains(other) ==> store.delivered.contains(other)
            &&& forall|k: int|
                0 <= k < left.log.len() ==> (left.delivered.contains((#[trigger] left.log[k]).id)
                    <==> store.delivered.contains(left.log[k].id))
        }),
{
    assert(store.log.push(event).drop_last() =~= store.log);
    let left = changed(store, StoreChange::Sweep(bounds, now, sizes));
    crate::storage::law_marks_go_with_their_events(
        store.delivered,
        store.log,
        left.log,
        other,
        other,
    );
    assert forall|k: int| 0 <= k < left.log.len() implies (left.delivered.contains(
        (#[trigger] left.log[k]).id,
    ) <==> store.delivered.contains(left.log[k].id)) by {
        crate::storage::law_sweep_keeps_delivery_state(store.delivered, store.log, left.log, k);
    }
}

/// What each change does to a dead-trigger queue: a record goes to the end, draining leaves
/// nothing, and pruning and sweeping leave what the policy keeps.
pub proof fn law_each_queue_change_does_its_own(
    records: Seq<DeadTriggerView>,
    record: DeadTriggerView,
    policy: ManualRetention,
    bounds: RetentionView,
    now: TimestampView,
    sizes: Seq<u64>,
)
    ensures
        ({
            let recorded = queue_changed(records, QueueChange::Record(record));
            &&& recorded.len() == records.len() + 1
            &&& recorded.last() == record
            &&& recorded.drop_last() == records
        }),
        queue_changed(records, QueueChange::Drain).len() == 0,
        queue_changed(records, QueueChange::Prune(policy)) == pruned::<DeadTriggerRecord>(
            records,
            policy,
        ),
        queue_changed(records, QueueChange::Sweep(bounds, now, sizes)) == retained_records::<
            DeadTriggerRecord,
        >(records, sizes, bounds, now),
{
    assert(records.push(record).drop_last() =~= records);
}

/// What each change writes: an append adds one line to the events and leaves the marks, a
/// mark adds one line to the marks, unless the id is marked already, and leaves the events,
/// and a change that removes nothing writes nothing.
pub proof fn law_each_change_writes_its_own_file(
    before: DiskView,
    store: StoreView,
    change: StoreChange,
    after: DiskView,
    codecs: Codecs,
)
    requires
        written(before, store, change, after, codecs),
    ensures
        change matches StoreChange::Append(event) ==> {
            &&& after.events == before.events + encode_utf8((codecs.events.encode)(event)) + seq![
                10u8,
            ]
            &&& after.marks == before.marks
        },
        change matches StoreChange::Mark(id) ==> {
            &&& after.events == before.events
            &&& store.delivered.contains(id) ==> after.marks == before.marks
            &&& !store.delivered.contains(id) ==> after.marks == before.marks + encode_utf8(
                (codecs.ids.encode)(id),
            ) + seq![10u8]
        },
        change is Prune ==> after.marks == before.marks,
        (change is Prune || change is Sweep) && changed(store, change).log.len()
            >= store.log.len() ==> after == before,
{
    match change {
        StoreChange::Append(event) => {
            let encoded = encode_utf8((codecs.events.encode)(event));
            assert(before.events + framed(encoded) =~= before.events + encoded + seq![10u8]);
        },
        StoreChange::Mark(id) => {
            let encoded = encode_utf8((codecs.ids.encode)(id));
            assert(before.marks + framed(encoded) =~= before.marks + encoded + seq![10u8]);
        },
        _ => {},
    }
}

/// What a write makes of a file.
pub proof fn law_writes_do_what_they_say(bytes: Seq<u8>, more: Seq<u8>)
    ensures
        applied(bytes, WriteView::Nothing) == bytes,
        applied(bytes, WriteView::Append(more)) == bytes + more,
        applied(bytes, WriteView::Replace(more)) == more,
        applied(bytes, WriteView::Clear).len() == 0,
{
}

} // verus!
