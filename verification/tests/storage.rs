use serde_json::Value;
use triggerlane::durable::{open_file, FileWrite, StoreWrites};
use triggerlane::event::{
    EventEnvelope, EventId, EventMetadata, EventType, Source, EVENT_CRON_DAILY,
    EVENT_GITHUB_ISSUE_CREATED,
};
use triggerlane::jsonl::{
    encoding_error, frame, frame_all, mend, read_content, recover, StoredContent,
};
use triggerlane::retention::{apply_size_bounds, AutoRetention, ManualRetention};
use triggerlane::storage::{
    delivered_path, DeadTriggerQueue, DeadTriggerRecord, EventJournal, EventStore, InMemoryDeadTriggerQueue,
    InMemoryEventStore, StorageError, StorageErrorKind,
};
use triggerlane::time::{TimeSpan, Timestamp};

fn days(n: i64) -> TimeSpan {
    TimeSpan::seconds(n * 86_400).expect("span")
}

fn at(text: &str) -> Timestamp {
    Timestamp::parse(text).expect("timestamp parses")
}

fn now() -> Timestamp {
    at("2026-06-20T00:00:00Z")
}

fn event_at(text: &str) -> EventEnvelope {
    let mut event = EventEnvelope::new(
        Source::GitHub,
        EventType::new(EVENT_GITHUB_ISSUE_CREATED),
        b"{}".to_vec(),
    );
    event.timestamp = at(text);
    event
}

fn dead_record_at(trigger: &str, text: &str) -> DeadTriggerRecord {
    DeadTriggerRecord {
        event: event_at(text),
        trigger_name: trigger.to_owned(),
        error: "submission failed".to_owned(),
    }
}

fn dead_record(trigger: &str) -> DeadTriggerRecord {
    DeadTriggerRecord {
        event: EventEnvelope::new(
            Source::GitHub,
            EventType::new(EVENT_GITHUB_ISSUE_CREATED),
            br#"{"issue":1}"#.to_vec(),
        ),
        trigger_name: trigger.to_owned(),
        error: "submission failed".to_owned(),
    }
}

// A file of records, kept in memory: what a durable store appends to and reads back.

fn opt(value: &Option<String>) -> Value {
    match value {
        Some(text) => Value::from(text.as_str()),
        None => Value::Null,
    }
}

fn event_value(event: &EventEnvelope) -> Value {
    let mut map = serde_json::Map::new();
    map.insert("id".to_owned(), Value::from(event.id.to_string()));
    map.insert("source".to_owned(), Value::from(event.source.name()));
    map.insert("type".to_owned(), Value::from(event.event_type.as_str()));
    map.insert("payload".to_owned(), Value::from(event.payload.clone()));
    map.insert("secs".to_owned(), Value::from(event.timestamp.seconds()));
    map.insert("nanos".to_owned(), Value::from(event.timestamp.subsec_nanos()));
    map.insert("trace".to_owned(), opt(&event.metadata.trace_id));
    map.insert("corr".to_owned(), opt(&event.metadata.correlation_id));
    map.insert("tenant".to_owned(), opt(&event.metadata.tenant_id));
    map.insert("key".to_owned(), opt(&event.metadata.idempotency_key));
    map.insert("cause".to_owned(), opt(&event.metadata.causation_id));
    Value::Object(map)
}

fn text(value: &Value, name: &str) -> Option<String> {
    value.get(name).and_then(|found| found.as_str()).map(str::to_owned)
}

fn event_from(value: &Value) -> Option<EventEnvelope> {
    Some(EventEnvelope {
        id: EventId::from_str(&text(value, "id")?).ok()?,
        source: Source::from_name(&text(value, "source")?)?,
        event_type: EventType::new(&text(value, "type")?),
        payload: value
            .get("payload")?
            .as_array()?
            .iter()
            .map(|byte| byte.as_u64().unwrap_or(0) as u8)
            .collect(),
        timestamp: Timestamp::new(
            value.get("secs")?.as_i64()?,
            value.get("nanos")?.as_u64()? as u32,
        )?,
        metadata: EventMetadata {
            trace_id: text(value, "trace"),
            correlation_id: text(value, "corr"),
            tenant_id: text(value, "tenant"),
            idempotency_key: text(value, "key"),
            causation_id: text(value, "cause"),
        },
    })
}

fn event_line(event: &EventEnvelope) -> Vec<u8> {
    event_value(event).to_string().into_bytes()
}

fn record_line(record: &DeadTriggerRecord) -> Vec<u8> {
    let mut map = serde_json::Map::new();
    map.insert("event".to_owned(), event_value(&record.event));
    map.insert("trigger".to_owned(), Value::from(record.trigger_name.as_str()));
    map.insert("error".to_owned(), Value::from(record.error.as_str()));
    Value::Object(map).to_string().into_bytes()
}

fn parse_lines<T>(
    content: &StoredContent,
    parse: impl Fn(&Value) -> Option<T>,
) -> Vec<Result<T, String>> {
    content
        .lines
        .iter()
        .map(|line| {
            let value: Value =
                serde_json::from_str(&line.text).map_err(|error| error.to_string())?;
            parse(&value).ok_or_else(|| "not a record".to_owned())
        })
        .collect()
}

fn reopen<T>(bytes: &[u8], parse: impl Fn(&Value) -> Option<T>) -> Result<Vec<T>, StorageError> {
    let content =
        read_content(bytes).map_err(|error| encoding_error("store.jsonl", &error))?;
    let parsed = parse_lines(&content, parse);
    recover("store.jsonl", &content, parsed)
}

fn reopen_events(bytes: &[u8]) -> Result<Vec<EventEnvelope>, StorageError> {
    reopen(bytes, event_from)
}

fn reopen_ids(bytes: &[u8]) -> Result<Vec<EventId>, StorageError> {
    reopen(bytes, |value| EventId::from_str(value.as_str()?).ok())
}

fn reopen_records(bytes: &[u8]) -> Result<Vec<DeadTriggerRecord>, StorageError> {
    reopen(bytes, |value| {
        Some(DeadTriggerRecord {
            event: event_from(value.get("event")?)?,
            trigger_name: text(value, "trigger")?,
            error: text(value, "error")?,
        })
    })
}

fn append_event(file: &mut Vec<u8>, event: &EventEnvelope) {
    file.extend(frame(event_line(event)));
}

fn id_line(id: &EventId) -> Vec<u8> {
    Value::from(id.to_string()).to_string().into_bytes()
}

#[test]
fn in_memory_store_preserves_event_for_replay() {
    let mut store = InMemoryEventStore::new();
    let event = EventEnvelope::new(Source::Cron, EventType::new(EVENT_CRON_DAILY), b"{}".to_vec());
    let id = event.id;

    store.append(event.clone()).unwrap();

    assert_eq!(store.get(id), Some(event));
    assert_eq!(store.all().len(), 1);
}

#[test]
fn file_store_reopens_persisted_event_for_replay() {
    let mut file = Vec::new();
    let event = EventEnvelope::new(
        Source::GitHub,
        EventType::new(EVENT_GITHUB_ISSUE_CREATED),
        br#"{"issue":1}"#.to_vec(),
    )
    .with_metadata(EventMetadata {
        trace_id: Some("trace-1".to_owned()),
        correlation_id: Some("delivery-1".to_owned()),
        tenant_id: Some("tenant-1".to_owned()),
        idempotency_key: Some("idem-1".to_owned()),
        causation_id: None,
    });
    let id = event.id;

    append_event(&mut file, &event);

    let reopened = EventJournal::restore(reopen_events(&file).expect("reopens"), Vec::new());
    assert_eq!(reopened.get(id), Some(event));
}

#[test]
fn file_store_lists_reopened_events_in_append_order() {
    let mut file = Vec::new();
    let first = EventEnvelope::new(
        Source::Manual,
        EventType::new(EVENT_CRON_DAILY),
        b"first".to_vec(),
    );
    let second = EventEnvelope::new(
        Source::Cron,
        EventType::new(EVENT_CRON_DAILY),
        b"second".to_vec(),
    );

    append_event(&mut file, &first);
    append_event(&mut file, &second);

    let reopened = EventJournal::restore(reopen_events(&file).expect("reopens"), Vec::new());
    assert_eq!(reopened.all(), [first, second]);
}

#[test]
fn file_dead_trigger_queue_rereads_after_reopen() {
    let record = dead_record("github-issue");
    let file = frame(record_line(&record));
    let reopened = InMemoryDeadTriggerQueue::restore(reopen_records(&file).expect("reopens"));
    assert_eq!(reopened.all(), vec![record]);
}

#[test]
fn in_memory_drain_returns_all_and_empties() {
    let mut queue = InMemoryDeadTriggerQueue::new();
    queue.record(dead_record("a")).unwrap();
    queue.record(dead_record("b")).unwrap();

    let drained = queue.drain().unwrap();

    assert_eq!(drained.len(), 2);
    assert!(queue.all().is_empty());
}

#[test]
fn torn_trailing_line_is_recovered_on_open() {
    let mut file = Vec::new();
    let good = event_at("2026-06-20T00:00:00Z");
    append_event(&mut file, &good);
    // A crash mid-append: an unterminated fragment after the last complete record.
    file.extend(br#"{"id":"trunc"#);

    assert_eq!(
        reopen_events(&file).expect("torn final line should be tolerated"),
        vec![good]
    );
}

#[test]
fn every_torn_append_keeps_the_records_before_it() {
    let first = event_at("2026-06-20T00:00:00Z");
    let mut second = event_at("2026-06-21T00:00:00Z");
    // Characters of several bytes, so that some cuts fall inside one.
    second.metadata.tenant_id = Some("größe-日本-🦀".to_owned());
    let mut file = Vec::new();
    append_event(&mut file, &first);
    let whole = frame(event_line(&second));
    for cut in 0..whole.len() - 1 {
        let mut torn = file.clone();
        torn.extend(&whole[..cut]);
        assert_eq!(
            reopen_events(&torn).expect("a torn append never fails the open"),
            vec![first.clone()],
            "cut after {cut} bytes"
        );
    }
    // Only the newline is missing: the record is complete.
    let mut torn = file.clone();
    torn.extend(&whole[..whole.len() - 1]);
    assert_eq!(
        reopen_events(&torn).expect("complete record"),
        vec![first.clone(), second.clone()]
    );
    file.extend(&whole);
    assert_eq!(reopen_events(&file).expect("complete file"), vec![first, second]);
}

#[test]
fn appends_after_a_torn_append_are_read_back() {
    let first = event_at("2026-06-20T00:00:00Z");
    let mut second = event_at("2026-06-21T00:00:00Z");
    second.metadata.tenant_id = Some("größe-日本-🦀".to_owned());
    let third = event_at("2026-06-22T00:00:00Z");
    let mut file = Vec::new();
    append_event(&mut file, &first);
    let whole = frame(event_line(&second));
    for cut in 0..whole.len() {
        let mut torn = file.clone();
        torn.extend(&whole[..cut]);
        let recovered = reopen_events(&torn).expect("opens");
        let content = read_content(&torn).expect("opens");
        let plan = mend(&torn, &content, recovered.len());
        torn.truncate(plan.length);
        torn.extend(&plan.ending);
        append_event(&mut torn, &third);
        let mut expected = recovered;
        expected.push(third.clone());
        assert_eq!(
            reopen_events(&torn).expect("the mended file opens"),
            expected,
            "cut after {cut} bytes"
        );
    }
}

#[test]
fn mending_ends_a_kept_line_and_cuts_a_dropped_one() {
    let ends = |bytes: &[u8], recovered: usize| {
        let content = read_content(bytes).expect("text");
        let plan = mend(bytes, &content, recovered);
        let mut out = bytes[..plan.length].to_vec();
        out.extend(plan.ending);
        out
    };
    assert_eq!(ends(b"1\n2", 2), b"1\n2\n".to_vec());
    assert_eq!(ends(b"1\n2", 1), b"1\n".to_vec());
    assert_eq!(ends(b"1\n2\r", 2), b"1\n2\r\r\n".to_vec());
    assert_eq!(ends(b"1\n  ", 1), b"1\n".to_vec());
    assert_eq!(ends(b"1\n\xe6\x97", 1), b"1\n".to_vec());
    assert_eq!(ends(b"1\n", 1), b"1\n".to_vec());
    assert_eq!(ends(b"x", 0), Vec::<u8>::new());
    assert_eq!(ends(b"", 0), Vec::<u8>::new());
}

#[test]
fn delivered_ids_live_beside_the_events() {
    assert_eq!(delivered_path("a/b.jsonl"), "a/b.jsonl.delivered");
}

#[test]
fn corrupt_non_final_line_fails_open() {
    let error = match reopen_events(b"not json\n{\"also\":\"bad\"}\n") {
        Ok(_) => panic!("open must fail"),
        Err(error) => error,
    };
    assert_eq!(error.kind, StorageErrorKind::InvalidData);
    assert!(error.message.starts_with("invalid JSON in store.jsonl on line 1: "));
}

#[test]
fn corrupt_newline_terminated_final_line_fails_open() {
    let error = match reopen_events(b"{\"broken\": \n") {
        Ok(_) => panic!("open must fail"),
        Err(error) => error,
    };
    assert_eq!(error.kind, StorageErrorKind::InvalidData);
    assert!(error.message.starts_with("invalid JSON in store.jsonl on line 1: "));
}

#[test]
fn corrupt_terminated_line_before_a_blank_tail_fails_open() {
    // The damaged line has its newline; the spaces behind it do not make it a torn one.
    let error = match reopen_events(b"\n\n{\"broken\": \n   ") {
        Ok(_) => panic!("open must fail"),
        Err(error) => error,
    };
    assert_eq!(error.kind, StorageErrorKind::InvalidData);
    assert!(error.message.starts_with("invalid JSON in store.jsonl on line 3: "));
}

#[test]
fn bytes_that_are_not_text_fail_open() {
    let error = match reopen_events(b"\xff\xfe\n{}\n") {
        Ok(_) => panic!("open must fail"),
        Err(error) => error,
    };
    assert_eq!(error.kind, StorageErrorKind::InvalidData);
    assert!(error.message.starts_with("invalid UTF-8 in store.jsonl: invalid utf-8"));
}

#[test]
fn lines_are_split_numbered_and_blank_ones_skipped() {
    let content = read_content("a\r\n\n \u{3000}\nb\rc\nlast\r".as_bytes()).expect("text");
    let lines: Vec<(usize, &str)> = content
        .lines
        .iter()
        .map(|line| (line.number, line.text.as_str()))
        .collect();
    assert_eq!(lines, vec![(1, "a"), (4, "b\rc"), (5, "last\r")]);
    assert_eq!(content.open_line, Some(5));
    let empty = read_content(b"").expect("text");
    assert!(empty.lines.is_empty());
    assert_eq!(empty.open_line, None);
    assert_eq!(read_content(b"x\n").expect("text").open_line, None);
}

#[test]
fn frames_are_body_and_newline() {
    assert_eq!(frame(b"{}".to_vec()), b"{}\n".to_vec());
    assert_eq!(
        frame_all(&vec![b"1".to_vec(), b"2".to_vec()]),
        b"1\n2\n".to_vec()
    );
    assert_eq!(frame_all(&Vec::new()), Vec::<u8>::new());
}

#[test]
fn in_memory_event_store_prunes_by_age_and_count() {
    let mut store = InMemoryEventStore::new();
    let old = event_at("2020-01-01T00:00:00Z");
    let mid = event_at("2026-06-01T00:00:00Z");
    let new = event_at("2026-06-20T00:00:00Z");
    store.append(old).unwrap();
    store.append(mid.clone()).unwrap();
    store.append(new.clone()).unwrap();

    // Older-than keeps the cutoff boundary and newer, drops older.
    let cutoff = at("2026-06-01T00:00:00Z");
    let removed = store.prune(&ManualRetention::OlderThan(cutoff)).unwrap();
    assert_eq!(removed, 1);
    assert_eq!(store.all(), vec![mid, new.clone()]);

    // Keep-most-recent bounds the count.
    let removed = store.prune(&ManualRetention::KeepMostRecent(1)).unwrap();
    assert_eq!(removed, 1);
    assert_eq!(store.all(), vec![new]);
}

#[test]
fn file_event_store_prune_compacts_durable_backing() {
    let keep = event_at("2026-06-20T00:00:00Z");
    let mut journal = EventJournal::new();
    journal.append(event_at("2020-01-01T00:00:00Z"));
    journal.append(keep.clone());
    let kept = journal
        .plan_prune(&ManualRetention::KeepMostRecent(1))
        .expect("one event goes");
    assert_eq!(journal.len() - kept.len(), 1);
    // The rewritten file holds what is kept, and appends after a prune still persist.
    let mut file = frame_all(&kept.iter().map(event_line).collect());
    journal.replace_events(kept);
    let later = event_at("2026-06-21T00:00:00Z");
    append_event(&mut file, &later);
    journal.append(later);

    let reopened = reopen_events(&file).expect("reopens");
    assert_eq!(reopened.len(), 2);
    assert_eq!(reopened[0].id, keep.id);
    assert_eq!(reopened, journal.all());
}

#[test]
fn file_dead_trigger_queue_prune_compacts_durable_backing() {
    let mut queue = InMemoryDeadTriggerQueue::new();
    queue
        .record(dead_record_at("old", "2020-01-01T00:00:00Z"))
        .unwrap();
    queue
        .record(dead_record_at("new", "2026-06-20T00:00:00Z"))
        .unwrap();
    let kept = queue
        .plan_prune(&ManualRetention::OlderThan(at("2026-06-01T00:00:00Z")))
        .expect("one record goes");
    assert_eq!(queue.len() - kept.len(), 1);
    let file = frame_all(&kept.iter().map(record_line).collect());

    let reopened = reopen_records(&file).expect("reopens");
    assert_eq!(reopened.len(), 1);
    assert_eq!(reopened[0].trigger_name, "new");
}

#[test]
fn auto_retention_removes_delivered_aged_events_keeps_undelivered() {
    let mut store = InMemoryEventStore::new();
    let old_delivered = event_at("2026-06-01T00:00:00Z");
    let old_undelivered = event_at("2026-06-01T00:00:00Z");
    let recent = event_at("2026-06-19T18:00:00Z");
    store.append(old_delivered.clone()).unwrap();
    store.append(old_undelivered.clone()).unwrap();
    store.append(recent.clone()).unwrap();
    store.mark_delivered(old_delivered.id).unwrap();

    let policy = AutoRetention {
        delivered_grace: Some(days(7)),
        ..AutoRetention::unbounded()
    };
    let removed = store.enforce_retention(&policy, &now(), &Vec::new()).unwrap();

    // Only the delivered, aged event goes; the aged-but-undelivered one stays.
    assert_eq!(removed, 1);
    let ids: Vec<_> = store.all().into_iter().map(|event| event.id).collect();
    assert_eq!(ids, vec![old_undelivered.id, recent.id]);
}

#[test]
fn auto_retention_hard_max_age_removes_undelivered() {
    let mut store = InMemoryEventStore::new();
    let old = event_at("2026-06-01T00:00:00Z");
    let recent = event_at("2026-06-19T18:00:00Z");
    store.append(old).unwrap();
    store.append(recent.clone()).unwrap();

    let policy = AutoRetention {
        max_age: Some(days(7)),
        ..AutoRetention::unbounded()
    };
    let removed = store.enforce_retention(&policy, &now(), &Vec::new()).unwrap();

    assert_eq!(removed, 1);
    assert_eq!(store.all(), vec![recent]);
}

#[test]
fn auto_retention_unbounded_removes_nothing() {
    let mut store = InMemoryEventStore::new();
    let old = event_at("2020-01-01T00:00:00Z");
    store.append(old.clone()).unwrap();
    store.mark_delivered(old.id).unwrap();

    let removed = store
        .enforce_retention(&AutoRetention::unbounded(), &now(), &Vec::new())
        .unwrap();
    assert_eq!(removed, 0);
    assert_eq!(store.all(), vec![old]);
}

#[test]
fn auto_retention_max_count_keeps_most_recent() {
    let mut store = InMemoryEventStore::new();
    let a = event_at("2026-06-01T00:00:00Z");
    let b = event_at("2026-06-02T00:00:00Z");
    let c = event_at("2026-06-03T00:00:00Z");
    store.append(a).unwrap();
    store.append(b.clone()).unwrap();
    store.append(c.clone()).unwrap();

    let policy = AutoRetention {
        max_count: Some(2),
        ..AutoRetention::unbounded()
    };
    let removed = store.enforce_retention(&policy, &now(), &Vec::new()).unwrap();

    assert_eq!(removed, 1);
    assert_eq!(store.all(), vec![b, c]);
}

#[test]
fn auto_retention_age_at_the_bound_stays() {
    let mut store = InMemoryEventStore::new();
    let edge = event_at("2026-06-13T00:00:00Z");
    let past = event_at("2026-06-12T23:59:59.999999999Z");
    store.append(past).unwrap();
    store.append(edge.clone()).unwrap();
    let policy = AutoRetention {
        max_age: Some(days(7)),
        ..AutoRetention::unbounded()
    };
    assert_eq!(store.enforce_retention(&policy, &now(), &Vec::new()), Ok(1));
    assert_eq!(store.all(), vec![edge]);
    // A second sweep finds nothing more.
    assert_eq!(store.enforce_retention(&policy, &now(), &Vec::new()), Ok(0));
}

#[test]
fn auto_retention_byte_bound_drops_the_oldest() {
    let mut store = InMemoryEventStore::new();
    let events: Vec<_> = (1..=4)
        .map(|day| event_at(&format!("2026-06-0{day}T00:00:00Z")))
        .collect();
    for event in &events {
        store.append(event.clone()).unwrap();
    }
    let policy = AutoRetention {
        max_bytes: Some(100),
        ..AutoRetention::unbounded()
    };
    // 40 + 50 fit; adding 20 would not, although the oldest alone would.
    assert_eq!(
        store.enforce_retention(&policy, &now(), &vec![5, 20, 50, 40]),
        Ok(2)
    );
    assert_eq!(store.all(), events[2..].to_vec());
}

#[test]
fn size_bounds_apply_count_then_bytes() {
    let policy = AutoRetention {
        max_count: Some(3),
        max_bytes: Some(10),
        ..AutoRetention::unbounded()
    };
    assert_eq!(apply_size_bounds(&vec![1, 1, 1, 1], &policy), 1);
    assert_eq!(apply_size_bounds(&vec![1, 9, 5, 5], &policy), 2);
    assert_eq!(apply_size_bounds(&vec![1, 1, 1, 11], &policy), 4);
    assert_eq!(apply_size_bounds(&Vec::new(), &policy), 0);
    assert_eq!(
        apply_size_bounds(&vec![u64::MAX, u64::MAX], &AutoRetention::unbounded()),
        0
    );
}

#[test]
fn sweep_drops_delivery_marks_of_removed_events_only() {
    let mut store = InMemoryEventStore::new();
    let gone = event_at("2026-06-01T00:00:00Z");
    let kept = event_at("2026-06-19T00:00:00Z");
    store.append(gone.clone()).unwrap();
    store.append(kept.clone()).unwrap();
    store.mark_delivered(gone.id).unwrap();
    store.mark_delivered(kept.id).unwrap();
    let policy = AutoRetention {
        delivered_grace: Some(days(7)),
        ..AutoRetention::unbounded()
    };
    assert_eq!(store.enforce_retention(&policy, &now(), &Vec::new()), Ok(1));
    assert!(store.undelivered().is_empty());
    // The removed event's mark went with it: appended again, it is in flight again.
    store.append(gone.clone()).unwrap();
    assert_eq!(store.undelivered(), vec![gone]);
}

#[test]
fn file_delivery_state_survives_reopen() {
    let delivered = event_at("2026-06-19T00:00:00Z");
    let pending = event_at("2026-06-19T00:00:00Z");
    let mut file = Vec::new();
    let mut marks = Vec::new();
    let mut journal = EventJournal::new();
    for event in [&delivered, &pending] {
        append_event(&mut file, event);
        journal.append(event.clone());
    }
    // Marking twice does not write twice.
    for _ in 0..2 {
        if !journal.is_delivered(delivered.id) {
            marks.extend(frame(id_line(&delivered.id)));
            journal.mark_delivered(delivered.id);
        }
    }

    let reopened = EventJournal::restore(
        reopen_events(&file).expect("reopens"),
        reopen_ids(&marks).expect("reopens"),
    );
    assert_eq!(reopen_ids(&marks).expect("reopens"), vec![delivered.id]);
    let undelivered: Vec<_> = reopened.undelivered().into_iter().map(|e| e.id).collect();
    assert_eq!(undelivered, vec![pending.id]);
}

#[test]
fn file_auto_retention_compacts_event_log_and_journal() {
    let old_delivered = event_at("2026-06-01T00:00:00Z");
    let recent = event_at("2026-06-19T18:00:00Z");
    let policy = AutoRetention {
        delivered_grace: Some(days(7)),
        ..AutoRetention::unbounded()
    };
    let mut journal = EventJournal::new();
    journal.append(old_delivered.clone());
    journal.append(recent.clone());
    journal.mark_delivered(old_delivered.id);
    let plan = journal
        .plan_retention(&policy, &now(), &Vec::new())
        .expect("one event goes");
    assert_eq!(journal.len() - plan.events.len(), 1);
    let file = frame_all(&plan.events.iter().map(event_line).collect());
    let mark_file = frame_all(&plan.delivered.iter().map(id_line).collect());
    journal.replace_delivered(&plan.delivered);
    journal.replace_events(plan.events);
    assert!(journal.plan_retention(&policy, &now(), &Vec::new()).is_none());

    // The compacted event log and delivered journal persist across reopen.
    let reopened = EventJournal::restore(
        reopen_events(&file).expect("reopens"),
        reopen_ids(&mark_file).expect("reopens"),
    );
    let ids: Vec<_> = reopened.all().into_iter().map(|e| e.id).collect();
    assert_eq!(ids, vec![recent.id]);
    let undelivered: Vec<_> = reopened.undelivered().into_iter().map(|e| e.id).collect();
    assert_eq!(undelivered, vec![recent.id]);
}

#[test]
fn delivered_marks_are_kept_once_in_event_order() {
    let a = event_at("2026-06-01T00:00:00Z");
    let b = event_at("2026-06-02T00:00:00Z");
    let mut journal = EventJournal::new();
    journal.append(a.clone());
    journal.append(b.clone());
    journal.append(a.clone());
    journal.mark_delivered(b.id);
    journal.mark_delivered(a.id);
    assert_eq!(journal.delivered_among(&journal.all()), vec![a.id, b.id]);
}

#[test]
fn in_memory_store_reports_len_and_zero_size() {
    let mut store = InMemoryEventStore::new();
    assert!(store.is_empty());
    store.append(event_at("2026-06-20T00:00:00Z")).unwrap();
    assert_eq!(store.len(), 1);
    // Non-durable backends report no on-disk footprint.
    assert_eq!(store.size_bytes(), 0);
}

#[test]
fn in_memory_dead_trigger_queue_retention_bounds_by_count() {
    let mut queue = InMemoryDeadTriggerQueue::new();
    queue.record(dead_record("a")).unwrap();
    queue.record(dead_record("b")).unwrap();
    queue.record(dead_record("c")).unwrap();

    let policy = AutoRetention {
        max_count: Some(2),
        ..AutoRetention::unbounded()
    };
    let removed = queue.enforce_retention(&policy, &now(), &Vec::new()).unwrap();

    assert_eq!(removed, 1);
    let names: Vec<_> = queue
        .all()
        .into_iter()
        .map(|record| record.trigger_name)
        .collect();
    assert_eq!(names, vec!["b".to_owned(), "c".to_owned()]);
}

#[test]
fn dead_trigger_queue_retention_ignores_delivered_grace() {
    // A grace-only policy has no effect on dead triggers.
    let mut queue = InMemoryDeadTriggerQueue::new();
    queue
        .record(dead_record_at("old", "2020-01-01T00:00:00Z"))
        .unwrap();
    let policy = AutoRetention {
        delivered_grace: Some(days(1)),
        ..AutoRetention::unbounded()
    };
    assert_eq!(
        queue.enforce_retention(&policy, &now(), &Vec::new()).unwrap(),
        0
    );
    assert_eq!(queue.all().len(), 1);
}

#[test]
fn file_dead_trigger_queue_retention_compacts_by_age() {
    let policy = AutoRetention {
        max_age: Some(days(7)),
        ..AutoRetention::unbounded()
    };
    let mut queue = InMemoryDeadTriggerQueue::new();
    queue
        .record(dead_record_at("old", "2020-01-01T00:00:00Z"))
        .unwrap();
    queue
        .record(dead_record_at("new", "2026-06-20T00:00:00Z"))
        .unwrap();
    let kept = queue
        .plan_retention(&policy, &now(), &Vec::new())
        .expect("one record goes");
    assert_eq!(queue.len() - kept.len(), 1);
    let file = frame_all(&kept.iter().map(record_line).collect());

    let names: Vec<_> = reopen_records(&file)
        .expect("reopens")
        .into_iter()
        .map(|record| record.trigger_name)
        .collect();
    assert_eq!(names, vec!["new".to_owned()]);
}

#[test]
fn file_drain_truncates_durable_backing_and_allows_reappend() {
    let mut queue = InMemoryDeadTriggerQueue::new();
    let mut file = Vec::new();
    for record in [dead_record("a"), dead_record("b")] {
        write(&mut file, queue.record_write(record_line(&record)));
        queue.record(record).unwrap();
    }
    assert_eq!(reopen_records(&file).expect("opens").len(), 2);
    write(&mut file, queue.drain_write());
    assert_eq!(queue.drain().unwrap().len(), 2);
    assert!(queue.is_empty());
    // The truncated file reads as empty, and a record appended afterwards persists.
    assert!(reopen_records(&file).expect("empty").is_empty());
    let after = dead_record("c");
    write(&mut file, queue.record_write(record_line(&after)));
    assert_eq!(reopen_records(&file).expect("reopens"), vec![after]);
}

#[test]
fn lookup_by_id_and_key_is_scoped_to_the_log() {
    let mut store = InMemoryEventStore::new();
    let first = event_at("2026-06-01T00:00:00Z").with_metadata(EventMetadata {
        idempotency_key: Some("key".to_owned()),
        ..EventMetadata::default()
    });
    let second = event_at("2026-06-02T00:00:00Z").with_metadata(EventMetadata {
        idempotency_key: Some("key".to_owned()),
        ..EventMetadata::default()
    });
    store.append(first.clone()).unwrap();
    store.append(second.clone()).unwrap();
    assert_eq!(store.find_by_idempotency_key("key"), Some(first.clone()));
    assert_eq!(store.find_by_idempotency_key("other"), None);
    store.prune(&ManualRetention::KeepMostRecent(1)).unwrap();
    assert_eq!(store.get(first.id), None);
    assert_eq!(store.find_by_idempotency_key("key"), Some(second));
}

/// The two files of an event store and what is kept of them in memory.
struct StoreOnFiles {
    events: Vec<u8>,
    marks: Vec<u8>,
    journal: EventJournal,
}

/// The records of a file, and its bytes once it is mended.
fn opened<T>(bytes: &[u8], parse: impl Fn(&Value) -> Option<T>) -> (Vec<T>, Vec<u8>) {
    let content = read_content(bytes).expect("text");
    let parsed = parse_lines(&content, parse);
    let records = recover("store.jsonl", &content, parsed).expect("opens");
    let plan = mend(bytes, &content, records.len());
    let mut out = bytes[..plan.length].to_vec();
    out.extend(plan.ending);
    (records, out)
}

fn write(file: &mut Vec<u8>, write: FileWrite) {
    match write {
        FileWrite::Nothing => {}
        FileWrite::Append(line) => file.extend(line),
        FileWrite::Replace(bytes) => *file = bytes,
        FileWrite::Clear => file.clear(),
    }
}

impl StoreOnFiles {
    fn open(events: &[u8], marks: &[u8]) -> StoreOnFiles {
        let stored = opened(events, event_from);
        let ids = opened(marks, |value| EventId::from_str(value.as_str()?).ok());
        StoreOnFiles {
            events: stored.1,
            marks: ids.1,
            journal: EventJournal::restore(stored.0, ids.0),
        }
    }

    fn write(&mut self, writes: StoreWrites) {
        write(&mut self.events, writes.events);
        write(&mut self.marks, writes.marks);
    }

    fn append(&mut self, event: EventEnvelope) {
        let writes = self.journal.append_writes(event_line(&event));
        self.write(writes);
        self.journal.append(event);
    }

    fn mark(&mut self, id: EventId) {
        let writes = self.journal.mark_writes(id, id_line(&id));
        self.write(writes);
        self.journal.mark_delivered(id);
    }

    fn prune(&mut self, policy: ManualRetention) {
        if let Some(kept) = self.journal.plan_prune(&policy) {
            let writes = self.journal.prune_writes(&kept.iter().map(event_line).collect());
            self.write(writes);
            self.journal.replace_events(kept);
        }
    }

    fn sweep(&mut self, policy: AutoRetention) {
        if let Some(plan) = self.journal.plan_retention(&policy, &now(), &Vec::new()) {
            let writes = self.journal.sweep_writes(
                &plan,
                &plan.events.iter().map(event_line).collect(),
                &plan.delivered.iter().map(id_line).collect(),
            );
            self.write(writes);
            self.journal.replace_events(plan.events);
            self.journal.replace_delivered(&plan.delivered);
        }
    }

    fn check(&self) {
        let again = StoreOnFiles::open(&self.events, &self.marks);
        assert_eq!(again.journal.all(), self.journal.all());
        assert_eq!(again.journal.undelivered(), self.journal.undelivered());
    }
}

#[test]
fn reopened_store_is_the_same_after_every_change() {
    let mut store = StoreOnFiles::open(b"", b"");
    assert!(store.journal.all().is_empty());
    let events: Vec<_> = (1..=6)
        .map(|day| event_at(&format!("2026-06-{:02}T00:00:00Z", day * 3)))
        .collect();
    for event in &events {
        store.append(event.clone());
        store.check();
    }
    for at in [4, 1, 1, 2] {
        store.mark(events[at].id);
        store.check();
    }
    store.prune(ManualRetention::KeepMostRecent(5));
    store.check();
    store.sweep(AutoRetention {
        delivered_grace: Some(days(7)),
        ..AutoRetention::unbounded()
    });
    store.check();
    assert_eq!(
        store.journal.all(),
        vec![events[3].clone(), events[4].clone(), events[5].clone()]
    );
    assert_eq!(
        store.journal.undelivered(),
        vec![events[3].clone(), events[5].clone()]
    );
    store.append(events[0].clone());
    store.check();
}

#[test]
fn store_opened_after_a_torn_append_keeps_what_follows() {
    let first = event_at("2026-06-20T00:00:00Z");
    let next = event_at("2026-06-21T00:00:00Z");
    let mut torn = Vec::new();
    append_event(&mut torn, &first);
    torn.extend(br#"{"id":"trunc"#);
    let mut store = StoreOnFiles::open(&torn, b"");
    store.append(next.clone());
    store.check();
    assert_eq!(store.journal.all(), vec![first, next]);
}

#[test]
fn opening_a_file_gives_records_and_how_to_mend_it() {
    let event = event_at("2026-06-20T00:00:00Z");
    let mut bytes = frame(event_line(&event));
    let complete = bytes.len();
    bytes.extend(b"{\"id\":");
    let content = read_content(&bytes).expect("text");
    let parsed = parse_lines(&content, event_from);
    let opened = match open_file("store.jsonl", &bytes, &content, parsed) {
        Ok(opened) => opened,
        Err(_) => panic!("a torn file opens"),
    };
    assert_eq!(opened.records, vec![event]);
    assert_eq!(opened.mend.length, complete);
    assert!(opened.mend.ending.is_empty());
    bytes.extend(b"\n");
    let content = read_content(&bytes).expect("text");
    let parsed = parse_lines(&content, event_from);
    match open_file("store.jsonl", &bytes, &content, parsed) {
        Ok(_) => panic!("damage is an error"),
        Err(error) => assert_eq!(error.kind, StorageErrorKind::InvalidData),
    }
}

#[test]
fn kept_records_are_written_as_a_whole() {
    let mut queue = InMemoryDeadTriggerQueue::new();
    let mut file = Vec::new();
    for name in ["a", "b", "c"] {
        let record = dead_record(name);
        write(&mut file, queue.record_write(record_line(&record)));
        queue.record(record).unwrap();
    }
    let kept = queue
        .plan_prune(&ManualRetention::KeepMostRecent(2))
        .expect("one record goes");
    write(&mut file, queue.kept_write(&kept.iter().map(record_line).collect()));
    queue.replace(kept);
    assert_eq!(reopen_records(&file).expect("opens"), queue.all());
}

#[test]
fn errors_have_a_kind() {
    assert_eq!(StorageError::new("x").kind, StorageErrorKind::Other);
    let locked = StorageError::of_kind(StorageErrorKind::WouldBlock, "locked");
    assert_eq!(locked.kind, StorageErrorKind::WouldBlock);
    assert_eq!(locked.message, "locked");
}
