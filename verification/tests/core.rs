use serde_json::Value;
use triggerlane::event::{
    EventEnvelope, EventId, EventMetadata, EventType, Source, EVENT_CRON_DAILY,
    EVENT_GITHUB_ISSUE_CREATED,
};
use triggerlane::time::{TimeSpan, Timestamp, MAX_SECONDS, MIN_SECONDS};
use triggerlane::trigger::{
    AllOf, AnyOf, Binding, BindingError, EventTypeTrigger, PayloadFieldEquals, Trigger,
    WorklaneJobBinding,
};

fn metadata(correlation: Option<&str>, tenant: Option<&str>) -> EventMetadata {
    EventMetadata {
        correlation_id: correlation.map(str::to_owned),
        tenant_id: tenant.map(str::to_owned),
        ..EventMetadata::default()
    }
}

fn issue_event(payload: &[u8]) -> EventEnvelope {
    EventEnvelope::new(
        Source::GitHub,
        EventType::new(EVENT_GITHUB_ISSUE_CREATED),
        payload.to_vec(),
    )
}

#[test]
fn envelope_preserves_replay_fields() {
    let metadata = EventMetadata {
        trace_id: Some("trace-1".to_owned()),
        correlation_id: Some("corr-1".to_owned()),
        tenant_id: Some("tenant-1".to_owned()),
        idempotency_key: Some("idem-1".to_owned()),
        causation_id: None,
    };

    let event = issue_event(br#"{"issue":1}"#).with_metadata(metadata.clone());

    assert_eq!(event.source, Source::GitHub);
    assert_eq!(event.event_type.as_str(), EVENT_GITHUB_ISSUE_CREATED);
    assert_eq!(event.payload, br#"{"issue":1}"#.to_vec());
    assert_eq!(event.metadata, metadata);
}

#[test]
fn follow_up_links_to_cause_and_propagates_chain() {
    let cause =
        issue_event(br#"{"issue":1}"#).with_metadata(metadata(Some("corr-1"), Some("tenant-1")));

    let follow_up = EventEnvelope::follow_up(
        &cause,
        Source::Manual,
        EventType::new("event.projection.created"),
        br#"{"projection":1}"#.to_vec(),
    );

    assert_eq!(follow_up.metadata.causation_id, Some(cause.id.to_string()));
    assert_eq!(follow_up.metadata.correlation_id, Some("corr-1".to_owned()));
    assert_eq!(follow_up.metadata.tenant_id, Some("tenant-1".to_owned()));
    assert_ne!(follow_up.id, cause.id);
    assert_eq!(follow_up.metadata.idempotency_key, None);
}

#[test]
fn follow_up_starts_chain_from_cause_id_when_no_correlation() {
    let cause = EventEnvelope::new(
        Source::Cron,
        EventType::new(EVENT_CRON_DAILY),
        b"{}".to_vec(),
    );

    let follow_up = EventEnvelope::follow_up(
        &cause,
        Source::Manual,
        EventType::new(EVENT_CRON_DAILY),
        b"{}".to_vec(),
    );

    assert_eq!(
        follow_up.metadata.correlation_id,
        Some(cause.id.to_string())
    );
    assert_eq!(follow_up.metadata.causation_id, Some(cause.id.to_string()));
}

#[test]
fn follow_up_chain_keeps_correlation_and_tenant() {
    let cause = issue_event(b"{}").with_metadata(metadata(None, Some("tenant-1")));
    let first = EventEnvelope::follow_up(
        &cause,
        Source::Manual,
        EventType::new("event.step"),
        Vec::new(),
    );
    let second = EventEnvelope::follow_up(
        &first,
        Source::Manual,
        EventType::new("event.step"),
        Vec::new(),
    );
    assert_eq!(second.metadata.correlation_id, Some(cause.id.to_string()));
    assert_eq!(second.metadata.tenant_id, Some("tenant-1".to_owned()));
    assert_eq!(second.metadata.causation_id, Some(first.id.to_string()));
}

#[test]
fn event_id_text_round_trips() {
    let id = EventId::from_bits(0x0123_4567_89ab_4def_8123_4567_89ab_cdef);
    assert_eq!(id.to_string(), "01234567-89ab-4def-8123-456789abcdef");
    assert_eq!(EventId::from_str(&id.to_string()), Ok(id));
    let fresh = EventId::new();
    assert_eq!(EventId::from_str(&fresh.to_string()), Ok(fresh));
    // Other spellings of the same identity are read, too.
    assert_eq!(
        EventId::from_str("{01234567-89AB-4DEF-8123-456789ABCDEF}"),
        Ok(id)
    );
    assert_eq!(
        EventId::from_str("0123456789ab4def8123456789abcdef"),
        Ok(id)
    );
    assert!(EventId::from_str("nope").is_err());
}

#[test]
fn fresh_event_ids_are_random_version_4() {
    let a = EventId::new();
    let b = EventId::default();
    assert_ne!(a, b);
    assert_eq!((a.bits() >> 76) & 0xf, 4);
    assert_eq!((b.bits() >> 62) & 0x3, 2);
}

#[test]
fn sources_are_read_back_from_their_names() {
    for source in [
        Source::Http,
        Source::GitHub,
        Source::Discord,
        Source::Slack,
        Source::Cron,
        Source::Manual,
    ] {
        assert_eq!(Source::from_name(source.name()), Some(source));
    }
    assert_eq!(Source::from_name("github"), None);
}

#[test]
fn event_type_trigger_matches_only_configured_type() {
    let event = issue_event(b"{}");

    assert!(EventTypeTrigger::new(EVENT_GITHUB_ISSUE_CREATED).matches(&event));
    assert!(!EventTypeTrigger::new("event.discord.message.created").matches(&event));
}

#[test]
fn worklane_binding_preserves_event_payload() {
    let event = issue_event(br#"{"issue":1}"#);
    let binding = WorklaneJobBinding::new("projection", "CreateProjectionJob", 3);

    let job = binding.bind(&event).expect("event should bind");

    assert_eq!(job.lane, "projection");
    assert_eq!(job.kind, "CreateProjectionJob");
    assert_eq!(job.payload, br#"{"issue":1}"#);
    assert_eq!(job.max_attempts, 3);
}

#[test]
fn binding_payload_transform_shapes_the_job_payload() {
    let event = issue_event(br#"{"issue":1}"#);
    let binding = WorklaneJobBinding::new("projection", "CreateProjectionJob", 3)
        .with_payload_transform(|_event| Ok(b"shaped".to_vec()));

    let job = binding.bind(&event).expect("event should bind");

    assert_eq!(job.payload, b"shaped");
}

#[test]
fn binding_payload_transform_can_reject_the_event() {
    let event = issue_event(b"{}");
    let binding = WorklaneJobBinding::new("projection", "CreateProjectionJob", 3)
        .with_payload_transform(|_event| Err(BindingError::Rejected("no payload".to_owned())));

    assert!(binding.bind(&event).is_err());
}

#[test]
fn binding_rejection_message_names_the_reason() {
    let error = BindingError::Rejected("no payload".to_owned());
    assert_eq!(error.message(), "binding rejected event: no payload");
}

#[test]
fn payload_field_equals_matches_configured_value() {
    let event = issue_event(br#"{"label":"bug","number":7}"#);
    assert!(PayloadFieldEquals::new("/label", Value::from("bug")).matches(&event));
}

#[test]
fn payload_field_equals_no_match_on_different_value() {
    let event = issue_event(br#"{"label":"docs"}"#);
    assert!(!PayloadFieldEquals::new("/label", Value::from("bug")).matches(&event));
}

#[test]
fn payload_field_equals_no_match_when_field_absent() {
    let event = issue_event(br#"{"number":7}"#);
    assert!(!PayloadFieldEquals::new("/label", Value::from("bug")).matches(&event));
}

#[test]
fn payload_field_equals_no_match_on_non_json_payload() {
    let event = issue_event(b"not json");
    assert!(!PayloadFieldEquals::new("/label", Value::from("bug")).matches(&event));
}

#[test]
fn payload_field_equals_matches_nested_pointer() {
    let event = issue_event(br#"{"issue":{"state":"open"}}"#);
    assert!(PayloadFieldEquals::new("/issue/state", Value::from("open")).matches(&event));
}

#[test]
fn payload_field_equals_compares_values_not_texts() {
    let event = issue_event(br#"{"a":-0.0,"b":[1, 2],"c":7}"#);
    assert!(PayloadFieldEquals::new("/a", Value::from(0.0)).matches(&event));
    assert!(PayloadFieldEquals::new("/b/1", Value::from(2)).matches(&event));
    assert!(!PayloadFieldEquals::new("/c", Value::from("7")).matches(&event));
    assert!(PayloadFieldEquals::new(
        "",
        serde_json::from_str(r#"{"c":7,"b":[1,2],"a":0.0}"#).expect("json")
    )
    .matches(&event));
}

#[test]
fn all_of_matches_only_when_every_condition_matches() {
    let event = issue_event(br#"{"label":"bug"}"#);
    let trigger = AllOf::new(vec![
        Box::new(EventTypeTrigger::new(EVENT_GITHUB_ISSUE_CREATED)),
        Box::new(PayloadFieldEquals::new("/label", Value::from("bug"))),
    ]);
    assert!(trigger.matches(&event));

    let mismatched = AllOf::new(vec![
        Box::new(EventTypeTrigger::new(EVENT_GITHUB_ISSUE_CREATED)),
        Box::new(PayloadFieldEquals::new("/label", Value::from("docs"))),
    ]);
    assert!(!mismatched.matches(&event));
}

#[test]
fn any_of_matches_when_at_least_one_condition_matches() {
    let event = issue_event(br#"{"label":"bug"}"#);
    let trigger = AnyOf::new(vec![
        Box::new(PayloadFieldEquals::new("/label", Value::from("docs"))),
        Box::new(PayloadFieldEquals::new("/label", Value::from("bug"))),
    ]);
    assert!(trigger.matches(&event));

    let none = AnyOf::new(vec![
        Box::new(PayloadFieldEquals::new("/label", Value::from("docs"))),
        Box::new(PayloadFieldEquals::new("/label", Value::from("chore"))),
    ]);
    assert!(!none.matches(&event));
}

#[test]
fn copied_triggers_match_the_same_events() {
    let event = issue_event(br#"{"label":"bug"}"#);
    let by_type = EventTypeTrigger::new(EVENT_GITHUB_ISSUE_CREATED);
    assert!(by_type.clone().matches(&event));
    let by_field = PayloadFieldEquals::new("/label", Value::from("bug"));
    assert!(by_field.clone().matches(&event));
    assert!(!by_field.clone().matches(&issue_event(b"{}")));
}

#[test]
fn empty_combinators_are_neutral() {
    let event = issue_event(b"{}");
    assert!(AllOf::new(Vec::new()).matches(&event));
    assert!(!AnyOf::new(Vec::new()).matches(&event));
}

#[test]
fn timestamps_are_parsed_ordered_and_subtracted() {
    let start = Timestamp::parse("2026-06-01T00:00:00Z").expect("parses");
    let end = Timestamp::parse("2026-06-02 00:00:00.5+00:00").expect("parses");
    assert_eq!(start.seconds(), 1_780_272_000);
    assert_eq!(end.subsec_nanos(), 500_000_000);
    assert!(end.at_or_after(&start));
    assert!(start.at_or_after(&start));
    assert!(!start.at_or_after(&end));
    let day = TimeSpan::seconds(86_400).expect("a day is a span");
    assert!(end.since(&start).exceeds(&day));
    assert!(!start.since(&start).exceeds(&TimeSpan::seconds(0).expect("zero")));
    assert_eq!(start.since(&end).to_delay(), None);
    assert_eq!(
        end.since(&start).to_delay().expect("positive").nanos,
        86_400_500_000_000
    );
    assert!(Timestamp::parse("yesterday").is_err());
}

#[test]
fn timestamps_cover_the_whole_calendar_range() {
    let low = chrono::DateTime::<chrono::Utc>::MIN_UTC;
    let high = chrono::DateTime::<chrono::Utc>::MAX_UTC;
    assert_eq!(low.timestamp(), MIN_SECONDS);
    assert_eq!(high.timestamp(), MAX_SECONDS);
    assert!(Timestamp::new(MIN_SECONDS, 0).is_some());
    assert!(Timestamp::new(MIN_SECONDS - 1, 0).is_none());
    assert!(Timestamp::new(MAX_SECONDS, 1_999_999_999).is_some());
    assert!(Timestamp::new(MAX_SECONDS + 1, 0).is_none());
    assert!(Timestamp::new(0, 1_000_000_000).is_none());
    assert!(Timestamp::new(-1, 1_500_000_000).is_some());
    let first = Timestamp::new(MIN_SECONDS, 0).expect("first");
    let last = Timestamp::new(MAX_SECONDS, 999_999_999).expect("last");
    assert_eq!(
        last.since(&first).to_delay().expect("positive").nanos,
        ((MAX_SECONDS - MIN_SECONDS) as u128) * 1_000_000_000 + 999_999_999
    );
    let now = Timestamp::now();
    assert!(now.at_or_after(&Timestamp::new(0, 0).expect("epoch")));
    assert!(now.subsec_nanos() < 1_000_000_000);
}

#[test]
fn leap_seconds_count_once() {
    let leap = Timestamp::parse("2016-12-31T23:59:60.5Z").expect("leap second parses");
    assert_eq!(leap.subsec_nanos(), 1_500_000_000);
    let before = Timestamp::parse("2016-12-31T23:59:59Z").expect("parses");
    let after = Timestamp::parse("2017-01-01T00:00:00Z").expect("parses");
    assert_eq!(
        leap.since(&before).to_delay().expect("positive").nanos,
        1_500_000_000
    );
    // The day after begins earlier in its day than the leap second stands in its own.
    let parts = |a: &Timestamp| {
        chrono::DateTime::<chrono::Utc>::from_timestamp(a.seconds(), a.subsec_nanos()).expect("valid")
    };
    for (to, from) in [(&after, &leap), (&leap, &after), (&before, &leap), (&leap, &before)] {
        let expected = parts(to) - parts(from);
        let total = expected.num_seconds() as i128 * 1_000_000_000 + expected.subsec_nanos() as i128;
        let got = match to.since(from).to_delay() {
            Some(delay) => delay.nanos as i128,
            None => -1,
        };
        assert_eq!(got.max(-1), total.max(-1));
    }
}

#[test]
fn spans_have_a_limit() {
    assert!(TimeSpan::seconds(9_223_372_036_854_775).is_some());
    assert!(TimeSpan::seconds(9_223_372_036_854_776).is_none());
    assert!(TimeSpan::seconds(-9_223_372_036_854_775).is_some());
    assert!(TimeSpan::seconds(-9_223_372_036_854_776).is_none());
    assert_eq!(
        TimeSpan::seconds(90).expect("span").to_delay().expect("delay").nanos,
        90_000_000_000
    );
    let now = Timestamp::parse("2026-06-20T00:00:00Z").expect("parses");
    let week = TimeSpan::seconds(7 * 86_400).expect("span");
    assert_eq!(
        now.minus(&week),
        Some(Timestamp::parse("2026-06-13T00:00:00Z").expect("parses"))
    );
    let forever = TimeSpan::seconds(9_223_372_036_854_775).expect("span");
    assert_eq!(now.minus(&forever), None);
}
