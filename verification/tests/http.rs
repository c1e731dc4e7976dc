use hmac::{Hmac, Mac};
use sha2::Sha256;
use std::sync::{Arc, Mutex};
use triggerlane::event::{
    EventEnvelope, EventId, EventMetadata, EventType, Source, EVENT_DISCORD_MESSAGE_CREATED,
    EVENT_GITHUB_ISSUE_CREATED, EVENT_GITHUB_PR_CREATED,
};
use triggerlane::http::{
    authorize_post, authorize_read, constant_time_eq, discord_message_created, event_response,
    get_event, github_webhook, list_events, needs_dispatch, parse_event_id, parse_source,
    plan_range_replay, post_events, range_response, receive_event, replay_event, replay_filter, replay_response,
    replay_to_http, signature_tag, slack_event, EventHandlingReport, HandlerError, Header,
    HttpRouteError, IncomingEvent, ListEventsQuery, RangePlan, ReadAuth, Readiness,
    ReplayRangeQuery, WebhookVerifier,
};
use triggerlane::ingest::{EventIngest, IngestStep};
use triggerlane::registry::TriggerRegistry;
use triggerlane::replay::ReplayError;
use triggerlane::runtime::{HandleReport, HandleStep, RuntimeError, TriggerRuntime};
use triggerlane::storage::{
    EventStore, InMemoryDeadTriggerQueue, InMemoryEventStore, StorageError,
};
use triggerlane::time::Timestamp;
use triggerlane::trace::NoopTraceSink;

fn header(name: &str, value: &str) -> Header {
    Header {
        name: name.to_owned(),
        value: Some(value.to_owned()),
    }
}

fn test_input() -> IncomingEvent {
    IncomingEvent {
        event_type: "event.manual.test".to_owned(),
        payload: vec![123, 125],
        metadata: EventMetadata::default(),
    }
}

fn test_event() -> EventEnvelope {
    EventEnvelope::new(
        Source::Http,
        EventType::new("event.manual.test"),
        b"{}".to_vec(),
    )
}

fn store_of(count: usize) -> InMemoryEventStore {
    let mut store = InMemoryEventStore::new();
    for _ in 0..count {
        store.append(test_event()).expect("append");
    }
    store
}

fn empty_runtime() -> TriggerRuntime<InMemoryDeadTriggerQueue, NoopTraceSink> {
    TriggerRuntime::new(TriggerRegistry::new())
}

fn sign(secret: &[u8], body: &[u8]) -> String {
    let mut mac = <Hmac<Sha256> as Mac>::new_from_slice(secret).expect("hmac key");
    mac.update(body);
    format!("sha256={}", hex::encode(mac.finalize().into_bytes()))
}

fn status<T>(result: Result<T, HttpRouteError>) -> u16 {
    match result {
        Ok(_) => 200,
        Err(error) => error.status(),
    }
}

#[test]
fn readyz_reflects_readiness_state() {
    // The probe and the shutdown path share one flag.
    let probe = Arc::new(Mutex::new(Readiness::ready()));
    let shutdown = Arc::clone(&probe);
    assert!(probe.lock().expect("flag").is_ready());
    assert_eq!(probe.lock().expect("flag").probe_status(), 200);

    shutdown.lock().expect("flag").set_ready(false);
    assert!(!probe.lock().expect("flag").is_ready());
    assert_eq!(probe.lock().expect("flag").probe_status(), 503);
    assert!(Readiness::default().is_ready());
}

#[test]
fn post_events_normalizes_http_source() {
    let event = post_events(IncomingEvent {
        event_type: "event.manual.test".to_owned(),
        payload: b"{}".to_vec(),
        metadata: EventMetadata {
            trace_id: Some("trace-1".to_owned()),
            correlation_id: None,
            tenant_id: None,
            idempotency_key: Some("idem-1".to_owned()),
            causation_id: None,
        },
    });

    assert_eq!(event.source, Source::Http);
    assert_eq!(event.event_type.as_str(), "event.manual.test");
    assert_eq!(event.payload, b"{}".to_vec());
    assert_eq!(event.metadata.trace_id.as_deref(), Some("trace-1"));
    assert_eq!(event.metadata.idempotency_key.as_deref(), Some("idem-1"));
}

#[test]
fn github_webhook_normalizes_issue_opened() {
    let event = github_webhook("issues", Some("opened"), b"{}".to_vec())
        .expect("webhook should normalize");

    assert_eq!(event.source, Source::GitHub);
    assert_eq!(event.event_type.as_str(), EVENT_GITHUB_ISSUE_CREATED);
}

#[test]
fn other_sources_are_normalized_or_refused() {
    let pull = github_webhook("pull_request", Some("opened"), b"{}".to_vec()).expect("normalizes");
    assert_eq!(pull.event_type.as_str(), EVENT_GITHUB_PR_CREATED);
    assert!(github_webhook("issues", None, Vec::new()).is_err());
    assert!(github_webhook("issues", Some("closed"), Vec::new()).is_err());
    let error = match github_webhook("push", Some("opened"), Vec::new()) {
        Ok(_) => panic!("push is not supported"),
        Err(error) => error,
    };
    assert_eq!(error.message(), "unsupported github event: push");
    let discord = discord_message_created(b"hi".to_vec());
    assert_eq!(discord.source, Source::Discord);
    assert_eq!(discord.event_type.as_str(), EVENT_DISCORD_MESSAGE_CREATED);
    assert_eq!(discord.payload, b"hi".to_vec());
    let slack = slack_event(b"yo".to_vec(), EventType::new("event.slack.x"));
    assert_eq!(slack.source, Source::Slack);
    assert_eq!(slack.event_type.as_str(), "event.slack.x");
}

#[test]
fn post_events_route_dispatches_to_handler() {
    assert!(authorize_post(None, &Vec::new(), b"").is_ok());
    let event = post_events(test_input());
    assert_eq!(event.source, Source::Http);
    assert_eq!(event.event_type.as_str(), "event.manual.test");

    let event_id = event.id.to_string();
    let (code, response) = event_response(
        event_id.clone(),
        EventHandlingReport::new(vec!["job-1".to_owned()], 0),
    );
    assert_eq!(code, 200);
    assert_eq!(response.event_id, event_id);
    assert_eq!(response.submitted[0], "job-1");
    assert_eq!(response.failure_count, 0);
    assert!(!response.accepted);
}

#[test]
fn post_events_through_ingest_persists_event() {
    let mut ingest = EventIngest::new(InMemoryEventStore::new(), empty_runtime());
    let event = post_events(test_input());
    let event_id = event.id.to_string();
    let step = match ingest.ingest(event) {
        Ok(step) => step,
        Err(_) => panic!("stored"),
    };
    let report = match step {
        IngestStep::Deduplicated(_) => panic!("nothing is stored yet"),
        IngestStep::Handle(run) => match ingest.runtime_mut().advance(run) {
            Ok(HandleStep::Finished(finished)) => {
                ingest.finish_ingest(finished).expect("delivered")
            }
            _ => panic!("no trigger matches"),
        },
    };
    let (code, response) = event_response(event_id, EventHandlingReport::of_ingest(report));
    assert_eq!(code, 200);

    let stored = ingest.store().all();
    assert_eq!(stored.len(), 1);
    assert_eq!(stored[0].id.to_string(), response.event_id);
    assert_eq!(stored[0].source, Source::Http);
}

#[test]
fn async_accept_returns_202_durably_stores_and_queues_for_dispatch() {
    let mut ingest = EventIngest::new(InMemoryEventStore::new(), empty_runtime());
    let event = post_events(test_input());
    let event_id = event.id.to_string();
    let report = ingest.accept(event).expect("accept");
    assert!(needs_dispatch(&report));

    // Async ingestion answers 202 Accepted with `accepted: true`.
    let (code, response) = event_response(event_id, EventHandlingReport::accepted());
    assert_eq!(code, 202);
    assert!(response.accepted);
    assert!(response.submitted.is_empty());

    // The event is durably stored and waits for the dispatcher.
    assert_eq!(ingest.store().all().len(), 1);
    assert_eq!(ingest.store().undelivered()[0].source, Source::Http);
}

#[test]
fn accepted_duplicate_is_not_dispatched() {
    let mut ingest = EventIngest::new(InMemoryEventStore::new(), empty_runtime());
    let event = || {
        test_event().with_metadata(EventMetadata {
            idempotency_key: Some("k".to_owned()),
            ..EventMetadata::default()
        })
    };
    assert!(needs_dispatch(&ingest.accept(event()).expect("accept")));
    assert!(!needs_dispatch(&ingest.accept(event()).expect("accept")));
}

#[test]
fn invalid_json_is_rejected_before_handler() {
    let parsed = serde_json::from_slice::<serde_json::Value>(b"{not-json");
    let error = match parsed {
        Ok(_) => panic!("not json"),
        Err(error) => error.to_string(),
    };
    match receive_event(Err(error.clone())) {
        Ok(_) => panic!("no event"),
        Err(refusal) => {
            assert_eq!(refusal.status(), 400);
            assert_eq!(refusal.message(), format!("invalid event json: {error}"));
        }
    }
    match receive_event(Ok(test_input())) {
        Ok(event) => assert_eq!(event.payload, vec![123, 125]),
        Err(_) => panic!("an event"),
    }
}

#[test]
fn read_router_gets_event_and_404s_unknown() {
    let mut store = InMemoryEventStore::new();
    let event = test_event();
    let id = event.id;
    store.append(event.clone()).expect("append");

    // A retained event is returned by id.
    let asked = match parse_event_id(&id.to_string()) {
        Ok(asked) => asked,
        Err(_) => panic!("id parses"),
    };
    match get_event(&store, asked) {
        Ok(found) => assert_eq!(found, event),
        Err(_) => panic!("event is retained"),
    }

    // An unknown id is a 404, not a 500.
    let missing = match parse_event_id("00000000-0000-4000-8000-000000000000") {
        Ok(missing) => missing,
        Err(_) => panic!("id parses"),
    };
    assert_eq!(status(get_event(&store, missing)), 404);
    assert_eq!(status(replay_event(&empty_runtime(), &store, missing)), 404);
    assert!(replay_event(&empty_runtime(), &store, id).is_ok());
}

#[test]
fn read_router_lists_events_and_dead_triggers() {
    let store = store_of(1);
    let query = ListEventsQuery {
        limit: None,
        offset: None,
    };
    assert_eq!(list_events(&store, &query).len(), 1);
    let runtime = empty_runtime();
    assert!(runtime.dead_triggers().is_empty());
}

#[test]
fn read_router_enforces_bearer_token_when_configured() {
    let auth = ReadAuth::new(b"s3cret".to_vec());
    let read = |headers: Vec<Header>| status(authorize_read(Some(&auth), &headers));

    // No token → 401.
    assert_eq!(read(Vec::new()), 401);
    // Wrong token → 401.
    assert_eq!(read(vec![header("authorization", "Bearer nope")]), 401);
    // Correct token → 200.
    assert_eq!(read(vec![header("authorization", "Bearer s3cret")]), 200);

    // Another scheme, another length, a value that is no text: 401. No guard: 200.
    assert_eq!(read(vec![header("authorization", "bearer s3cret")]), 401);
    assert_eq!(read(vec![header("authorization", "Bearer s3cret ")]), 401);
    assert_eq!(
        read(vec![Header {
            name: "authorization".to_owned(),
            value: None
        }]),
        401
    );
    assert_eq!(status(authorize_read(None, &Vec::new())), 200);
}

#[test]
fn read_router_list_events_honors_limit_and_offset() {
    let store = store_of(3);
    let count = |offset: Option<usize>, limit: Option<usize>| {
        list_events(&store, &ListEventsQuery { limit, offset }).len()
    };

    // limit caps the page; offset skips from the front; together they page.
    assert_eq!(count(None, Some(2)), 2);
    assert_eq!(count(Some(2), None), 1);
    assert_eq!(count(Some(1), Some(1)), 1);
    assert_eq!(count(Some(5), None), 0);
}

#[test]
fn listing_pages_in_append_order() {
    let store = store_of(5);
    let page = |offset: usize, limit: usize| {
        list_events(
            &store,
            &ListEventsQuery {
                limit: Some(limit),
                offset: Some(offset),
            },
        )
    };
    let mut joined = page(0, 2);
    joined.extend(page(2, 2));
    joined.extend(page(4, 2));
    assert_eq!(joined, store.all());
    assert!(page(0, 0).is_empty());
    assert_eq!(page(usize::MAX, usize::MAX).len(), 0);
    assert_eq!(page(1, usize::MAX).len(), 4);
    let many = store_of(1001);
    let query = ListEventsQuery {
        limit: None,
        offset: None,
    };
    assert_eq!(list_events(&many, &query).len(), 1000);
}

#[test]
fn webhook_verifier_accepts_valid_and_rejects_tampered_or_missing() {
    let secret = b"topsecret";
    let body = br#"{"event_type":"x"}"#;
    let verifier = WebhookVerifier::github(secret.to_vec());

    let headers = vec![header("x-hub-signature-256", &sign(secret, body))];

    assert!(verifier.verify(&headers, body));
    assert!(!verifier.verify(&headers, b"tampered body"));
    assert!(!verifier.verify(&Vec::new(), body));
}

#[test]
fn signatures_are_hex_with_an_optional_prefix() {
    assert_eq!(signature_tag("sha256=00fF"), Some(vec![0, 255]));
    assert_eq!(signature_tag("00ff"), Some(vec![0, 255]));
    assert_eq!(signature_tag("sha256="), Some(Vec::new()));
    assert_eq!(signature_tag("sha256=0"), None);
    assert_eq!(signature_tag("sha256=sha256=00"), None);
    assert_eq!(signature_tag("zz"), None);
    let secret = b"k";
    let verifier = WebhookVerifier::new(secret.to_vec(), "x-signature");
    let whole = sign(secret, b"body");
    let bare = &whole[7..];
    assert!(verifier.verify(&vec![header("x-signature", bare)], b"body"));
    // A shorter tag is no signature, even when it is a prefix of one.
    assert!(!verifier.verify(&vec![header("x-signature", &bare[..32])], b"body"));
    // The first value of the header counts.
    assert!(!verifier.verify(
        &vec![header("x-signature", "00"), header("x-signature", bare)],
        b"body"
    ));
    assert!(!verifier.verify(&vec![header("x-hub-signature-256", bare)], b"body"));
}

#[test]
fn header_names_do_not_distinguish_case() {
    let verifier = WebhookVerifier::new(b"k".to_vec(), "X-Signature");
    let headers = vec![header("x-signature", &sign(b"k", b"body"))];
    assert!(verifier.verify(&headers, b"body"));
    assert!(!verifier.verify(&headers, b"other"));
}

#[test]
fn reports_and_inputs_are_copied_whole() {
    let report = EventHandlingReport::new(vec!["a".to_owned()], 2);
    assert_eq!(report.clone(), report);
    let (_, response) = event_response("e".to_owned(), report);
    assert_eq!(response.clone(), response);
    let input = test_input().clone();
    assert_eq!(input.event_type, "event.manual.test");
    assert_eq!(input.payload, vec![123, 125]);
    assert_eq!(ListEventsQuery::default().limit, None);
}

#[test]
fn signed_request_accepted_unsigned_rejected() {
    let secret = b"shh";
    let body = br#"{"event_type":"event.manual.test","payload":[]}"#;
    let verifier = WebhookVerifier::github(secret.to_vec());
    let signed = vec![
        header("content-type", "application/json"),
        header("x-hub-signature-256", &sign(secret, body)),
    ];
    let unsigned = vec![header("content-type", "application/json")];
    assert_eq!(status(authorize_post(Some(&verifier), &signed, body)), 200);
    assert_eq!(status(authorize_post(Some(&verifier), &unsigned, body)), 401);
    assert_eq!(status(authorize_post(None, &unsigned, body)), 200);
}

#[test]
fn comparison_covers_every_byte() {
    assert!(constant_time_eq(b"", b""));
    assert!(constant_time_eq(b"abc", b"abc"));
    assert!(!constant_time_eq(b"abc", b"abd"));
    assert!(!constant_time_eq(b"xbc", b"abc"));
    assert!(!constant_time_eq(b"abc", b"abcd"));
}

#[test]
fn range_requests_are_previewed_replayed_or_refused() {
    let store = store_of(2);
    let query = |source: Option<&str>, dry_run: bool| ReplayRangeQuery {
        start: Timestamp::new(0, 0).expect("epoch"),
        end: Timestamp::parse("9999-01-01T00:00:00Z").expect("parses"),
        event_type: Some("event.manual.test".to_owned()),
        source: source.map(str::to_owned),
        dry_run,
    };
    let runtime = empty_runtime();
    match plan_range_replay(&runtime, &store, query(Some("Http"), true)) {
        Ok(RangePlan::Preview(response)) => {
            assert_eq!(response.matched, 2);
            assert!(response.dry_run);
        }
        _ => panic!("a preview is expected"),
    }
    assert!(matches!(
        plan_range_replay(&runtime, &store, query(None, false)),
        Ok(RangePlan::Replay(_))
    ));
    match plan_range_replay(&runtime, &store, query(Some("Cron"), true)) {
        Ok(RangePlan::Preview(response)) => assert_eq!(response.matched, 0),
        _ => panic!("a preview is expected"),
    }
    match plan_range_replay(&runtime, &store, query(Some("http"), false)) {
        Err(error) => {
            assert_eq!(error.status(), 400);
            assert_eq!(error.message(), "invalid event json: unknown source \"http\"");
        }
        Ok(_) => panic!("unknown source"),
    }
    let done = range_response(2);
    assert_eq!((done.matched, done.dry_run), (2, false));
    assert!(replay_filter(None, None).is_ok());
    assert!(parse_source("Slack").is_ok());
    assert_eq!(status(parse_source("slack")), 400);
}

#[test]
fn errors_have_their_status_and_message() {
    let unauthorized = HttpRouteError::Unauthorized;
    assert_eq!(unauthorized.status(), 401);
    assert!(!unauthorized.is_server_error());
    let bad = match parse_event_id("x") {
        Ok(_) => panic!("not an id"),
        Err(error) => error,
    };
    assert_eq!(bad.status(), 400);
    assert!(bad.message().starts_with("invalid event json: invalid event id: "));
    assert_eq!(bad.loggable(), None);
    let missing = replay_to_http(ReplayError::EventNotFound("e".to_owned()));
    assert_eq!(missing.status(), 404);
    assert_eq!(missing.message(), "not found: e");
    let failed = replay_to_http(ReplayError::Runtime(RuntimeError::Storage(
        StorageError::new("disk"),
    )));
    assert_eq!(failed.status(), 500);
    assert!(failed.is_server_error());
    assert_eq!(
        failed.message(),
        "event handler failed: durable storage error: disk"
    );
    assert_eq!(
        HandlerError::new("m").message(),
        "event handler failed: m"
    );
}

#[test]
fn replays_report_the_event_they_handled() {
    let id = EventId::from_bits(1);
    let response = replay_response(
        id,
        HandleReport {
            submitted: vec!["j".to_owned()],
            failed: Vec::new(),
        },
    );
    assert_eq!(response.event_id, "00000000-0000-0000-0000-000000000001");
    assert_eq!(response.submitted, vec!["j"]);
    assert_eq!(response.failure_count, 0);
    assert!(!response.accepted);
}
