use serde_json::Value;
use triggerlane::config::{
    build_registry, default_enabled, default_registry, BindSpec, MatchSpec, TriggerEntry,
    TriggerFile,
};
use triggerlane::event::{EventEnvelope, EventType, Source, EVENT_GITHUB_ISSUE_CREATED};
use triggerlane::registry::TriggerRegistry;

fn issue_event(payload: &[u8]) -> EventEnvelope {
    EventEnvelope::new(
        Source::GitHub,
        EventType::new(EVENT_GITHUB_ISSUE_CREATED),
        payload.to_vec(),
    )
}

fn names(registry: &TriggerRegistry, event: &EventEnvelope) -> Vec<String> {
    registry
        .matching(event)
        .iter()
        .map(|registration| registration.name().to_owned())
        .collect()
}

fn issue_created() -> MatchSpec {
    MatchSpec::EventType {
        event_type: "event.github.issue.created".to_owned(),
    }
}

fn field(pointer: &str, value: Value) -> MatchSpec {
    MatchSpec::PayloadFieldEquals {
        pointer: pointer.to_owned(),
        value,
    }
}

fn entry(name: &str, priority: i32, enabled: bool, condition: MatchSpec, kind: &str) -> TriggerEntry {
    TriggerEntry {
        name: name.to_owned(),
        priority,
        enabled,
        condition,
        bind: BindSpec {
            lane: "l".to_owned(),
            kind: kind.to_owned(),
            max_attempts: 1,
        },
    }
}

#[test]
fn composed_condition_matches_and_binds() {
    let registry = build_registry(TriggerFile {
        triggers: vec![TriggerEntry {
            name: "bug-projection".to_owned(),
            priority: 10,
            enabled: default_enabled(),
            condition: MatchSpec::AllOf {
                conditions: vec![issue_created(), field("/label", Value::from("bug"))],
            },
            bind: BindSpec {
                lane: "projection".to_owned(),
                kind: "CreateProjectionJob".to_owned(),
                max_attempts: 3,
            },
        }],
    });

    let matched = issue_event(br#"{"label":"bug"}"#);
    assert_eq!(names(&registry, &matched), vec!["bug-projection"]);

    let other = issue_event(br#"{"label":"docs"}"#);
    assert_eq!(registry.matching(&other).len(), 0);

    let job = registry.matching(&matched)[0]
        .bind(&matched)
        .expect("event should bind");
    assert_eq!(job.lane, "projection");
    assert_eq!(job.kind, "CreateProjectionJob");
    assert_eq!(job.max_attempts, 3);
    assert_eq!(job.payload, matched.payload);
}

#[test]
fn disabled_entry_does_not_match_and_priority_orders_matches() {
    let registry = build_registry(TriggerFile {
        triggers: vec![
            entry("low", 1, default_enabled(), issue_created(), "Low"),
            entry("high", 100, default_enabled(), issue_created(), "High"),
            entry("off", 0, false, issue_created(), "Off"),
        ],
    });

    let event = issue_event(b"{}");
    assert_eq!(names(&registry, &event), vec!["high", "low"]);
}

#[test]
fn entries_of_one_priority_keep_the_order_of_the_file() {
    let registry = build_registry(TriggerFile {
        triggers: vec![
            entry("a", 5, true, issue_created(), "A"),
            entry("b", 7, true, issue_created(), "B"),
            entry("c", 5, true, issue_created(), "C"),
            entry("d", -1, true, issue_created(), "D"),
            entry("e", 7, true, issue_created(), "E"),
        ],
    });
    assert_eq!(
        names(&registry, &issue_event(b"{}")),
        vec!["b", "e", "a", "c", "d"]
    );
}

#[test]
fn conditions_nest() {
    let registry = build_registry(TriggerFile {
        triggers: vec![entry(
            "nested",
            0,
            true,
            MatchSpec::AnyOf {
                conditions: vec![
                    MatchSpec::AllOf {
                        conditions: vec![
                            field("/a", Value::from(1)),
                            MatchSpec::AnyOf {
                                conditions: vec![
                                    field("/b", Value::from(2)),
                                    field("/b", Value::Null),
                                ],
                            },
                        ],
                    },
                    MatchSpec::EventType {
                        event_type: "other".to_owned(),
                    },
                ],
            },
            "N",
        )],
    });
    let count = |payload: &[u8]| registry.matching(&issue_event(payload)).len();
    assert_eq!(count(br#"{"a":1,"b":2}"#), 1);
    assert_eq!(count(br#"{"a":1,"b":null}"#), 1);
    assert_eq!(count(br#"{"a":1,"b":3}"#), 0);
    assert_eq!(count(br#"{"a":1}"#), 0);
    assert_eq!(count(br#"{"b":2}"#), 0);
}

#[test]
fn default_registry_projects_created_issues() {
    let registry = default_registry();
    let event = issue_event(b"{}");
    assert_eq!(names(&registry, &event), vec!["github-issue-projection"]);
    let job = registry.matching(&event)[0].bind(&event).expect("binds");
    assert_eq!((job.lane.as_str(), job.kind.as_str()), ("projection", "CreateProjectionJob"));
    assert_eq!(job.max_attempts, 3);
    let other = EventEnvelope::new(Source::Manual, EventType::new("event.other"), Vec::new());
    assert!(registry.matching(&other).is_empty());
}
