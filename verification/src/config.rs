//! Declarative trigger configuration: rules from events to jobs that an operator writes
//! down without touching code.
//!
//! A configuration is a list of entries, each a match condition bound to a job. Reading it
//! from JSON is left to the program; this module builds the registry.

use crate::event::{EventView, EVENT_GITHUB_ISSUE_CREATED};
use crate::json::json_text;
use crate::registry::{with_registrations, RegisteredTrigger, TriggerRegistry};
use crate::trigger::{
    field_matches, AllOf, AnyOf, Binding, EventTypeTrigger, FieldView, JobView, PayloadFieldEquals,
    Trigger, WorklaneJob, WorklaneJobBinding,
};
use std::sync::Arc;
use vstd::prelude::*;

verus! {

/// A trigger configuration.
pub struct TriggerFile {
    pub triggers: Vec<TriggerEntry>,
}

/// One configured trigger: a match condition bound to a Worklane job.
pub struct TriggerEntry {
    pub name: String,
    pub priority: i32,
    pub enabled: bool,
    pub condition: MatchSpec,
    pub bind: BindSpec,
}

/// Entries are enabled unless they say otherwise.
pub fn default_enabled() -> (r: bool)
    ensures
        r,
{
    true
}

/// A match condition: an event type, the value of a payload field, or a combination.
pub enum MatchSpec {
    EventType { event_type: String },
    PayloadFieldEquals { pointer: String, value: serde_json::Value },
    AllOf { conditions: Vec<MatchSpec> },
    AnyOf { conditions: Vec<MatchSpec> },
}

/// The job that a matched event is bound to. The event's payload is passed through.
pub struct BindSpec {
    pub lane: String,
    pub kind: String,
    pub max_attempts: u32,
}

/// Whether a condition holds of an event.
pub open spec fn holds(condition: MatchSpec, event: EventView) -> bool
    decreases condition,
{
    match condition {
        MatchSpec::EventType { event_type } => event.event_type == event_type@,
        MatchSpec::PayloadFieldEquals { pointer, value } => field_matches(
            event.payload,
            FieldView { pointer: pointer@, expected: json_text(value) },
        ),
        MatchSpec::AllOf { conditions } => forall|i: int|
            0 <= i < conditions@.len() ==> holds(#[trigger] conditions@[i], event),
        MatchSpec::AnyOf { conditions } => exists|i: int|
            0 <= i < conditions@.len() && holds(#[trigger] conditions@[i], event),
    }
}

/// Put an item at the end of a list.
fn put<A>(item: A, list: &mut Vec<A>)
    ensures
        final(list)@ == old(list)@.push(item),
{
    list.push(item);
}

/// The trigger that matches exactly the events of which a condition holds.
pub fn build_condition(condition: MatchSpec) -> (r: Box<dyn Trigger>)
    ensures
        forall|event: EventView| #[trigger] r.accepts(event) == holds(condition, event),
    decreases condition,
{
    match condition {
        MatchSpec::EventType { event_type } => {
            return Box::new(EventTypeTrigger::new(event_type.as_str()));
        },
        MatchSpec::PayloadFieldEquals { pointer, value } => {
            return Box::new(PayloadFieldEquals::new(pointer.as_str(), value));
        },
        MatchSpec::AllOf { conditions } => {
            let all = AllOf::new(build_conditions(conditions));
            assert forall|event: EventView| #[trigger] all.accepts(event) == holds(
                condition,
                event,
            ) by {
                assert forall|i: int| 0 <= i < conditions@.len() implies holds(
                    #[trigger] conditions@[i],
                    event,
                ) == all.parts()[i].accepts(event) by {}
            }
            return Box::new(all);
        },
        MatchSpec::AnyOf { conditions } => {
            let any = AnyOf::new(build_conditions(conditions));
            assert forall|event: EventView| #[trigger] any.accepts(event) == holds(
                condition,
                event,
            ) by {
                assert forall|i: int| 0 <= i < conditions@.len() implies holds(
                    #[trigger] conditions@[i],
                    event,
                ) == any.parts()[i].accepts(event) by {}
            }
            return Box::new(any);
        },
    };
}

/// The triggers of a list of conditions.
fn build_conditions(conditions: Vec<MatchSpec>) -> (r: Vec<Box<dyn Trigger>>)
    ensures
        r@.len() == conditions@.len(),
        forall|i: int, event: EventView|
            0 <= i < r@.len() ==> #[trigger] r@[i].accepts(event) == holds(conditions@[i], event),
    decreases conditions,
{
    let mut out: Vec<Box<dyn Trigger>> = Vec::new();
    for condition in it: conditions
        invariant
            it.seq() == conditions@,
            out@.len() == it.index(),
            forall|i: int, event: EventView|
                0 <= i < out@.len() ==> #[trigger] out@[i].accepts(event) == holds(
                    conditions@[i],
                    event,
                ),
    {
        let built = build_condition(condition);
        put(built, &mut out);
    }
    out
}

/// Whether a binding always gives this job, with the event's payload.
pub open spec fn binds_to(
    registration: RegisteredTrigger,
    lane: Seq<char>,
    kind: Seq<char>,
    max_attempts: u32,
) -> bool {
    forall|event: EventView, result: Result<JobView, Seq<char>>| #[trigger]
        registration.binding().may_bind(event, result) <==> result == Ok::<JobView, Seq<char>>(
            JobView { lane, kind, payload: event.payload, max_attempts },
        )
}

/// Whether a registration is what an entry asks for.
pub open spec fn realizes(registration: RegisteredTrigger, entry: TriggerEntry) -> bool {
    &&& registration.name_text() == entry.name@
    &&& registration.priority() == entry.priority
    &&& registration.enabled() == entry.enabled
    &&& forall|event: EventView| #[trigger]
        registration.trigger().accepts(event) == holds(entry.condition, event)
    &&& binds_to(registration, entry.bind.lane@, entry.bind.kind@, entry.bind.max_attempts)
}

/// Whether registrations are those of the given entries, registered one after the other.
pub open spec fn realizes_all(
    registrations: Seq<RegisteredTrigger>,
    entries: Seq<TriggerEntry>,
) -> bool {
    exists|added: Seq<RegisteredTrigger>|
        {
            &&& registrations == #[trigger] with_registrations(Seq::empty(), added)
            &&& added.len() == entries.len()
            &&& forall|i: int| 0 <= i < added.len() ==> realizes(#[trigger] added[i], entries[i])
        }
}

/// The registration that an entry asks for.
pub fn build_entry(entry: TriggerEntry) -> (r: RegisteredTrigger)
    ensures
        realizes(r, entry),
{
    let trigger = Arc::new(build_condition(entry.condition));
    let plain = WorklaneJobBinding::new(
        entry.bind.lane.as_str(),
        entry.bind.kind.as_str(),
        entry.bind.max_attempts,
    );
    let boxed: Box<dyn Binding<WorklaneJob>> = Box::new(plain);
    let binding = Arc::new(boxed);
    let registered = RegisteredTrigger::shared(
        entry.name.as_str(),
        entry.priority,
        trigger,
        binding,
    );
    if entry.enabled {
        registered
    } else {
        registered.disabled()
    }
}

/// Build the registry of a configuration: every entry is registered, in the order of the
/// file, so that entries of one priority keep that order.
pub fn build_registry(file: TriggerFile) -> (r: TriggerRegistry)
    ensures
        realizes_all(r.registrations(), file.triggers@),
{
    let mut registry = TriggerRegistry::new();
    let ghost mut added: Seq<RegisteredTrigger> = Seq::empty();
    for entry in it: file.triggers
        invariant
            it.seq() == file.triggers@,
            registry.registrations() == with_registrations(Seq::empty(), added),
            added.len() == it.index(),
            forall|i: int|
                0 <= i < added.len() ==> realizes(#[trigger] added[i], file.triggers@[i]),
    {
        let registered = build_entry(entry);
        proof {
            let before = added;
            added = added.push(registered);
            assert(added.drop_last() =~= before);
        }
        registry.register(registered);
    }
    registry
}

/// The triggers of a program that is given no configuration: a created GitHub issue becomes
/// a projection job.
pub fn default_registry() -> (r: TriggerRegistry)
    ensures
        r.registrations().len() == 1,
        ({
            let only = r.registrations()[0];
            &&& only.name_text() == "github-issue-projection"@
            &&& only.priority() == 10
            &&& only.enabled()
            &&& forall|event: EventView| #[trigger]
                only.trigger().accepts(event) == (event.event_type == EVENT_GITHUB_ISSUE_CREATED@)
            &&& binds_to(only, "projection"@, "CreateProjectionJob"@, 3)
        }),
{
    let mut registry = TriggerRegistry::new();
    registry.register(
        RegisteredTrigger::new(
            "github-issue-projection",
            10,
            Box::new(EventTypeTrigger::new(EVENT_GITHUB_ISSUE_CREATED)),
            Box::new(WorklaneJobBinding::new("projection", "CreateProjectionJob", 3)),
        ),
    );
    registry
}

/// Why a configuration was not loaded.
#[derive(Debug)]
pub enum ConfigError {
    Read(String),
    Parse(String),
}

/// The message of a [`ConfigError`].
pub open spec fn config_error_text(error: ConfigError) -> Seq<char> {
    match error {
        ConfigError::Read(detail) => "reading trigger config: "@ + detail@,
        ConfigError::Parse(detail) => "parsing trigger config: "@ + detail@,
    }
}

impl ConfigError {
    /// The message of this error.
    pub fn message(&self) -> (r: String)
        ensures
            r@ == config_error_text(*self),
    {
        match self {
            ConfigError::Read(detail) => {
                let mut out = "reading trigger config: ".to_owned();
                out.append(detail.as_str());
                out
            },
            ConfigError::Parse(detail) => {
                let mut out = "parsing trigger config: ".to_owned();
                out.append(detail.as_str());
                out
            },
        }
    }
}

/// What a configured condition accepts, whatever it is made of: an event-type condition the
/// events of exactly that type; a payload condition the events whose payload is JSON with an
/// equal value at the pointer; all-of exactly what every listed condition accepts, any-of
/// exactly what at least one of them does, at whatever position and however many there are.
pub proof fn law_configured_trigger_accepts_what_its_condition_says(
    registration: RegisteredTrigger,
    entry: TriggerEntry,
    event: EventView,
)
    requires
        realizes(registration, entry),
    ensures
        entry.condition matches MatchSpec::EventType { event_type } ==> (
        registration.trigger().accepts(event) <==> event.event_type == event_type@),
        entry.condition matches MatchSpec::PayloadFieldEquals { pointer, value } ==> (
        registration.trigger().accepts(event) <==> (crate::json::parsed_json(event.payload) is Some
            && crate::json::json_at(
            crate::json::parsed_json(event.payload)->0,
            pointer@,
        ) is Some && crate::json::json_equal(
            crate::json::json_at(crate::json::parsed_json(event.payload)->0, pointer@)->0,
            json_text(value),
        ))),
        entry.condition matches MatchSpec::AllOf { conditions } ==> {
            &&& forall|i: int|
                0 <= i < conditions@.len() && registration.trigger().accepts(event) ==> holds(
                    #[trigger] conditions@[i],
                    event,
                )
            &&& (forall|i: int| 0 <= i < conditions@.len() ==> holds(#[trigger] conditions@[i], event))
                ==> registration.trigger().accepts(event)
        },
        entry.condition matches MatchSpec::AnyOf { conditions } ==> {
            &&& forall|i: int|
                0 <= i < conditions@.len() && holds(#[trigger] conditions@[i], event)
                    ==> registration.trigger().accepts(event)
            &&& (forall|i: int|
                0 <= i < conditions@.len() ==> !holds(#[trigger] conditions@[i], event))
                ==> !registration.trigger().accepts(event)
        },
{
}

/// What a condition says of an event, part by part.
pub proof fn law_conditions_hold_part_by_part(condition: MatchSpec, event: EventView)
    ensures
        condition matches MatchSpec::EventType { event_type } ==> (holds(condition, event)
            <==> event.event_type == event_type@),
        condition matches MatchSpec::PayloadFieldEquals { pointer, value } ==> {
            &&& crate::json::parsed_json(event.payload) is None ==> !holds(condition, event)
            &&& crate::json::parsed_json(event.payload) matches Some(json) ==> {
                &&& crate::json::json_at(json, pointer@) is None ==> !holds(condition, event)
                &&& crate::json::json_at(json, pointer@) matches Some(found) ==> holds(
                    condition,
                    event,
                ) == crate::json::json_equal(found, json_text(value))
            }
        },
        condition matches MatchSpec::AllOf { conditions } ==> {
            &&& forall|i: int|
                0 <= i < conditions@.len() && !holds(#[trigger] conditions@[i], event) ==> !holds(
                    condition,
                    event,
                )
            &&& (forall|i: int| 0 <= i < conditions@.len() ==> holds(#[trigger] conditions@[i], event))
                ==> holds(condition, event)
        },
        condition matches MatchSpec::AnyOf { conditions } ==> {
            &&& forall|i: int|
                0 <= i < conditions@.len() && holds(#[trigger] conditions@[i], event) ==> holds(
                    condition,
                    event,
                )
            &&& (forall|i: int|
                0 <= i < conditions@.len() ==> !holds(#[trigger] conditions@[i], event)) ==> !holds(
                condition,
                event,
            )
        },
{
}

/// A configured trigger carries its entry's name, priority and switch, and its job is the one
/// that the entry names, with the event's own payload; it never rejects an event.
pub proof fn law_configured_trigger_is_its_entry(
    registration: RegisteredTrigger,
    entry: TriggerEntry,
    event: EventView,
    result: Result<JobView, Seq<char>>,
)
    requires
        realizes(registration, entry),
    ensures
        registration.name_text() == entry.name@,
        registration.priority() == entry.priority,
        registration.enabled() <==> entry.enabled,
        registration.binding().may_bind(event, result) ==> {
            &&& result is Ok
            &&& result->Ok_0.lane == entry.bind.lane@
            &&& result->Ok_0.kind == entry.bind.kind@
            &&& result->Ok_0.payload == event.payload
            &&& result->Ok_0.max_attempts == entry.bind.max_attempts
        },
{
}

/// A configured registry holds one registration for each entry and nothing else, higher
/// priorities first and entries of one priority in the order of the file.
pub proof fn law_configured_registry_is_its_file(
    registrations: Seq<RegisteredTrigger>,
    entries: Seq<TriggerEntry>,
    priority: i32,
)
    requires
        realizes_all(registrations, entries),
    ensures
        registrations.len() == entries.len(),
        forall|i: int, j: int|
            0 <= i < j < registrations.len() ==> (#[trigger] registrations[i]).priority() >= (
            #[trigger] registrations[j]).priority(),
        exists|added: Seq<RegisteredTrigger>|
            {
                &&& added.len() == entries.len()
                &&& #[trigger] added.to_multiset() == registrations.to_multiset()
                &&& forall|i: int|
                    0 <= i < entries.len() ==> realizes(#[trigger] added[i], entries[i])
                &&& added.filter(|r: RegisteredTrigger| r.priority() == priority)
                    == registrations.filter(|r: RegisteredTrigger| r.priority() == priority)
            },
{
    let added = choose|added: Seq<RegisteredTrigger>|
        {
            &&& registrations == #[trigger] with_registrations(Seq::empty(), added)
            &&& added.len() == entries.len()
            &&& forall|i: int| 0 <= i < added.len() ==> realizes(#[trigger] added[i], entries[i])
        };
    broadcast use vstd::seq_lib::group_to_multiset_ensures;

    crate::registry::law_registering_is_a_stable_sort(added, priority);
    assert(added.to_multiset().len() == added.len());
    assert(registrations.to_multiset().len() == registrations.len());
    crate::registry::law_registrations_stand_by_falling_priority(added);
}

/// A configured binding gives one job for each event, and always gives it.
pub proof fn law_configured_binding_gives_its_job(
    registration: RegisteredTrigger,
    entry: TriggerEntry,
    event: EventView,
)
    requires
        realizes(registration, entry),
    ensures
        registration.binding().may_bind(
            event,
            Ok(
                JobView {
                    lane: entry.bind.lane@,
                    kind: entry.bind.kind@,
                    payload: event.payload,
                    max_attempts: entry.bind.max_attempts,
                },
            ),
        ),
{
}

/// A message about a configuration says whether reading or parsing failed, and ends with the
/// cause.
pub proof fn law_config_message_gives_the_cause(error: ConfigError)
    ensures
        error matches ConfigError::Read(detail) ==> crate::text::stripped(
            config_error_text(error),
            "reading trigger config: "@,
        ) == Some(detail@),
        error matches ConfigError::Parse(detail) ==> crate::text::stripped(
            config_error_text(error),
            "parsing trigger config: "@,
        ) == Some(detail@),
{
    match error {
        ConfigError::Read(detail) => crate::text::law_stripping_undoes_prefixing(
            detail@,
            "reading trigger config: "@,
        ),
        ConfigError::Parse(detail) => crate::text::law_stripping_undoes_prefixing(
            detail@,
            "parsing trigger config: "@,
        ),
    }
}

/// A registration built from an any-of entry accepts exactly the events that at least one of
/// the registrations built from its conditions accepts, at whatever position that one stands;
/// one built from an all-of entry only those that each of them accepts.
pub proof fn law_built_registration_is_built_of_its_parts(
    entry: TriggerEntry,
    registration: RegisteredTrigger,
    parts: Seq<TriggerEntry>,
    built: Seq<RegisteredTrigger>,
    event: EventView,
)
    requires
        call_ensures(build_entry, (entry,), registration),
        parts.len() == built.len(),
        forall|i: int|
            0 <= i < parts.len() ==> call_ensures(build_entry, (parts[i],), #[trigger] built[i]),
    ensures
        entry.condition matches MatchSpec::AnyOf { conditions } ==> conditions@.len()
            == parts.len() && (forall|i: int|
            0 <= i < parts.len() ==> (#[trigger] parts[i]).condition == conditions@[i]) ==> (
        registration.trigger().accepts(event) <==> exists|i: int|
            0 <= i < built.len() && (#[trigger] built[i]).trigger().accepts(event)),
        entry.condition matches MatchSpec::AllOf { conditions } ==> conditions@.len()
            == parts.len() && (forall|i: int|
            0 <= i < parts.len() ==> (#[trigger] parts[i]).condition == conditions@[i]) ==> (
        registration.trigger().accepts(event) <==> forall|i: int|
            0 <= i < built.len() ==> (#[trigger] built[i]).trigger().accepts(event)),
{
    assert(realizes(registration, entry));
    assert forall|i: int| 0 <= i < parts.len() implies (
    #[trigger] built[i]).trigger().accepts(event) == holds(parts[i].condition, event) by {
        assert(realizes(built[i], parts[i]));
    }
    if let MatchSpec::AnyOf { conditions } = entry.condition {
        if conditions@.len() == parts.len() && (forall|i: int|
            0 <= i < parts.len() ==> (#[trigger] parts[i]).condition == conditions@[i]) {
            if registration.trigger().accepts(event) {
                let i = choose|i: int|
                    0 <= i < conditions@.len() && holds(#[trigger] conditions@[i], event);
                assert(parts[i].condition == conditions@[i]);
                assert(built[i].trigger().accepts(event));
            }
            if exists|i: int|
                0 <= i < built.len() && (#[trigger] built[i]).trigger().accepts(event) {
                let i = choose|i: int|
                    0 <= i < built.len() && (#[trigger] built[i]).trigger().accepts(event);
                assert(parts[i].condition == conditions@[i]);
                assert(holds(conditions@[i], event));
            }
        }
    }
    if let MatchSpec::AllOf { conditions } = entry.condition {
        if conditions@.len() == parts.len() && (forall|i: int|
            0 <= i < parts.len() ==> (#[trigger] parts[i]).condition == conditions@[i]) {
            if registration.trigger().accepts(event) {
                assert forall|i: int| 0 <= i < built.len() implies (
                #[trigger] built[i]).trigger().accepts(event) by {
                    assert(parts[i].condition == conditions@[i]);
                    assert(holds(conditions@[i], event));
                }
            }
            if forall|i: int|
                0 <= i < built.len() ==> (#[trigger] built[i]).trigger().accepts(event) {
                assert forall|i: int| 0 <= i < conditions@.len() implies holds(
                    #[trigger] conditions@[i],
                    event,
                ) by {
                    assert(parts[i].condition == conditions@[i]);
                    assert(built[i].trigger().accepts(event));
                }
            }
        }
    }
}

} // verus!
