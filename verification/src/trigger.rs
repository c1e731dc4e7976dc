//! Triggers decide whether an event matches; bindings turn a matched event into a job.

use crate::event::{copy_bytes, EventEnvelope, EventType, EventView};
use crate::json::{equal, json_at, json_equal, json_text, lookup, parse, parsed_json};
use crate::text::same_text;
use std::sync::Arc;
use vstd::prelude::*;

verus! {

/// Decides whether an event matches. Matching depends on the event alone.
pub trait Trigger: Send + Sync {
    /// Whether an event with these values matches. Nothing is known of it for a trigger that
    /// does not say.
    open spec fn accepts(&self, event: EventView) -> bool {
        arbitrary()
    }

    fn matches(&self, event: &EventEnvelope) -> (r: bool)
        ensures
            r == self.accepts(event@),
    ;
}

/// Why a binding turned an event down.
#[derive(Debug)]
pub enum BindingError {
    Rejected(String),
}

impl View for BindingError {
    type V = Seq<char>;

    /// The reason given.
    open spec fn view(&self) -> Seq<char> {
        match self {
            BindingError::Rejected(reason) => reason@,
        }
    }
}

/// The message for a binding that turned an event down.
pub open spec fn rejection_text(reason: Seq<char>) -> Seq<char> {
    "binding rejected event: "@ + reason
}

impl BindingError {
    /// The message of this error.
    pub fn message(&self) -> (r: String)
        ensures
            r@ == rejection_text(self@),
    {
        match self {
            BindingError::Rejected(reason) => {
                let mut out = "binding rejected event: ".to_owned();
                out.append(reason.as_str());
                out
            },
        }
    }
}

/// Turns a matched event into a job, or rejects it.
pub trait Binding<Job: View>: Send + Sync {
    /// Whether binding an event with these values may give this result: a job, or the
    /// reason for a rejection. A binding that does not say may give any.
    open spec fn may_bind(&self, event: EventView, result: Result<Job::V, Seq<char>>) -> bool {
        true
    }

    fn bind(&self, event: &EventEnvelope) -> (r: Result<Job, BindingError>)
        ensures
            self.may_bind(event@, bound_view(r)),
    ;
}

/// The values of a binding's result.
pub open spec fn bound_view<Job: View>(result: Result<Job, BindingError>) -> Result<
    Job::V,
    Seq<char>,
> {
    match result {
        Ok(job) => Ok(job@),
        Err(error) => Err(error@),
    }
}

/// A job for Worklane: the lane it goes to, its kind, its payload, and how often it may
/// be attempted.
#[derive(Debug, PartialEq, Eq)]
pub struct WorklaneJob {
    pub lane: String,
    pub kind: String,
    pub payload: Vec<u8>,
    pub max_attempts: u32,
}

/// The values of a [`WorklaneJob`].
pub struct JobView {
    pub lane: Seq<char>,
    pub kind: Seq<char>,
    pub payload: Seq<u8>,
    pub max_attempts: u32,
}

impl View for WorklaneJob {
    type V = JobView;

    open spec fn view(&self) -> JobView {
        JobView {
            lane: self.lane@,
            kind: self.kind@,
            payload: self.payload@,
            max_attempts: self.max_attempts,
        }
    }
}

impl WorklaneJob {
    pub fn new(lane: &str, kind: &str, payload: Vec<u8>, max_attempts: u32) -> (r: WorklaneJob)
        ensures
            r@ == (JobView { lane: lane@, kind: kind@, payload: payload@, max_attempts }),
    {
        WorklaneJob { lane: lane.to_owned(), kind: kind.to_owned(), payload, max_attempts }
    }
}

impl Clone for WorklaneJob {
    fn clone(&self) -> (r: WorklaneJob)
        ensures
            r@ == self@,
    {
        WorklaneJob {
            lane: self.lane.clone(),
            kind: self.kind.clone(),
            payload: copy_bytes(&self.payload),
            max_attempts: self.max_attempts,
        }
    }
}

/// Matches events of one type.
#[derive(Debug)]
pub struct EventTypeTrigger {
    event_type: EventType,
}

impl View for EventTypeTrigger {
    type V = Seq<char>;

    closed spec fn view(&self) -> Seq<char> {
        self.event_type@
    }
}

impl Clone for EventTypeTrigger {
    fn clone(&self) -> (r: EventTypeTrigger)
        ensures
            r@ == self@,
    {
        EventTypeTrigger { event_type: self.event_type.clone() }
    }
}

impl EventTypeTrigger {
    pub fn new(event_type: &str) -> (r: EventTypeTrigger)
        ensures
            r@ == event_type@,
    {
        EventTypeTrigger { event_type: EventType::new(event_type) }
    }
}

impl Trigger for EventTypeTrigger {
    open spec fn accepts(&self, event: EventView) -> bool {
        event.event_type == self@
    }

    fn matches(&self, event: &EventEnvelope) -> (r: bool) {
        same_text(event.event_type.as_str(), self.event_type.as_str())
    }
}

/// Matches when the payload is JSON and the value at a JSON Pointer (such as
/// `/issue/state`) equals an expected one. A payload that is not JSON, or a pointer
/// that leads nowhere, does not match.
#[derive(Debug)]
pub struct PayloadFieldEquals {
    pointer: String,
    expected: Arc<serde_json::Value>,
}

/// The pointer and the expected value of a [`PayloadFieldEquals`].
pub struct FieldView {
    pub pointer: Seq<char>,
    pub expected: Seq<char>,
}

impl View for PayloadFieldEquals {
    type V = FieldView;

    closed spec fn view(&self) -> FieldView {
        FieldView { pointer: self.pointer@, expected: json_text(*self.expected) }
    }
}

/// Whether a payload is JSON and holds the expected value at the pointer.
pub open spec fn field_matches(payload: Seq<u8>, field: FieldView) -> bool {
    match parsed_json(payload) {
        Some(value) => match json_at(value, field.pointer) {
            Some(found) => json_equal(found, field.expected),
            None => false,
        },
        None => false,
    }
}

/// Whether a value that was looked up is there and is the expected one.
pub fn is_expected(found: Option<&serde_json::Value>, expected: &serde_json::Value) -> (r: bool)
    ensures
        r == match found {
            Some(value) => json_equal(json_text(*value), json_text(*expected)),
            None => false,
        },
{
    match found {
        Some(value) => equal(value, expected),
        None => false,
    }
}

impl PayloadFieldEquals {
    pub fn new(pointer: &str, expected: serde_json::Value) -> (r: PayloadFieldEquals)
        ensures
            r@ == (FieldView { pointer: pointer@, expected: json_text(expected) }),
    {
        PayloadFieldEquals { pointer: pointer.to_owned(), expected: Arc::new(expected) }
    }
}

impl Clone for PayloadFieldEquals {
    /// The copy shares the expected value.
    fn clone(&self) -> (r: PayloadFieldEquals)
        ensures
            r@ == self@,
    {
        PayloadFieldEquals { pointer: self.pointer.clone(), expected: Arc::clone(&self.expected) }
    }
}

impl Trigger for PayloadFieldEquals {
    open spec fn accepts(&self, event: EventView) -> bool {
        field_matches(event.payload, self@)
    }

    fn matches(&self, event: &EventEnvelope) -> (r: bool) {
        match parse(event.payload.as_slice()) {
            Some(value) => is_expected(lookup(&value, self.pointer.as_str()), &self.expected),
            None => false,
        }
    }
}

/// Matches only when every composed trigger matches. With no triggers it always
/// matches, so it is neutral when conditions are composed.
pub struct AllOf {
    triggers: Vec<Box<dyn Trigger>>,
}

impl AllOf {
    /// The composed triggers.
    pub closed spec fn parts(&self) -> Seq<Box<dyn Trigger>> {
        self.triggers@
    }

    pub fn new(triggers: Vec<Box<dyn Trigger>>) -> (r: AllOf)
        ensures
            r.parts() == triggers@,
    {
        AllOf { triggers }
    }
}

impl Trigger for AllOf {
    open spec fn accepts(&self, event: EventView) -> bool {
        forall|i: int| 0 <= i < self.parts().len() ==> (#[trigger] self.parts()[i]).accepts(event)
    }

    fn matches(&self, event: &EventEnvelope) -> (r: bool) {
        let mut i: usize = 0;
        while i < self.triggers.len()
            invariant
                i <= self.triggers@.len(),
                self.triggers@ == self.parts(),
                forall|j: int| 0 <= j < i ==> (#[trigger] self.parts()[j]).accepts(event@),
            decreases self.triggers@.len() - i,
        {
            if !self.triggers[i].matches(event) {
                assert(!self.parts()[i as int].accepts(event@));
                return false;
            }
            i += 1;
        }
        true
    }
}

/// Matches when at least one composed trigger matches. With no triggers it never
/// matches.
pub struct AnyOf {
    triggers: Vec<Box<dyn Trigger>>,
}

impl AnyOf {
    /// The composed triggers.
    pub closed spec fn parts(&self) -> Seq<Box<dyn Trigger>> {
        self.triggers@
    }

    pub fn new(triggers: Vec<Box<dyn Trigger>>) -> (r: AnyOf)
        ensures
            r.parts() == triggers@,
    {
        AnyOf { triggers }
    }
}

impl Trigger for AnyOf {
    open spec fn accepts(&self, event: EventView) -> bool {
        exists|i: int| 0 <= i < self.parts().len() && (#[trigger] self.parts()[i]).accepts(event)
    }

    fn matches(&self, event: &EventEnvelope) -> (r: bool) {
        let mut i: usize = 0;
        while i < self.triggers.len()
            invariant
                i <= self.triggers@.len(),
                self.triggers@ == self.parts(),
                forall|j: int| 0 <= j < i ==> !(#[trigger] self.parts()[j]).accepts(event@),
            decreases self.triggers@.len() - i,
        {
            if self.triggers[i].matches(event) {
                assert(self.parts()[i as int].accepts(event@));
                return true;
            }
            i += 1;
        }
        false
    }
}

/// Builds a job payload from a matched event. An error rejects the event.
pub trait PayloadTransform: Send + Sync {
    /// Whether shaping an event with these values may give this result: a payload, or
    /// the reason for a rejection. A transform that does not say may give any.
    open spec fn may_shape(&self, event: EventView, result: Result<Seq<u8>, Seq<char>>) -> bool {
        true
    }

    fn shape(&self, event: &EventEnvelope) -> (r: Result<Vec<u8>, BindingError>)
        ensures
            self.may_shape(event@, bound_view(r)),
    ;
}

/// Whether a transform function accepts every event.
pub open spec fn takes_any_event<F: Fn(&EventEnvelope) -> Result<Vec<u8>, BindingError>>(
    f: F,
) -> bool {
    forall|event: &EventEnvelope| #[trigger] call_requires(f, (event,))
}

/// Whether a transform function may give `result` for an event with these values.
pub open spec fn may_return<F: Fn(&EventEnvelope) -> Result<Vec<u8>, BindingError>>(
    f: F,
    event: EventView,
    result: Result<Seq<u8>, Seq<char>>,
) -> bool {
    exists|input: &EventEnvelope, output: Result<Vec<u8>, BindingError>|
        #[trigger] call_ensures(f, (input,), output) && input@ == event && bound_view(output)
            == result
}

/// A payload transform given by a function.
struct TransformFn<F: Fn(&EventEnvelope) -> Result<Vec<u8>, BindingError> + Send + Sync> {
    f: F,
}

impl<F: Fn(&EventEnvelope) -> Result<Vec<u8>, BindingError> + Send + Sync> TransformFn<F> {
    #[verifier::type_invariant]
    spec fn total(self) -> bool {
        takes_any_event(self.f)
    }
}

impl<F: Fn(&EventEnvelope) -> Result<Vec<u8>, BindingError> + Send + Sync> PayloadTransform
    for TransformFn<F> {
    closed spec fn may_shape(&self, event: EventView, result: Result<Seq<u8>, Seq<char>>) -> bool {
        may_return(self.f, event, result)
    }

    fn shape(&self, event: &EventEnvelope) -> (r: Result<Vec<u8>, BindingError>) {
        proof {
            use_type_invariant(self);
        }
        let output = (self.f)(event);
        assert(call_ensures(self.f, (event,), output));
        output
    }
}

/// Binds a matched event to a job on one lane, of one kind. The payload is the event's,
/// unless a transform shapes it.
pub struct WorklaneJobBinding {
    lane: String,
    kind: String,
    max_attempts: u32,
    transform: Option<Arc<Box<dyn PayloadTransform>>>,
}

impl WorklaneJobBinding {
    pub closed spec fn lane(&self) -> Seq<char> {
        self.lane@
    }

    pub closed spec fn kind(&self) -> Seq<char> {
        self.kind@
    }

    pub closed spec fn max_attempts(&self) -> u32 {
        self.max_attempts
    }

    pub closed spec fn transform(&self) -> Option<Arc<Box<dyn PayloadTransform>>> {
        self.transform
    }

    /// A binding that passes the event's payload through unchanged.
    pub fn new(lane: &str, kind: &str, max_attempts: u32) -> (r: WorklaneJobBinding)
        ensures
            r.lane() == lane@,
            r.kind() == kind@,
            r.max_attempts() == max_attempts,
            r.transform() is None,
    {
        WorklaneJobBinding {
            lane: lane.to_owned(),
            kind: kind.to_owned(),
            max_attempts,
            transform: None,
        }
    }

    /// Shape the job payload from the event instead of passing the event payload through
    /// unchanged. The transform may reject the event with a [`BindingError`].
    pub fn with_payload_transform<F>(self, transform: F) -> (r: WorklaneJobBinding) where
        F: Fn(&EventEnvelope) -> Result<Vec<u8>, BindingError> + Send + Sync + 'static,

        requires
            takes_any_event(transform),
        ensures
            r.lane() == self.lane(),
            r.kind() == self.kind(),
            r.max_attempts() == self.max_attempts(),
            r.transform() is Some,
            forall|event: EventView, result: Result<Seq<u8>, Seq<char>>| #[trigger]
                r.transform()->0.may_shape(event, result) == may_return(transform, event, result),
    {
        let boxed: Box<dyn PayloadTransform> = Box::new(TransformFn { f: transform });
        let shared = Arc::new(boxed);
        WorklaneJobBinding {
            lane: self.lane,
            kind: self.kind,
            max_attempts: self.max_attempts,
            transform: Some(shared),
        }
    }
}

impl Clone for WorklaneJobBinding {
    /// The copy shares the transform.
    fn clone(&self) -> (r: WorklaneJobBinding)
        ensures
            r.lane() == self.lane(),
            r.kind() == self.kind(),
            r.max_attempts() == self.max_attempts(),
            r.transform() == self.transform(),
    {
        let transform = match &self.transform {
            Some(transform) => Some(Arc::clone(transform)),
            None => None,
        };
        WorklaneJobBinding {
            lane: self.lane.clone(),
            kind: self.kind.clone(),
            max_attempts: self.max_attempts,
            transform,
        }
    }
}

impl Binding<WorklaneJob> for WorklaneJobBinding {
    /// A job carries the binding's lane, kind and attempts, and either the event's
    /// payload or what the transform made of the event; the transform's rejection is the
    /// binding's.
    open spec fn may_bind(&self, event: EventView, result: Result<JobView, Seq<char>>) -> bool {
        &&& result matches Ok(job) ==> {
            &&& job.lane == self.lane()
            &&& job.kind == self.kind()
            &&& job.max_attempts == self.max_attempts()
        }
        &&& match self.transform() {
            None => result is Ok && result->Ok_0.payload == event.payload,
            Some(transform) => match result {
                Ok(job) => transform.may_shape(event, Ok(job.payload)),
                Err(reason) => transform.may_shape(event, Err(reason)),
            },
        }
    }

    fn bind(&self, event: &EventEnvelope) -> (r: Result<WorklaneJob, BindingError>) {
        let payload = match &self.transform {
            Some(transform) => match transform.shape(event) {
                Ok(payload) => payload,
                Err(error) => return Err(error),
            },
            None => copy_bytes(&event.payload),
        };
        Ok(WorklaneJob::new(self.lane.as_str(), self.kind.as_str(), payload, self.max_attempts))
    }
}

/// All-of is a conjunction: it matches exactly the events that each part matches, and
/// with no parts every event.
pub proof fn law_all_of_is_conjunction(all: AllOf, event: EventView)
    ensures
        all.accepts(event) <==> (forall|i: int|
            0 <= i < all.parts().len() ==> (#[trigger] all.parts()[i]).accepts(event)),
        all.parts().len() == 0 ==> all.accepts(event),
{
}

/// Any-of is a disjunction: it matches exactly the events that some part matches, and
/// with no parts no event.
pub proof fn law_any_of_is_disjunction(any: AnyOf, event: EventView)
    ensures
        any.accepts(event) <==> (exists|i: int|
            0 <= i < any.parts().len() && (#[trigger] any.parts()[i]).accepts(event)),
        any.parts().len() == 0 ==> !any.accepts(event),
{
}

/// With a transform, the job's payload is one that the transform may give for the event, and
/// a rejection is one that the transform may give; lane, kind and attempts stay the
/// binding's.
pub proof fn law_transform_shapes_or_rejects(
    binding: WorklaneJobBinding,
    event: EventView,
    result: Result<JobView, Seq<char>>,
)
    requires
        binding.transform() is Some,
        binding.may_bind(event, result),
    ensures
        match result {
            Ok(job) => {
                &&& binding.transform()->0.may_shape(event, Ok(job.payload))
                &&& job.lane == binding.lane()
                &&& job.kind == binding.kind()
                &&& job.max_attempts == binding.max_attempts()
            },
            Err(reason) => binding.transform()->0.may_shape(event, Err(reason)),
        },
{
}

/// A binding without a transform never rejects an event, and its job carries the event's
/// payload byte for byte.
pub proof fn law_plain_binding_passes_payload_through(
    binding: WorklaneJobBinding,
    event: EventView,
    result: Result<JobView, Seq<char>>,
)
    requires
        binding.transform() is None,
        binding.may_bind(event, result),
    ensures
        result == Ok::<JobView, Seq<char>>(
            JobView {
                lane: binding.lane(),
                kind: binding.kind(),
                payload: event.payload,
                max_attempts: binding.max_attempts(),
            },
        ),
{
}

/// A trigger on an event type accepts the events of exactly that type.
pub proof fn law_event_type_trigger_is_exact(trigger: EventTypeTrigger, event: EventView)
    ensures
        trigger.accepts(event) <==> event.event_type == trigger@,
{
}

/// A trigger on a payload field accepts an event exactly when its payload is JSON, something
/// is found at the pointer, and that equals what is expected. Nothing else of the event
/// counts.
pub proof fn law_payload_trigger_compares_the_field(
    trigger: PayloadFieldEquals,
    event: EventView,
    other: EventView,
)
    ensures
        parsed_json(event.payload) is None ==> !trigger.accepts(event),
        parsed_json(event.payload) matches Some(json) ==> {
            &&& json_at(json, trigger@.pointer) is None ==> !trigger.accepts(event)
            &&& json_at(json, trigger@.pointer) matches Some(found) ==> trigger.accepts(event)
                == json_equal(found, trigger@.expected)
        },
        event.payload == other.payload ==> trigger.accepts(event) == trigger.accepts(other),
{
}

/// The message of a rejection ends with the reason that was given.
pub proof fn law_rejection_gives_its_reason(reason: Seq<char>)
    ensures
        crate::text::stripped(rejection_text(reason), "binding rejected event: "@) == Some(reason),
{
    crate::text::law_stripping_undoes_prefixing(reason, "binding rejected event: "@);
}

} // verus!
