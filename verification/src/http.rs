//! HTTP rules: who may post and read, what a request asks for, and how it is answered.
//!
//! Sockets, routing and JSON live outside; this module decides.

use crate::event::{
    copy_bytes, id_text, is_random_id, named_source, parsed_uuid, EventEnvelope, EventId,
    EventMetadata, EventType, Source, EVENT_DISCORD_MESSAGE_CREATED, EVENT_GITHUB_ISSUE_CREATED,
    EVENT_GITHUB_PR_CREATED,
};
use crate::ingest::IngestReport;
use crate::model::views;
use crate::registry::selected;
use crate::replay::{
    range_selection, replay_error_text, FilterView, ReplayError, ReplayFilter, ReplayRun,
    ReplayRunView,
};
use crate::retention::copy_from;
use crate::runtime::{HandleReport, HandleRun, RunView, TriggerRuntime};
use crate::storage::{event_with_id, DeadTriggerQueue, EventStore};
use crate::text::{
    debug_text, lowered, opt_str, opt_text, quoted, same_text, strip_prefix, stripped, to_lower,
};
use crate::time::{is_clock_time, Timestamp};
use crate::trace::{copy_strings, TraceSink};
use hmac::{Hmac, Mac};
use sha2::Sha256;
use vstd::prelude::*;
use vstd::utf8::encode_utf8;

verus! {

pub const EVENTS_PATH: &'static str = "/events";

/// Read endpoint listing dead-trigger records.
pub const DEAD_TRIGGERS_PATH: &'static str = "/dead-triggers";

/// Liveness probe path: succeeds while the server is serving.
pub const HEALTHZ_PATH: &'static str = "/healthz";

/// Readiness probe path: succeeds while accepting traffic, fails while draining.
pub const READYZ_PATH: &'static str = "/readyz";

/// Metrics scrape path.
pub const METRICS_PATH: &'static str = "/metrics";

/// The header that carries a GitHub webhook's signature.
pub const GITHUB_SIGNATURE_HEADER: &'static str = "x-hub-signature-256";

/// The header that carries a bearer token.
pub const AUTHORIZATION_HEADER: &'static str = "authorization";

/// Largest accepted body of a posted event.
pub const MAX_EVENT_BODY_BYTES: usize = 2_097_152;

/// Page size of an event listing when the caller gives none.
pub const DEFAULT_EVENT_LIST_LIMIT: usize = 1000;

/// Whether the service should receive traffic. There is one such flag for a service: the
/// probe and the shutdown path share it by sharing this value.
#[derive(Debug)]
pub struct Readiness {
    accepting: bool,
}

impl View for Readiness {
    type V = bool;

    closed spec fn view(&self) -> bool {
        self.accepting
    }
}

impl Readiness {
    /// Ready to accept traffic.
    pub fn ready() -> (r: Readiness)
        ensures
            r@,
    {
        Readiness { accepting: true }
    }

    /// Set whether the service should receive traffic; `false` drains it.
    pub fn set_ready(&mut self, ready: bool)
        ensures
            final(self)@ == ready,
    {
        self.accepting = ready;
    }

    /// Whether the service accepts traffic.
    pub fn is_ready(&self) -> (r: bool)
        ensures
            r == self@,
    {
        self.accepting
    }

    /// The status of the readiness probe.
    pub fn probe_status(&self) -> (r: u16)
        ensures
            r == if self@ {
                200u16
            } else {
                503u16
            },
    {
        if self.accepting {
            200
        } else {
            503
        }
    }
}

impl Default for Readiness {
    fn default() -> (r: Readiness)
        ensures
            r@,
    {
        Readiness::ready()
    }
}

/// One header of a request: its name in small letters, and its value unless that is not
/// plain text.
pub struct Header {
    pub name: String,
    pub value: Option<String>,
}

/// The values of a [`Header`].
pub struct HeaderView {
    pub name: Seq<char>,
    pub value: Option<Seq<char>>,
}

impl View for Header {
    type V = HeaderView;

    open spec fn view(&self) -> HeaderView {
        HeaderView { name: self.name@, value: opt_text(self.value) }
    }
}

/// The text of the first header with the given name.
pub open spec fn header_text(headers: Seq<HeaderView>, name: Seq<char>) -> Option<Seq<char>> {
    match crate::model::first_where(headers, |header: HeaderView| header.name == name) {
        Some(header) => header.value,
        None => None,
    }
}

/// The text of the first of `headers` with the given name.
pub fn find_header<'a>(headers: &'a Vec<Header>, name: &str) -> (r: Option<&'a str>)
    ensures
        opt_str(r) == header_text(views(headers@), name@),
{
    let ghost all = views(headers@);
    let ghost wanted = |header: HeaderView| header.name == name@;
    let mut i: usize = 0;
    assert(all.skip(0) =~= all);
    while i < headers.len()
        invariant
            i <= headers@.len(),
            all == views(headers@),
            wanted == (|header: HeaderView| header.name == name@),
            crate::model::first_where(all, wanted) == crate::model::first_where(
                all.skip(i as int),
                wanted,
            ),
        decreases headers@.len() - i,
    {
        proof {
            crate::model::lemma_first_where_skip(all, i as int, wanted);
        }
        if same_text(headers[i].name.as_str(), name) {
            return match &headers[i].value {
                Some(value) => Some(value.as_str()),
                None => None,
            };
        }
        i += 1;
    }
    None
}

/// The value of a hexadecimal digit of either case.
pub open spec fn hex_value(digit: u8) -> Option<int> {
    if 48 <= digit <= 57 {
        Some(digit - 48)
    } else if 97 <= digit <= 102 {
        Some(digit - 87)
    } else if 65 <= digit <= 70 {
        Some(digit - 55)
    } else {
        None
    }
}

/// The bytes that hexadecimal digits stand for, two digits a byte.
pub open spec fn hex_bytes(digits: Seq<u8>) -> Option<Seq<u8>> {
    if digits.len() % 2 == 0 && (forall|i: int|
        0 <= i < digits.len() ==> hex_value(#[trigger] digits[i]) is Some) {
        Some(
            Seq::new(
                digits.len() / 2,
                |i: int| (hex_value(digits[2 * i])->0 * 16 + hex_value(digits[2 * i + 1])->0) as u8,
            ),
        )
    } else {
        None
    }
}

/// Decode hexadecimal digits: `hex::decode`. It gives the bytes, or an error exactly where
/// the number of digits is odd or one of them is not hexadecimal.
#[verifier::external_body]
fn decode_hex(text: &str) -> (r: Option<Vec<u8>>)
    ensures
        match hex_bytes(encode_utf8(text@)) {
            Some(bytes) => r is Some && r->0@ == bytes,
            None => r is None,
        },
{
    hex::decode(text).ok()
}

/// The HMAC-SHA256 tag of a message under a key.
pub uninterp spec fn hmac_sha256(key: Seq<u8>, message: Seq<u8>) -> Seq<u8>;

/// Compare a tag with the HMAC-SHA256 of a message, in constant time: `new_from_slice`,
/// `update` and `verify_slice` of `hmac::Hmac<sha2::Sha256>`. The tag of a message is named
/// by `hmac_sha256` and is 32 bytes long; keys of every length are accepted.
#[verifier::external_body]
fn tag_matches(key: &[u8], message: &[u8], tag: &[u8]) -> (r: bool)
    ensures
        r == (tag@ == hmac_sha256(key@, message@)),
        r ==> tag@.len() == 32,
{
    match Hmac::<Sha256>::new_from_slice(key) {
        Ok(mac) => mac.chain_update(message).verify_slice(tag).is_ok(),
        Err(_) => false,
    }
}

/// The hexadecimal part of a signature, which may be prefixed with `sha256=`.
pub open spec fn signature_digits(value: Seq<char>) -> Seq<char> {
    match stripped(value, "sha256="@) {
        Some(rest) => rest,
        None => value,
    }
}

/// Whether a header value signs a body under a secret.
pub open spec fn signs(secret: Seq<u8>, value: Option<Seq<char>>, body: Seq<u8>) -> bool {
    match value {
        Some(value) => hex_bytes(encode_utf8(signature_digits(value))) == Some(
            hmac_sha256(secret, body),
        ),
        None => false,
    }
}

/// Checks an HMAC-SHA256 signature over the raw request body against a shared secret, read
/// from a configured header. The header value may be bare hexadecimal digits or carry the
/// prefix `sha256=`.
pub struct WebhookVerifier {
    secret: Vec<u8>,
    header: String,
}

/// The secret and the header name of a [`WebhookVerifier`].
pub struct VerifierView {
    pub secret: Seq<u8>,
    pub header: Seq<char>,
}

impl View for WebhookVerifier {
    type V = VerifierView;

    closed spec fn view(&self) -> VerifierView {
        VerifierView { secret: self.secret@, header: self.header@ }
    }
}

/// The tag that a signature gives in hexadecimal digits, if it is one.
pub fn signature_tag(value: &str) -> (r: Option<Vec<u8>>)
    ensures
        match hex_bytes(encode_utf8(signature_digits(value@))) {
            Some(bytes) => r is Some && r->0@ == bytes,
            None => r is None,
        },
{
    match strip_prefix(value, "sha256=") {
        Some(rest) => decode_hex(rest.as_str()),
        None => decode_hex(value),
    }
}

impl WebhookVerifier {
    /// A verifier that reads the header `header`. Header names do not distinguish capital
    /// and small letters; they are kept in small ones.
    pub fn new(secret: Vec<u8>, header: &str) -> (r: WebhookVerifier)
        ensures
            r@ == (VerifierView { secret: secret@, header: lowered(header@) }),
    {
        WebhookVerifier { secret, header: to_lower(header) }
    }

    /// A verifier for GitHub's `X-Hub-Signature-256` header.
    pub fn github(secret: Vec<u8>) -> (r: WebhookVerifier)
        ensures
            r@ == (VerifierView { secret: secret@, header: GITHUB_SIGNATURE_HEADER@ }),
    {
        proof {
            reveal_strlit("x-hub-signature-256");
            assert(lowered(GITHUB_SIGNATURE_HEADER@) =~= GITHUB_SIGNATURE_HEADER@);
        }
        WebhookVerifier::new(secret, GITHUB_SIGNATURE_HEADER)
    }

    /// Whether `body` carries a valid signature in the configured header. A missing header,
    /// a value that is not hexadecimal, and a mismatch are all invalid.
    pub fn verify(&self, headers: &Vec<Header>, body: &[u8]) -> (r: bool)
        ensures
            r == signs(self@.secret, header_text(views(headers@), self@.header), body@),
    {
        match find_header(headers, self.header.as_str()) {
            Some(value) => match signature_tag(value) {
                Some(tag) => tag_matches(self.secret.as_slice(), body, tag.as_slice()),
                None => false,
            },
            None => false,
        }
    }
}

/// Whether a request may post an event: it may, unless a verifier is configured and its
/// check failed.
pub fn gate(check: Option<bool>) -> (r: Result<(), HttpRouteError>)
    ensures
        check == Some(false) ==> r is Err && r->Err_0 is Unauthorized,
        check != Some(false) ==> r is Ok,
{
    match check {
        Some(false) => Err(HttpRouteError::Unauthorized),
        _ => Ok(()),
    }
}

/// Whether a request may post an event, when `verifier` is configured, or none is.
pub fn authorize_post(
    verifier: Option<&WebhookVerifier>,
    headers: &Vec<Header>,
    body: &[u8],
) -> (r: Result<(), HttpRouteError>)
    ensures
        match verifier {
            Some(verifier) => if signs(
                verifier@.secret,
                header_text(views(headers@), verifier@.header),
                body@,
            ) {
                r is Ok
            } else {
                r is Err && r->Err_0 is Unauthorized
            },
            None => r is Ok,
        },
{
    match verifier {
        Some(verifier) => gate(Some(verifier.verify(headers, body))),
        None => gate(None),
    }
}

/// An event as it is posted.
#[derive(Debug)]
pub struct IncomingEvent {
    pub event_type: String,
    pub payload: Vec<u8>,
    pub metadata: EventMetadata,
}

impl Clone for IncomingEvent {
    fn clone(&self) -> (r: IncomingEvent)
        ensures
            r.event_type@ == self.event_type@,
            r.payload@ == self.payload@,
            r.metadata@ == self.metadata@,
    {
        IncomingEvent {
            event_type: self.event_type.clone(),
            payload: copy_bytes(&self.payload),
            metadata: self.metadata.clone(),
        }
    }
}

/// Turn a posted event into an envelope.
pub fn post_events(input: IncomingEvent) -> (r: EventEnvelope)
    ensures
        r@.source == Source::Http,
        r@.event_type == input.event_type@,
        r@.payload == input.payload@,
        r@.metadata == input.metadata@,
        is_random_id(r@.id),
        is_clock_time(r@.timestamp),
{
    EventEnvelope::new(
        Source::Http,
        EventType::new(input.event_type.as_str()),
        input.payload,
    ).with_metadata(input.metadata)
}

/// The event of a posted body, given what reading the body as JSON gave. A body that is not
/// an event is refused.
pub fn receive_event(parsed: Result<IncomingEvent, String>) -> (r: Result<
    EventEnvelope,
    HttpRouteError,
>)
    ensures
        match parsed {
            Ok(input) => {
                &&& r is Ok
                &&& r->Ok_0@.source == Source::Http
                &&& r->Ok_0@.event_type == input.event_type@
                &&& r->Ok_0@.payload == input.payload@
                &&& r->Ok_0@.metadata == input.metadata@
                &&& is_random_id(r->Ok_0@.id)
                &&& is_clock_time(r->Ok_0@.timestamp)
            },
            Err(error) => r is Err && r->Err_0 is BadRequest && r->Err_0->BadRequest_0@ == error@,
        },
{
    match parsed {
        Ok(input) => Ok(post_events(input)),
        Err(error) => Err(HttpRouteError::BadRequest(error)),
    }
}

/// Bearer-token guard for the read and replay endpoints.
pub struct ReadAuth {
    token: Vec<u8>,
}

impl View for ReadAuth {
    type V = Seq<u8>;

    closed spec fn view(&self) -> Seq<u8> {
        self.token@
    }
}

/// The token that an authorization header presents.
pub open spec fn presented_token(value: Option<Seq<char>>) -> Option<Seq<char>> {
    match value {
        Some(value) => stripped(value, "Bearer "@),
        None => None,
    }
}

impl ReadAuth {
    pub fn new(token: Vec<u8>) -> (r: ReadAuth)
        ensures
            r@ == token@,
    {
        ReadAuth { token }
    }

    /// Whether the request carries the expected bearer token.
    pub fn authorized(&self, headers: &Vec<Header>) -> (r: bool)
        ensures
            r == match presented_token(
                header_text(views(headers@), AUTHORIZATION_HEADER@),
            ) {
                Some(token) => encode_utf8(token) == self@,
                None => false,
            },
    {
        match find_header(headers, AUTHORIZATION_HEADER) {
            Some(value) => match strip_prefix(value, "Bearer ") {
                Some(token) => constant_time_eq(token.as_str().as_bytes(), self.token.as_slice()),
                None => false,
            },
            None => false,
        }
    }
}

/// Byte equality that looks at every byte whatever it finds. Different lengths, which are
/// no secret, differ at once.
pub fn constant_time_eq(a: &[u8], b: &[u8]) -> (r: bool)
    ensures
        r == (a@ == b@),
{
    if a.len() != b.len() {
        return false;
    }
    let mut difference: u8 = 0;
    let mut i: usize = 0;
    while i < a.len()
        invariant
            i <= a@.len(),
            a@.len() == b@.len(),
            difference == 0 <==> forall|j: int| 0 <= j < i ==> a@[j] == b@[j],
        decreases a@.len() - i,
    {
        let x: u8 = a[i];
        let y: u8 = b[i];
        let before: u8 = difference;
        difference = before | (x ^ y);
        assert((before | (x ^ y)) == 0 <==> (before == 0 && x == y)) by (bit_vector);
        i += 1;
    }
    if difference == 0 {
        assert(a@ =~= b@);
    }
    difference == 0
}

/// Whether a request may read, when `auth` is configured, or none is.
pub fn authorize_read(auth: Option<&ReadAuth>, headers: &Vec<Header>) -> (r: Result<
    (),
    HttpRouteError,
>)
    ensures
        match auth {
            Some(auth) => {
                let token = presented_token(header_text(views(headers@), AUTHORIZATION_HEADER@));
                if token is Some && encode_utf8(token->0) == auth@ {
                    r is Ok
                } else {
                    r is Err && r->Err_0 is Unauthorized
                }
            },
            None => r is Ok,
        },
{
    match auth {
        Some(auth) => gate(Some(auth.authorized(headers))),
        None => gate(None),
    }
}

/// A range replay as it is asked for: the window, what narrows it, and whether it is only
/// previewed.
#[derive(Debug)]
pub struct ReplayRangeQuery {
    pub start: Timestamp,
    pub end: Timestamp,
    pub event_type: Option<String>,
    pub source: Option<String>,
    pub dry_run: bool,
}

/// Summary of a range replay: how many retained events matched. In a dry run nothing was
/// submitted.
#[derive(Debug, PartialEq, Eq)]
pub struct ReplayRangeResponse {
    pub matched: usize,
    pub dry_run: bool,
}

/// Paging of an event listing, in append order: skip `offset` records, then return at most
/// `limit`.
#[derive(Debug)]
pub struct ListEventsQuery {
    pub limit: Option<usize>,
    pub offset: Option<usize>,
}

impl Default for ListEventsQuery {
    fn default() -> (r: ListEventsQuery)
        ensures
            r.limit is None,
            r.offset is None,
    {
        ListEventsQuery { limit: None, offset: None }
    }
}

/// `n`, or as much as there is.
pub open spec fn at_most(n: int, available: int) -> int {
    if n <= available {
        n
    } else {
        available
    }
}

/// One page of a sequence.
pub open spec fn page_of<A>(items: Seq<A>, offset: int, limit: int) -> Seq<A> {
    let from = at_most(offset, items.len() as int);
    let rest = items.skip(from);
    rest.take(at_most(limit, rest.len() as int))
}

/// The number given, or the default.
pub open spec fn or_default(value: Option<usize>, default: usize) -> usize {
    match value {
        Some(value) => value,
        None => default,
    }
}

/// One page of the retained events, in append order.
pub fn list_events<S: EventStore>(store: &S, query: &ListEventsQuery) -> (r: Vec<EventEnvelope>)
    ensures
        views(r@) == page_of(
            store.log(),
            or_default(query.offset, 0) as int,
            or_default(query.limit, DEFAULT_EVENT_LIST_LIMIT) as int,
        ),
{
    let offset: usize = match query.offset {
        Some(offset) => offset,
        None => 0,
    };
    let limit: usize = match query.limit {
        Some(limit) => limit,
        None => DEFAULT_EVENT_LIST_LIMIT,
    };
    let all = store.all();
    let from: usize = if offset <= all.len() {
        offset
    } else {
        all.len()
    };
    let mut page = copy_from(&all, from);
    assert(views(page@).len() == page@.len());
    if limit < page.len() {
        let ghost rest = views(page@);
        page.truncate(limit);
        assert(views(page@) =~= rest.take(limit as int));
    } else {
        assert(views(page@).take(page@.len() as int) =~= views(page@));
    }
    page
}

/// Parse an event id out of a path.
pub fn parse_event_id(raw: &str) -> (r: Result<EventId, HttpRouteError>)
    ensures
        match parsed_uuid(raw@) {
            Ok(bits) => r is Ok && r->Ok_0@ == bits,
            Err(error) => {
                &&& r is Err
                &&& r->Err_0 is BadRequest
                &&& r->Err_0->BadRequest_0@ == "invalid event id: "@ + error
            },
        },
        forall|id: EventId| raw@ == #[trigger] id_text(id@) ==> r is Ok && r->Ok_0 == id,
{
    match EventId::from_str(raw) {
        Ok(id) => Ok(id),
        Err(error) => Err(bad_event_id(error.as_str())),
    }
}

/// The answer to an event id that does not parse.
pub fn bad_event_id(error: &str) -> (r: HttpRouteError)
    ensures
        r is BadRequest,
        r->BadRequest_0@ == "invalid event id: "@ + error@,
{
    let mut message = "invalid event id: ".to_owned();
    message.append(error);
    HttpRouteError::BadRequest(message)
}

/// The retained event with an id, or the answer that there is none.
pub fn get_event<S: EventStore>(store: &S, id: EventId) -> (r: Result<
    EventEnvelope,
    HttpRouteError,
>)
    ensures
        match event_with_id(store.log(), id@) {
            Some(event) => r is Ok && r->Ok_0@ == event,
            None => {
                &&& r is Err
                &&& r->Err_0 is NotFound
                &&& r->Err_0->NotFound_0@ == "event "@ + id_text(id@) + " not found"@
            },
        },
{
    match store.get(id) {
        Some(event) => Ok(event),
        None => {
            let mut message = "event ".to_owned();
            message.append(id.to_string().as_str());
            message.append(" not found");
            Err(HttpRouteError::NotFound(message))
        },
    }
}

/// Start the replay of one event that a request asks for.
pub fn replay_event<S: EventStore, Q: DeadTriggerQueue, T: TraceSink>(
    runtime: &TriggerRuntime<Q, T>,
    store: &S,
    id: EventId,
) -> (r: Result<HandleRun, HttpRouteError>)
    ensures
        match event_with_id(store.log(), id@) {
            Some(event) => r is Ok && r->Ok_0@ == (RunView {
                event,
                matched: selected(runtime.registrations(), event),
                outcomes: Seq::empty(),
            }),
            None => {
                &&& r is Err
                &&& r->Err_0 is NotFound
                &&& r->Err_0->NotFound_0@ == id_text(id@)
            },
        },
{
    match runtime.replay_by_id(store, id) {
        Ok(run) => Ok(run),
        Err(error) => Err(replay_to_http(error)),
    }
}

/// What to do for a range replay.
pub enum RangePlan {
    /// Answer with a preview.
    Preview(ReplayRangeResponse),
    /// Replay the events.
    Replay(ReplayRun),
}

/// The filter that a range replay asks for, unless its source is unknown.
pub open spec fn filter_of(event_type: Option<Seq<char>>, source: Option<Seq<char>>) -> Option<
    FilterView,
> {
    match source {
        None => Some(FilterView { event_type, source: None }),
        Some(name) => match named_source(name) {
            Some(known) => Some(FilterView { event_type, source: Some(known) }),
            None => None,
        },
    }
}

/// Decide a range replay: an unknown source is turned down, a dry run is answered with the
/// number of events that match, and otherwise those events are replayed.
pub fn plan_range_replay<S: EventStore, Q: DeadTriggerQueue, T: TraceSink>(
    runtime: &TriggerRuntime<Q, T>,
    store: &S,
    query: ReplayRangeQuery,
) -> (r: Result<RangePlan, HttpRouteError>)
    ensures
        match filter_of(opt_text(query.event_type), opt_text(query.source)) {
            None => {
                &&& r is Err
                &&& r->Err_0 is BadRequest
                &&& r->Err_0->BadRequest_0@ == unknown_source_text(query.source->0@)
            },
            Some(filter) => {
                let matching = range_selection(store.log(), query.start@, query.end@, filter);
                &&& r is Ok
                &&& query.dry_run ==> r->Ok_0 is Preview && r->Ok_0->Preview_0.dry_run
                    && r->Ok_0->Preview_0.matched == matching.len()
                &&& !query.dry_run ==> r->Ok_0 is Replay && r->Ok_0->Replay_0@ == (ReplayRunView {
                    events: matching,
                    reports: Seq::empty(),
                })
            },
        },
{
    let ReplayRangeQuery { start, end, event_type, source, dry_run } = query;
    let named = match &source {
        Some(name) => Some(name.as_str()),
        None => None,
    };
    let filter = match replay_filter(event_type, named) {
        Ok(filter) => filter,
        Err(error) => return Err(error),
    };
    if dry_run {
        let matching = runtime.preview_range(store, &start, &end, &filter);
        assert(views(matching@).len() == matching@.len());
        Ok(RangePlan::Preview(ReplayRangeResponse { matched: matching.len(), dry_run: true }))
    } else {
        Ok(RangePlan::Replay(runtime.replay_range(store, &start, &end, &filter)))
    }
}

/// The answer to a finished range replay of `matched` events.
pub fn range_response(matched: usize) -> (r: ReplayRangeResponse)
    ensures
        r.matched == matched,
        !r.dry_run,
{
    ReplayRangeResponse { matched, dry_run: false }
}

/// Build a [`ReplayFilter`] from query strings, turning down a source that does not exist.
pub fn replay_filter(event_type: Option<String>, source: Option<&str>) -> (r: Result<
    ReplayFilter,
    HttpRouteError,
>)
    ensures
        match filter_of(opt_text(event_type), opt_str(source)) {
            Some(filter) => r is Ok && r->Ok_0@ == filter,
            None => {
                &&& r is Err
                &&& r->Err_0 is BadRequest
                &&& r->Err_0->BadRequest_0@ == unknown_source_text(source->0@)
            },
        },
{
    match source {
        Some(raw) => match parse_source(raw) {
            Ok(source) => Ok(ReplayFilter { event_type, source: Some(source) }),
            Err(error) => Err(error),
        },
        None => Ok(ReplayFilter { event_type, source: None }),
    }
}

/// The message for a source that does not exist.
pub open spec fn unknown_source_text(raw: Seq<char>) -> Seq<char> {
    "unknown source "@ + debug_text(raw)
}

/// The message for a source that does not exist.
pub(crate) fn unknown_source(raw: &str) -> (r: String)
    ensures
        r@ == unknown_source_text(raw@),
{
    let mut message = "unknown source ".to_owned();
    message.append(quoted(raw).as_str());
    message
}

/// Parse a [`Source`] from its name.
pub fn parse_source(raw: &str) -> (r: Result<Source, HttpRouteError>)
    ensures
        match named_source(raw@) {
            Some(source) => r is Ok && r->Ok_0 == source,
            None => {
                &&& r is Err
                &&& r->Err_0 is BadRequest
                &&& r->Err_0->BadRequest_0@ == unknown_source_text(raw@)
            },
        },
{
    match Source::from_name(raw) {
        Some(source) => Ok(source),
        None => Err(HttpRouteError::BadRequest(unknown_source(raw))),
    }
}

/// The answer to a replay that failed: an event that is not retained was not found, anything
/// else is the server's failure.
pub fn replay_to_http(error: ReplayError) -> (r: HttpRouteError)
    ensures
        match error {
            ReplayError::EventNotFound(message) => r is NotFound && r->NotFound_0@ == message@,
            ReplayError::Runtime(_) => r is Handler && r->Handler_0@ == replay_error_text(error),
        },
{
    match error {
        ReplayError::EventNotFound(message) => HttpRouteError::NotFound(message),
        ReplayError::Runtime(_) => {
            HttpRouteError::Handler(HandlerError { message: error.message() })
        },
    }
}

/// What a handler made of a posted event.
#[derive(Debug, PartialEq, Eq)]
pub struct EventHandlingReport {
    pub submitted: Vec<String>,
    pub failure_count: usize,
    /// True when the event was accepted for later dispatch rather than handled at once;
    /// `submitted` and `failure_count` are then not known yet.
    pub accepted: bool,
}

impl Clone for EventHandlingReport {
    fn clone(&self) -> (r: EventHandlingReport)
        ensures
            views(r.submitted@) == views(self.submitted@),
            r.failure_count == self.failure_count,
            r.accepted == self.accepted,
    {
        EventHandlingReport {
            submitted: copy_strings(&self.submitted),
            failure_count: self.failure_count,
            accepted: self.accepted,
        }
    }
}

impl EventHandlingReport {
    /// A report for an event handled at once.
    pub fn new(submitted: Vec<String>, failure_count: usize) -> (r: EventHandlingReport)
        ensures
            r == (EventHandlingReport { submitted, failure_count, accepted: false }),
    {
        EventHandlingReport { submitted, failure_count, accepted: false }
    }

    /// A report for an event accepted for later dispatch.
    pub fn accepted() -> (r: EventHandlingReport)
        ensures
            r.submitted@.len() == 0,
            r.failure_count == 0,
            r.accepted,
    {
        EventHandlingReport { submitted: Vec::new(), failure_count: 0, accepted: true }
    }

    /// The report of an ingested event.
    pub fn of_ingest(report: IngestReport) -> (r: EventHandlingReport)
        ensures
            views(r.submitted@) == report@.handle.submitted,
            r.failure_count == report@.handle.failed.len(),
            !r.accepted,
    {
        EventHandlingReport::new(report.handle.submitted, report.handle.failed.len())
    }
}

/// Whether an accepted event has to be handed to the dispatcher: a duplicate was, when it
/// came first.
pub fn needs_dispatch(report: &crate::ingest::AcceptReport) -> (r: bool)
    ensures
        r == !report@.deduplicated,
{
    !report.deduplicated
}

/// The answer to a posted event.
#[derive(Debug, PartialEq, Eq)]
pub struct EventResponse {
    pub event_id: String,
    pub submitted: Vec<String>,
    pub failure_count: usize,
    /// True when the event was accepted for later dispatch rather than handled at once.
    pub accepted: bool,
}

impl Clone for EventResponse {
    fn clone(&self) -> (r: EventResponse)
        ensures
            r.event_id@ == self.event_id@,
            views(r.submitted@) == views(self.submitted@),
            r.failure_count == self.failure_count,
            r.accepted == self.accepted,
    {
        EventResponse {
            event_id: self.event_id.clone(),
            submitted: copy_strings(&self.submitted),
            failure_count: self.failure_count,
            accepted: self.accepted,
        }
    }
}

/// The status and the answer for an event that was handled: 202 when it was accepted for
/// later dispatch, 200 when it was handled at once.
pub fn event_response(event_id: String, report: EventHandlingReport) -> (r: (u16, EventResponse))
    ensures
        r.0 == if report.accepted {
            202u16
        } else {
            200u16
        },
        r.1 == (EventResponse {
            event_id,
            submitted: report.submitted,
            failure_count: report.failure_count,
            accepted: report.accepted,
        }),
{
    let status: u16 = if report.accepted {
        202
    } else {
        200
    };
    (
        status,
        EventResponse {
            event_id,
            submitted: report.submitted,
            failure_count: report.failure_count,
            accepted: report.accepted,
        },
    )
}

/// The answer to a replayed event. A replay is handled at once.
pub fn replay_response(id: EventId, report: HandleReport) -> (r: EventResponse)
    ensures
        r.event_id@ == id_text(id@),
        views(r.submitted@) == report@.submitted,
        r.failure_count == report@.failed.len(),
        !r.accepted,
{
    EventResponse {
        event_id: id.to_string(),
        submitted: report.submitted,
        failure_count: report.failed.len(),
        accepted: false,
    }
}

/// Why a handler failed.
#[derive(Debug, PartialEq, Eq)]
pub struct HandlerError {
    message: String,
}

impl View for HandlerError {
    type V = Seq<char>;

    closed spec fn view(&self) -> Seq<char> {
        self.message@
    }
}

impl HandlerError {
    pub fn new(message: &str) -> (r: HandlerError)
        ensures
            r@ == message@,
    {
        HandlerError { message: message.to_owned() }
    }

    /// The message of this error.
    pub fn message(&self) -> (r: String)
        ensures
            r@ == "event handler failed: "@ + self@,
    {
        let mut out = "event handler failed: ".to_owned();
        out.append(self.message.as_str());
        out
    }
}

/// Why a request was not served.
#[derive(Debug, PartialEq, Eq)]
pub enum HttpRouteError {
    Unauthorized,
    BadRequest(String),
    NotFound(String),
    Handler(HandlerError),
}

/// The message of an [`HttpRouteError`].
pub open spec fn route_error_text(error: HttpRouteError) -> Seq<char> {
    match error {
        HttpRouteError::Unauthorized => "unauthorized: webhook signature verification failed"@,
        HttpRouteError::BadRequest(detail) => "invalid event json: "@ + detail@,
        HttpRouteError::NotFound(what) => "not found: "@ + what@,
        HttpRouteError::Handler(error) => "event handler failed: "@ + error@,
    }
}

/// The status of an [`HttpRouteError`].
pub open spec fn route_error_status(error: HttpRouteError) -> u16 {
    match error {
        HttpRouteError::Unauthorized => 401,
        HttpRouteError::BadRequest(_) => 400,
        HttpRouteError::NotFound(_) => 404,
        HttpRouteError::Handler(_) => 500,
    }
}

impl HttpRouteError {
    /// The status of the answer.
    pub fn status(&self) -> (r: u16)
        ensures
            r == route_error_status(*self),
    {
        match self {
            HttpRouteError::Unauthorized => 401,
            HttpRouteError::BadRequest(_) => 400,
            HttpRouteError::NotFound(_) => 404,
            HttpRouteError::Handler(_) => 500,
        }
    }

    /// The message of the answer.
    pub fn message(&self) -> (r: String)
        ensures
            r@ == route_error_text(*self),
    {
        match self {
            HttpRouteError::Unauthorized => {
                "unauthorized: webhook signature verification failed".to_owned()
            },
            HttpRouteError::BadRequest(detail) => {
                let mut out = "invalid event json: ".to_owned();
                out.append(detail.as_str());
                out
            },
            HttpRouteError::NotFound(what) => {
                let mut out = "not found: ".to_owned();
                out.append(what.as_str());
                out
            },
            HttpRouteError::Handler(error) => error.message(),
        }
    }

    /// Whether the cause is the server's, and not the client's.
    pub fn is_server_error(&self) -> (r: bool)
        ensures
            r == (route_error_status(*self) == 500),
    {
        match self {
            HttpRouteError::Handler(_) => true,
            _ => false,
        }
    }

    /// What may be logged of the cause. The detail of a malformed request can quote a part
    /// of its body, so it goes to the client only.
    pub fn loggable(&self) -> (r: Option<String>)
        ensures
            match r {
                Some(text) => !(*self is BadRequest) && text@ == route_error_text(*self),
                None => *self is BadRequest,
            },
    {
        match self {
            HttpRouteError::BadRequest(_) => None,
            _ => Some(self.message()),
        }
    }
}

/// A webhook that has no event type.
#[derive(Debug, PartialEq, Eq)]
pub enum SourceError {
    UnsupportedGitHubEvent(String),
}

impl SourceError {
    /// The message of this error.
    pub fn message(&self) -> (r: String)
        ensures
            r@ == "unsupported github event: "@ + self->UnsupportedGitHubEvent_0@,
    {
        match self {
            SourceError::UnsupportedGitHubEvent(name) => {
                let mut out = "unsupported github event: ".to_owned();
                out.append(name.as_str());
                out
            },
        }
    }
}

/// The event type of a GitHub webhook, if it is a supported one: an issue or a pull request
/// that was opened or created.
pub open spec fn github_event_type(name: Seq<char>, action: Option<Seq<char>>) -> Option<
    Seq<char>,
> {
    if action != Some("opened"@) && action != Some("created"@) {
        None
    } else if name == "issues"@ {
        Some(EVENT_GITHUB_ISSUE_CREATED@)
    } else if name == "pull_request"@ {
        Some(EVENT_GITHUB_PR_CREATED@)
    } else {
        None
    }
}

/// Turn a GitHub webhook into an envelope.
pub fn github_webhook(event_name: &str, action: Option<&str>, payload: Vec<u8>) -> (r: Result<
    EventEnvelope,
    SourceError,
>)
    ensures
        match github_event_type(event_name@, opt_str(action)) {
            Some(event_type) => {
                &&& r is Ok
                &&& r->Ok_0@.source == Source::GitHub
                &&& r->Ok_0@.event_type == event_type
                &&& r->Ok_0@.payload == payload@
                &&& r->Ok_0@.metadata == crate::event::no_metadata()
                &&& is_random_id(r->Ok_0@.id)
                &&& is_clock_time(r->Ok_0@.timestamp)
            },
            None => {
                &&& r is Err
                &&& r->Err_0->UnsupportedGitHubEvent_0@ == event_name@
            },
        },
{
    let supported = match action {
        Some(action) => same_text(action, "opened") || same_text(action, "created"),
        None => false,
    };
    let event_type = if supported && same_text(event_name, "issues") {
        EVENT_GITHUB_ISSUE_CREATED
    } else if supported && same_text(event_name, "pull_request") {
        EVENT_GITHUB_PR_CREATED
    } else {
        return Err(SourceError::UnsupportedGitHubEvent(event_name.to_owned()));
    };
    Ok(EventEnvelope::new(Source::GitHub, EventType::new(event_type), payload))
}

/// Turn a Discord message into an envelope.
pub fn discord_message_created(payload: Vec<u8>) -> (r: EventEnvelope)
    ensures
        r@.source == Source::Discord,
        r@.event_type == EVENT_DISCORD_MESSAGE_CREATED@,
        r@.payload == payload@,
        r@.metadata == crate::event::no_metadata(),
        is_random_id(r@.id),
        is_clock_time(r@.timestamp),
{
    EventEnvelope::new(
        Source::Discord,
        EventType::new(EVENT_DISCORD_MESSAGE_CREATED),
        payload,
    )
}

/// Turn a Slack event into an envelope.
pub fn slack_event(payload: Vec<u8>, event_type: EventType) -> (r: EventEnvelope)
    ensures
        r@.source == Source::Slack,
        r@.event_type == event_type@,
        r@.payload == payload@,
        r@.metadata == crate::event::no_metadata(),
        is_random_id(r@.id),
        is_clock_time(r@.timestamp),
{
    EventEnvelope::new(Source::Slack, event_type, payload)
}

// ---------------------------------------------------------------------------------------
// Laws

/// Paging covers the log: a page starts where the page before it ended, and two pages in a
/// row are one page of both sizes.
pub proof fn law_pages_adjoin<A>(items: Seq<A>, offset: int, first: int, second: int)
    requires
        offset >= 0,
        first >= 0,
        second >= 0,
    ensures
        page_of(items, offset, first).len() <= first,
        page_of(items, offset, first) + page_of(items, offset + first, second) == page_of(
            items,
            offset,
            first + second,
        ),
{
    assert(page_of(items, offset, first) + page_of(items, offset + first, second) =~= page_of(
        items,
        offset,
        first + second,
    ));
}

/// A request that is turned down is answered with a client error, and a failure of the
/// handler with a server error.
pub proof fn law_refusals_are_client_errors(error: HttpRouteError)
    ensures
        error is Handler <==> route_error_status(error) >= 500,
        !(error is Handler) <==> 400 <= route_error_status(error) < 500,
{
}

/// A page holds the items from its offset on, in order, as many as are asked for or as there
/// are.
pub proof fn law_page_holds_the_items_from_its_offset<A>(
    items: Seq<A>,
    offset: int,
    limit: int,
    i: int,
)
    requires
        offset >= 0,
        limit >= 0,
    ensures
        0 <= i < page_of(items, offset, limit).len() <==> 0 <= i < limit && offset + i
            < items.len(),
        0 <= i < page_of(items, offset, limit).len() ==> page_of(items, offset, limit)[i]
            == items[offset + i],
        forall|value: usize, default: usize| #[trigger]
            or_default(Some(value), default) == value,
        forall|default: usize| #[trigger] or_default(None, default) == default,
{
}

/// A header is looked up by its name, and the first with that name counts: one at the end is
/// read only where none before it has the name.
pub proof fn law_first_header_of_a_name_counts(
    headers: Seq<HeaderView>,
    header: HeaderView,
    name: Seq<char>,
)
    ensures
        header_text(Seq::empty(), name) is None,
        (exists|k: int| 0 <= k < headers.len() && (#[trigger] headers[k]).name == name)
            ==> header_text(headers.push(header), name) == header_text(headers, name),
        (forall|k: int| 0 <= k < headers.len() ==> (#[trigger] headers[k]).name != name)
            ==> header_text(headers.push(header), name) == if header.name == name {
            header.value
        } else {
            None
        },
{
    let wanted = |other: HeaderView| other.name == name;
    crate::model::lemma_first_where_push(headers, header, wanted);
    crate::model::lemma_first_where(headers, wanted);
    if let Some(found) = crate::model::first_where(headers, wanted) {
        let k = choose|k: int| 0 <= k < headers.len() && headers[k] == found;
        assert(headers[k].name == name);
    } else {
        assert forall|k: int| 0 <= k < headers.len() implies (#[trigger] headers[k]).name
            != name by {
            assert(!wanted(headers[k]));
        }
    }
}

/// A request is signed exactly when its header holds, in hexadecimal digits and with or
/// without the prefix, the tag of its own body under the secret.
pub proof fn law_signature_is_the_tag_of_the_body(secret: Seq<u8>, digits: Seq<char>, body: Seq<u8>)
    ensures
        !signs(secret, None, body),
        signs(secret, Some("sha256="@ + digits), body) <==> hex_bytes(encode_utf8(digits)) == Some(
            hmac_sha256(secret, body),
        ),
        (forall|rest: Seq<char>| digits != #[trigger] ("sha256="@ + rest)) ==> (signs(
            secret,
            Some(digits),
            body,
        ) <==> hex_bytes(encode_utf8(digits)) == Some(hmac_sha256(secret, body))),
{
    crate::text::law_stripping_undoes_prefixing(digits, "sha256="@);
    if stripped(digits, "sha256="@) is Some {
        assert(digits == "sha256="@ + stripped(digits, "sha256="@)->0);
    }
}

/// Bytes in hexadecimal: each pair of digits, of either case, stands for one byte, the first
/// digit for its upper half; an odd number of digits, or a character that is no digit, stands
/// for nothing.
pub proof fn law_two_digits_make_a_byte(digits: Seq<u8>, i: int, high: int, low: int)
    ensures
        digits.len() % 2 == 1 ==> hex_bytes(digits) is None,
        0 <= i < digits.len() && !(48 <= digits[i] <= 57 || 97 <= digits[i] <= 102 || 65
            <= digits[i] <= 70) ==> hex_bytes(digits) is None,
        hex_bytes(digits) is Some ==> 2 * hex_bytes(digits)->0.len() == digits.len(),
        hex_bytes(digits) is Some && 0 <= 2 * i < digits.len() && 0 <= high < 16 && 0 <= low < 16
            && (digits[2 * i] == if high < 10 {
            48 + high
        } else {
            87 + high
        } || digits[2 * i] == if high < 10 {
            48 + high
        } else {
            55 + high
        }) && (digits[2 * i + 1] == if low < 10 {
            48 + low
        } else {
            87 + low
        } || digits[2 * i + 1] == if low < 10 {
            48 + low
        } else {
            55 + low
        }) ==> hex_bytes(digits)->0[i] == 16 * high + low,
        digits.len() % 2 == 0 && (forall|k: int|
            0 <= k < digits.len() ==> (48 <= #[trigger] digits[k] <= 57 || 97 <= digits[k] <= 102
                || 65 <= digits[k] <= 70)) ==> hex_bytes(digits) is Some,
{
    if 0 <= i < digits.len() {
        assert(hex_value(digits[i]) is Some || hex_value(digits[i]) is None);
    }
}

/// The token of a request is what stands behind `Bearer ` in its header; a header of another
/// form presents none, and neither does a request without one.
pub proof fn law_token_stands_behind_the_scheme(token: Seq<char>, value: Seq<char>)
    ensures
        presented_token(None) is None,
        presented_token(Some("Bearer "@ + token)) == Some(token),
        presented_token(Some(value)) matches Some(presented) ==> value == "Bearer "@ + presented,
{
    crate::text::law_stripping_undoes_prefixing(token, "Bearer "@);
    crate::text::law_stripping_undoes_prefixing(value, "Bearer "@);
}

/// The filter of a request asks for the type and the source that it names, each on its own
/// account, and there is none exactly when the source is not the name of an origin.
pub proof fn law_filter_asks_for_what_the_request_names(
    event_type: Option<Seq<char>>,
    source: Option<Seq<char>>,
)
    ensures
        filter_of(event_type, source) matches Some(filter) ==> {
            &&& filter.event_type == event_type
            &&& source is None ==> filter.source is None
            &&& source matches Some(name) ==> filter.source is Some && crate::event::source_name(
                filter.source->0,
            ) == name
        },
        filter_of(event_type, source) is None ==> source is Some && forall|known: Source|
            #[trigger] crate::event::source_name(known) != source->0,
{
    if let Some(name) = source {
        crate::event::law_only_names_of_sources_are_read(name);
    }
}

/// A GitHub webhook has an event type exactly when an issue or a pull request was opened or
/// created, and the type tells the two apart.
pub proof fn law_github_events_are_new_issues_and_pull_requests(
    name: Seq<char>,
    action: Option<Seq<char>>,
)
    ensures
        github_event_type(name, action) is Some <==> (action == Some("opened"@) || action == Some(
            "created"@,
        )) && (name == "issues"@ || name == "pull_request"@),
        github_event_type(name, action) is Some && name == "issues"@ ==> github_event_type(
            name,
            action,
        )->0 == "event.github.issue.created"@,
        github_event_type(name, action) is Some && name == "pull_request"@ ==> github_event_type(
            name,
            action,
        )->0 == "event.github.pr.created"@,
{
    reveal_strlit("issues");
    reveal_strlit("pull_request");
    assert("issues"@.len() != "pull_request"@.len());
}

/// What a refusal is answered: the status by its kind, and a message that ends with the
/// detail.
pub proof fn law_refusals_are_answered_by_their_kind(error: HttpRouteError, raw: Seq<char>)
    ensures
        error is Unauthorized ==> route_error_status(error) == 401,
        error matches HttpRouteError::BadRequest(detail) ==> route_error_status(error) == 400
            && stripped(route_error_text(error), "invalid event json: "@) == Some(detail@),
        error matches HttpRouteError::NotFound(what) ==> route_error_status(error) == 404
            && stripped(route_error_text(error), "not found: "@) == Some(what@),
        error matches HttpRouteError::Handler(cause) ==> route_error_status(error) == 500
            && stripped(route_error_text(error), "event handler failed: "@) == Some(cause@),
        stripped(unknown_source_text(raw), "unknown source "@) == Some(debug_text(raw)),
{
    match error {
        HttpRouteError::BadRequest(detail) => crate::text::law_stripping_undoes_prefixing(
            detail@,
            "invalid event json: "@,
        ),
        HttpRouteError::NotFound(what) => crate::text::law_stripping_undoes_prefixing(
            what@,
            "not found: "@,
        ),
        HttpRouteError::Handler(cause) => crate::text::law_stripping_undoes_prefixing(
            cause@,
            "event handler failed: "@,
        ),
        HttpRouteError::Unauthorized => {},
    }
    crate::text::law_stripping_undoes_prefixing(debug_text(raw), "unknown source "@);
}

/// Where a verifier is configured, a request may post exactly when its body is signed; where
/// none is, every request may. A request that may not is unauthorized, whatever else is
/// wrong with it.
pub proof fn law_only_signed_requests_may_post(
    verifier: &WebhookVerifier,
    headers: &Vec<Header>,
    body: &[u8],
    guarded: Result<(), HttpRouteError>,
    open: Result<(), HttpRouteError>,
)
    requires
        call_ensures(authorize_post, (Some(verifier), headers, body), guarded),
        call_ensures(authorize_post, (None, headers, body), open),
    ensures
        open is Ok,
        guarded is Ok <==> signs(
            verifier@.secret,
            header_text(views(headers@), verifier@.header),
            body@,
        ),
        guarded matches Err(error) ==> error is Unauthorized,
{
}

/// Where a token is configured, a request may read exactly when its authorization header is
/// that token behind `Bearer `; where none is, every request may.
pub proof fn law_only_the_token_may_read(
    auth: &ReadAuth,
    headers: &Vec<Header>,
    guarded: Result<(), HttpRouteError>,
    open: Result<(), HttpRouteError>,
)
    requires
        call_ensures(authorize_read, (Some(auth), headers), guarded),
        call_ensures(authorize_read, (None, headers), open),
    ensures
        open is Ok,
        guarded is Ok <==> exists|token: Seq<char>|
            header_text(views(headers@), "authorization"@) == Some(#[trigger] ("Bearer "@ + token))
                && encode_utf8(token) == auth@,
        guarded matches Err(error) ==> error is Unauthorized,
{
    let value = header_text(views(headers@), "authorization"@);
    if let Some(text) = value {
        crate::text::law_stripping_undoes_prefixing(text, "Bearer "@);
        if let Some(token) = stripped(text, "Bearer "@) {
            assert(text == "Bearer "@ + token);
        }
    }
    if exists|token: Seq<char>|
        value == Some(#[trigger] ("Bearer "@ + token)) && encode_utf8(token) == auth@ {
        let token = choose|token: Seq<char>|
            value == Some(#[trigger] ("Bearer "@ + token)) && encode_utf8(token) == auth@;
        law_token_stands_behind_the_scheme(token, token);
    }
}

/// A dry run tells how many events the same request would replay, and replays none.
pub proof fn law_dry_run_counts_what_would_be_replayed<
    S: EventStore,
    Q: DeadTriggerQueue,
    T: TraceSink,
>(
    runtime: &TriggerRuntime<Q, T>,
    store: &S,
    query: ReplayRangeQuery,
    dry: Result<RangePlan, HttpRouteError>,
    replay: Result<RangePlan, HttpRouteError>,
)
    requires
        call_ensures(
            plan_range_replay::<S, Q, T>,
            (runtime, store, ReplayRangeQuery { dry_run: true, ..query }),
            dry,
        ),
        call_ensures(
            plan_range_replay::<S, Q, T>,
            (runtime, store, ReplayRangeQuery { dry_run: false, ..query }),
            replay,
        ),
    ensures
        dry is Ok <==> replay is Ok,
        dry matches Ok(plan) ==> {
            &&& plan is Preview
            &&& plan->Preview_0.dry_run
            &&& replay->Ok_0 is Replay
            &&& plan->Preview_0.matched == replay->Ok_0->Replay_0@.events.len()
            &&& replay->Ok_0->Replay_0@.reports.len() == 0
        },
        dry matches Err(error) ==> error is BadRequest && query.source is Some,
{
}

/// A listing gives the events of the log from its offset on, in append order, up to its limit.
pub proof fn law_listing_is_a_page_of_the_log<S: EventStore>(
    store: &S,
    query: &ListEventsQuery,
    result: Vec<EventEnvelope>,
    i: int,
)
    requires
        call_ensures(list_events::<S>, (store, query), result),
    ensures
        ({
            let offset = match query.offset {
                Some(offset) => offset as int,
                None => 0,
            };
            let limit = match query.limit {
                Some(limit) => limit as int,
                None => 1000,
            };
            &&& 0 <= i < result@.len() <==> 0 <= i < limit && offset + i < store.log().len()
            &&& 0 <= i < result@.len() ==> result@[i]@ == store.log()[offset + i]
        }),
{
    assert(views(result@).len() == result@.len());
    if 0 <= i < result@.len() {
        assert(views(result@)[i] == result@[i]@);
    }
}

/// A lookup answers with the retained event that has the id, and that it was not found
/// exactly when none has it.
pub proof fn law_lookup_answers_with_the_retained_event<S: EventStore>(
    store: &S,
    id: EventId,
    result: Result<EventEnvelope, HttpRouteError>,
)
    requires
        call_ensures(get_event::<S>, (store, id), result),
    ensures
        result matches Ok(event) ==> event@.id == id@ && store.log().contains(event@),
        result matches Err(error) ==> error is NotFound && forall|i: int|
            0 <= i < store.log().len() ==> (#[trigger] store.log()[i]).id != id@,
{
    crate::storage::law_lookup_is_scoped_to_the_log(store.log(), id@);
}

/// An event that is to be dispatched later is answered with 202, one that was handled with
/// 200, and the answer gives the report as it is.
pub proof fn law_answer_gives_the_report(
    event_id: String,
    report: EventHandlingReport,
    result: (u16, EventResponse),
)
    requires
        call_ensures(event_response, (event_id, report), result),
    ensures
        report.accepted ==> result.0 == 202,
        !report.accepted ==> result.0 == 200,
        result.1.event_id == event_id,
        result.1.submitted == report.submitted,
        result.1.failure_count == report.failure_count,
        result.1.accepted == report.accepted,
{
}

/// What a client sent is never logged: of a malformed request nothing is, and of anything
/// else the message.
pub proof fn law_malformed_requests_are_not_logged(error: &HttpRouteError, result: Option<String>)
    requires
        call_ensures(HttpRouteError::loggable, (error,), result),
    ensures
        result is None <==> error is BadRequest,
        result matches Some(text) ==> text@ == route_error_text(*error),
{
}

} // verus!
