//! The event model: identity, origin, type, metadata and the envelope.

use crate::text::opt_text;
use crate::time::{is_clock_time, Timestamp, TimestampView};
use vstd::prelude::*;

verus! {

pub const EVENT_GITHUB_ISSUE_CREATED: &'static str = "event.github.issue.created";

pub const EVENT_GITHUB_PR_CREATED: &'static str = "event.github.pr.created";

pub const EVENT_DISCORD_MESSAGE_CREATED: &'static str = "event.discord.message.created";

pub const EVENT_CRON_DAILY: &'static str = "event.cron.daily";

/// The small hexadecimal digit of `value`.
pub open spec fn hex_char(value: u128) -> char {
    if value < 10 {
        (('0' as u32) + value as u32) as char
    } else {
        (('a' as u32) + (value as u32 - 10)) as char
    }
}

/// Four bits of an identifier; position 0 holds the most significant ones.
pub open spec fn nibble(bits: u128, position: int) -> u128 {
    (bits >> ((4 * (31 - position)) as u128)) & 0xf
}

/// Where the character at `index` of the canonical form stands in the row of
/// thirty-two hexadecimal digits.
pub open spec fn digit_position(index: int) -> int {
    if index < 8 {
        index
    } else if index < 13 {
        index - 1
    } else if index < 18 {
        index - 2
    } else if index < 23 {
        index - 3
    } else {
        index - 4
    }
}

/// The canonical text of an identifier: small hexadecimal digits in groups of 8, 4,
/// 4, 4 and 12 with hyphens between.
pub open spec fn id_text(bits: u128) -> Seq<char> {
    Seq::new(
        36,
        |i: int|
            if i == 8 || i == 13 || i == 18 || i == 23 {
                '-'
            } else {
                hex_char(nibble(bits, digit_position(i)))
            },
    )
}

/// Whether bits are those of a random identifier: version 4, in the variant of RFC 9562.
pub open spec fn is_random_id(bits: u128) -> bool {
    (bits >> 76) & 0xf == 4 && (bits >> 62) & 0x3 == 2
}

/// What the `uuid` crate reads from a text: the 128 bits, or the text of its error.
pub uninterp spec fn parsed_uuid(text: Seq<char>) -> Result<u128, Seq<char>>;

/// Bits of a fresh random identifier: `uuid::Uuid::new_v4`. The version field is 4
/// and the variant field is the one of RFC 9562; the rest is random.
#[verifier::external_body]
fn random_bits() -> (r: u128)
    ensures
        is_random_id(r),
{
    uuid::Uuid::new_v4().as_u128()
}

/// The canonical text of an identifier: `Display` of `uuid::Uuid`, which writes the
/// hyphenated form in small letters.
#[verifier::external_body]
fn text_of_bits(bits: u128) -> (r: String)
    ensures
        r@ == id_text(bits),
{
    uuid::Uuid::from_u128(bits).to_string()
}

/// Parse an identifier with `uuid::Uuid::parse_str`, which accepts the plain,
/// hyphenated, braced and URN forms. The result is named by `parsed_uuid`; of it the
/// contract says that the canonical text of any bits reads back as those bits.
#[verifier::external_body]
fn bits_of_text(text: &str) -> (r: Result<u128, String>)
    ensures
        match r {
            Ok(bits) => parsed_uuid(text@) == Ok::<u128, Seq<char>>(bits),
            Err(error) => parsed_uuid(text@) == Err::<u128, Seq<char>>(error@),
        },
        forall|bits: u128| text@ == #[trigger] id_text(bits) ==> r is Ok && r->Ok_0 == bits,
{
    match uuid::Uuid::parse_str(text) {
        Ok(id) => Ok(id.as_u128()),
        Err(error) => Err(error.to_string()),
    }
}

/// Identity of an event: 128 bits, printed as a UUID.
#[derive(Debug, Clone, Copy, PartialEq, Eq, Hash, Structural)]
pub struct EventId {
    bits: u128,
}

impl View for EventId {
    type V = u128;

    closed spec fn view(&self) -> u128 {
        self.bits
    }
}

impl EventId {
    /// A fresh random identity (a version 4 UUID).
    pub fn new() -> (r: EventId)
        ensures
            is_random_id(r@),
    {
        EventId { bits: random_bits() }
    }

    /// The identity with the given bits.
    pub fn from_bits(bits: u128) -> (r: EventId)
        ensures
            r@ == bits,
    {
        EventId { bits }
    }

    /// The bits of this identity.
    pub fn bits(&self) -> (r: u128)
        ensures
            r == self@,
    {
        self.bits
    }

    /// Whether two identities are the same.
    pub fn same(&self, other: &EventId) -> (r: bool)
        ensures
            r == (self@ == other@),
            r == (*self == *other),
    {
        self.bits == other.bits
    }

    /// The canonical UUID text.
    pub fn to_string(&self) -> (r: String)
        ensures
            r@ == id_text(self@),
    {
        text_of_bits(self.bits)
    }

    /// Parse an identity from its UUID text, so that an id printed by
    /// [`EventId::to_string`] reads back as itself.
    pub fn from_str(value: &str) -> (r: Result<EventId, String>)
        ensures
            match r {
                Ok(id) => parsed_uuid(value@) == Ok::<u128, Seq<char>>(id@),
                Err(error) => parsed_uuid(value@) == Err::<u128, Seq<char>>(error@),
            },
            forall|id: EventId| value@ == #[trigger] id_text(id@) ==> r is Ok && r->Ok_0 == id,
    {
        match bits_of_text(value) {
            Ok(bits) => Ok(EventId { bits }),
            Err(error) => Err(error),
        }
    }
}

impl Default for EventId {
    fn default() -> (r: EventId)
        ensures
            is_random_id(r@),
    {
        EventId::new()
    }
}

/// Where an event came from.
#[derive(Debug, Clone, Copy, PartialEq, Eq, Structural)]
pub enum Source {
    Http,
    GitHub,
    Discord,
    Slack,
    Cron,
    Manual,
}

/// The name of an origin, as it is written and read.
pub open spec fn source_name(source: Source) -> Seq<char> {
    match source {
        Source::Http => "Http"@,
        Source::GitHub => "GitHub"@,
        Source::Discord => "Discord"@,
        Source::Slack => "Slack"@,
        Source::Cron => "Cron"@,
        Source::Manual => "Manual"@,
    }
}

/// The origin with a given name.
pub open spec fn named_source(name: Seq<char>) -> Option<Source> {
    if name == "Http"@ {
        Some(Source::Http)
    } else if name == "GitHub"@ {
        Some(Source::GitHub)
    } else if name == "Discord"@ {
        Some(Source::Discord)
    } else if name == "Slack"@ {
        Some(Source::Slack)
    } else if name == "Cron"@ {
        Some(Source::Cron)
    } else if name == "Manual"@ {
        Some(Source::Manual)
    } else {
        None
    }
}

impl Source {
    /// The name of this origin.
    pub fn name(&self) -> (r: &'static str)
        ensures
            r@ == source_name(*self),
    {
        match self {
            Source::Http => "Http",
            Source::GitHub => "GitHub",
            Source::Discord => "Discord",
            Source::Slack => "Slack",
            Source::Cron => "Cron",
            Source::Manual => "Manual",
        }
    }

    /// The origin with the given name.
    pub fn from_name(name: &str) -> (r: Option<Source>)
        ensures
            r == named_source(name@),
    {
        if crate::text::same_text(name, "Http") {
            Some(Source::Http)
        } else if crate::text::same_text(name, "GitHub") {
            Some(Source::GitHub)
        } else if crate::text::same_text(name, "Discord") {
            Some(Source::Discord)
        } else if crate::text::same_text(name, "Slack") {
            Some(Source::Slack)
        } else if crate::text::same_text(name, "Cron") {
            Some(Source::Cron)
        } else if crate::text::same_text(name, "Manual") {
            Some(Source::Manual)
        } else {
            None
        }
    }
}

/// Each origin is read back from its name, so different origins have different names.
pub proof fn law_source_is_read_back_from_its_name(source: Source)
    ensures
        named_source(source_name(source)) == Some(source),
{
    reveal_strlit("Http");
    reveal_strlit("GitHub");
    reveal_strlit("Discord");
    reveal_strlit("Slack");
    reveal_strlit("Cron");
    reveal_strlit("Manual");
    assert("Http"@[0] == 'H');
    assert("GitHub"@[0] == 'G');
    assert("Discord"@[0] == 'D');
    assert("Slack"@[0] == 'S');
    assert("Cron"@[0] == 'C');
    assert("Manual"@[0] == 'M');
}

/// The dotted name of a kind of event.
#[derive(Debug, PartialEq, Eq, Hash)]
pub struct EventType {
    value: String,
}

impl View for EventType {
    type V = Seq<char>;

    closed spec fn view(&self) -> Seq<char> {
        self.value@
    }
}

impl EventType {
    pub fn new(value: &str) -> (r: EventType)
        ensures
            r@ == value@,
    {
        EventType { value: value.to_owned() }
    }

    pub fn as_str(&self) -> (r: &str)
        ensures
            r@ == self@,
    {
        self.value.as_str()
    }
}

impl Clone for EventType {
    fn clone(&self) -> (r: EventType)
        ensures
            r@ == self@,
    {
        EventType { value: self.value.clone() }
    }
}

/// Optional context that travels with an event.
#[derive(Debug, PartialEq, Eq)]
pub struct EventMetadata {
    pub trace_id: Option<String>,
    pub correlation_id: Option<String>,
    pub tenant_id: Option<String>,
    pub idempotency_key: Option<String>,
    /// The id of the event that directly caused this one, linking a chain of
    /// events. `None` for an originating event.
    pub causation_id: Option<String>,
}

/// The values of [`EventMetadata`].
pub struct MetadataView {
    pub trace_id: Option<Seq<char>>,
    pub correlation_id: Option<Seq<char>>,
    pub tenant_id: Option<Seq<char>>,
    pub idempotency_key: Option<Seq<char>>,
    pub causation_id: Option<Seq<char>>,
}

impl View for EventMetadata {
    type V = MetadataView;

    open spec fn view(&self) -> MetadataView {
        MetadataView {
            trace_id: opt_text(self.trace_id),
            correlation_id: opt_text(self.correlation_id),
            tenant_id: opt_text(self.tenant_id),
            idempotency_key: opt_text(self.idempotency_key),
            causation_id: opt_text(self.causation_id),
        }
    }
}

/// Metadata with every value absent.
pub open spec fn no_metadata() -> MetadataView {
    MetadataView {
        trace_id: None,
        correlation_id: None,
        tenant_id: None,
        idempotency_key: None,
        causation_id: None,
    }
}

impl Default for EventMetadata {
    fn default() -> (r: EventMetadata)
        ensures
            r@ == no_metadata(),
    {
        EventMetadata {
            trace_id: None,
            correlation_id: None,
            tenant_id: None,
            idempotency_key: None,
            causation_id: None,
        }
    }
}

/// A copy of an optional string.
pub(crate) fn copy_opt(value: &Option<String>) -> (r: Option<String>)
    ensures
        opt_text(r) == opt_text(*value),
{
    match value {
        Some(text) => Some(text.clone()),
        None => None,
    }
}

impl Clone for EventMetadata {
    fn clone(&self) -> (r: EventMetadata)
        ensures
            r@ == self@,
    {
        EventMetadata {
            trace_id: copy_opt(&self.trace_id),
            correlation_id: copy_opt(&self.correlation_id),
            tenant_id: copy_opt(&self.tenant_id),
            idempotency_key: copy_opt(&self.idempotency_key),
            causation_id: copy_opt(&self.causation_id),
        }
    }
}

/// An accepted event with everything that replaying it needs.
#[derive(Debug, PartialEq, Eq)]
pub struct EventEnvelope {
    pub id: EventId,
    pub source: Source,
    pub event_type: EventType,
    pub payload: Vec<u8>,
    pub timestamp: Timestamp,
    pub metadata: EventMetadata,
}

/// The values of an [`EventEnvelope`].
pub struct EventView {
    pub id: u128,
    pub source: Source,
    pub event_type: Seq<char>,
    pub payload: Seq<u8>,
    pub timestamp: TimestampView,
    pub metadata: MetadataView,
}

impl View for EventEnvelope {
    type V = EventView;

    open spec fn view(&self) -> EventView {
        EventView {
            id: self.id@,
            source: self.source,
            event_type: self.event_type@,
            payload: self.payload@,
            timestamp: self.timestamp@,
            metadata: self.metadata@,
        }
    }
}

/// A copy of a byte vector.
pub(crate) fn copy_bytes(bytes: &Vec<u8>) -> (r: Vec<u8>)
    ensures
        r@ == bytes@,
{
    let mut out: Vec<u8> = Vec::with_capacity(bytes.len());
    out.extend_from_slice(bytes.as_slice());
    assert(out@ =~= bytes@);
    out
}

impl Clone for EventEnvelope {
    fn clone(&self) -> (r: EventEnvelope)
        ensures
            r@ == self@,
    {
        EventEnvelope {
            id: self.id,
            source: self.source,
            event_type: self.event_type.clone(),
            payload: copy_bytes(&self.payload),
            timestamp: self.timestamp,
            metadata: self.metadata.clone(),
        }
    }
}

/// The metadata of an event that `cause` gave rise to: the chain's correlation id
/// (or the cause's id, when the cause starts the chain), the cause's tenant and trace,
/// and no idempotency key.
pub open spec fn follow_up_metadata(cause: EventView) -> MetadataView {
    MetadataView {
        trace_id: cause.metadata.trace_id,
        correlation_id: match cause.metadata.correlation_id {
            Some(correlation) => Some(correlation),
            None => Some(id_text(cause.id)),
        },
        tenant_id: cause.metadata.tenant_id,
        idempotency_key: None,
        causation_id: Some(id_text(cause.id)),
    }
}

/// The metadata of an event that `cause` gave rise to.
pub fn metadata_caused_by(cause: &EventEnvelope) -> (r: EventMetadata)
    ensures
        r@ == follow_up_metadata(cause@),
{
    let correlation_id = match &cause.metadata.correlation_id {
        Some(correlation) => Some(correlation.clone()),
        None => Some(cause.id.to_string()),
    };
    EventMetadata {
        trace_id: copy_opt(&cause.metadata.trace_id),
        correlation_id,
        tenant_id: copy_opt(&cause.metadata.tenant_id),
        idempotency_key: None,
        causation_id: Some(cause.id.to_string()),
    }
}

impl EventEnvelope {
    /// A fresh event: a random identity, the current time and no metadata.
    pub fn new(source: Source, event_type: EventType, payload: Vec<u8>) -> (r: EventEnvelope)
        ensures
            is_random_id(r@.id),
            r@.source == source,
            r@.event_type == event_type@,
            r@.payload == payload@,
            is_clock_time(r@.timestamp),
            r@.metadata == no_metadata(),
    {
        EventEnvelope::assemble(EventId::new(), Timestamp::now(), source, event_type, payload)
    }

    /// An event with a given identity and time, and no metadata.
    pub fn assemble(
        id: EventId,
        timestamp: Timestamp,
        source: Source,
        event_type: EventType,
        payload: Vec<u8>,
    ) -> (r: EventEnvelope)
        ensures
            r@ == (EventView {
                id: id@,
                source,
                event_type: event_type@,
                payload: payload@,
                timestamp: timestamp@,
                metadata: no_metadata(),
            }),
    {
        EventEnvelope {
            id,
            source,
            event_type,
            payload,
            timestamp,
            metadata: EventMetadata::default(),
        }
    }

    /// The same event with `metadata` in place of its own.
    pub fn with_metadata(self, metadata: EventMetadata) -> (r: EventEnvelope)
        ensures
            r@ == (EventView { metadata: metadata@, ..self@ }),
    {
        EventEnvelope {
            id: self.id,
            source: self.source,
            event_type: self.event_type,
            payload: self.payload,
            timestamp: self.timestamp,
            metadata,
        }
    }

    /// Build a follow-up event caused by `cause`, continuing its chain. The follow-up
    /// records the cause's id as its causation id, inherits the cause's correlation id
    /// (or starts the chain from the cause's id when the cause has none), and carries
    /// the cause's tenant and trace ids. It gets a fresh id and no idempotency key.
    pub fn follow_up(
        cause: &EventEnvelope,
        source: Source,
        event_type: EventType,
        payload: Vec<u8>,
    ) -> (r: EventEnvelope)
        ensures
            is_random_id(r@.id),
            r@.source == source,
            r@.event_type == event_type@,
            r@.payload == payload@,
            is_clock_time(r@.timestamp),
            r@.metadata == follow_up_metadata(cause@),
    {
        EventEnvelope::new(source, event_type, payload).with_metadata(metadata_caused_by(cause))
    }
}

/// A chain of follow-ups keeps one correlation id and one tenant from end to end.
pub proof fn law_follow_ups_share_the_chain(cause: EventView, middle: EventView)
    requires
        middle.metadata == follow_up_metadata(cause),
    ensures
        follow_up_metadata(middle).correlation_id == middle.metadata.correlation_id,
        follow_up_metadata(middle).tenant_id == cause.metadata.tenant_id,
        follow_up_metadata(middle).trace_id == cause.metadata.trace_id,
        follow_up_metadata(middle).causation_id == Some(id_text(middle.id)),
{
}

/// Different identities have different canonical texts.
pub proof fn law_id_text_is_injective(a: u128, b: u128)
    requires
        id_text(a) == id_text(b),
    ensures
        a == b,
{
    assert forall|p: int| 0 <= p < 32 implies nibble(a, p) == nibble(b, p) by {
        let i = if p < 8 {
            p
        } else if p < 12 {
            p + 1
        } else if p < 16 {
            p + 2
        } else if p < 20 {
            p + 3
        } else {
            p + 4
        };
        assert(digit_position(i) == p);
        assert(id_text(a)[i] == hex_char(nibble(a, p)));
        assert(id_text(b)[i] == hex_char(nibble(b, p)));
        lemma_nibble_bound(a, p);
        lemma_nibble_bound(b, p);
        lemma_hex_char(nibble(a, p), nibble(b, p));
    }
    lemma_nibbles_determine(a, b);
}

proof fn lemma_nibble_bound(bits: u128, p: int)
    ensures
        nibble(bits, p) < 16,
{
    let shift: u128 = (4 * (31 - p)) as u128;
    assert((bits >> shift) & 0xf < 16) by (bit_vector);
}

proof fn lemma_hex_char(x: u128, y: u128)
    requires
        x < 16,
        y < 16,
        hex_char(x) == hex_char(y),
    ensures
        x == y,
{
}

proof fn lemma_nibbles_determine(a: u128, b: u128)
    requires
        forall|p: int| 0 <= p < 32 ==> nibble(a, p) == nibble(b, p),
    ensures
        a == b,
{
    assert(nibble(a, 0) == nibble(b, 0));
    assert(nibble(a, 1) == nibble(b, 1));
    assert(nibble(a, 2) == nibble(b, 2));
    assert(nibble(a, 3) == nibble(b, 3));
    assert(nibble(a, 4) == nibble(b, 4));
    assert(nibble(a, 5) == nibble(b, 5));
    assert(nibble(a, 6) == nibble(b, 6));
    assert(nibble(a, 7) == nibble(b, 7));
    assert(nibble(a, 8) == nibble(b, 8));
    assert(nibble(a, 9) == nibble(b, 9));
    assert(nibble(a, 10) == nibble(b, 10));
    assert(nibble(a, 11) == nibble(b, 11));
    assert(nibble(a, 12) == nibble(b, 12));
    assert(nibble(a, 13) == nibble(b, 13));
    assert(nibble(a, 14) == nibble(b, 14));
    assert(nibble(a, 15) == nibble(b, 15));
    assert(nibble(a, 16) == nibble(b, 16));
    assert(nibble(a, 17) == nibble(b, 17));
    assert(nibble(a, 18) == nibble(b, 18));
    assert(nibble(a, 19) == nibble(b, 19));
    assert(nibble(a, 20) == nibble(b, 20));
    assert(nibble(a, 21) == nibble(b, 21));
    assert(nibble(a, 22) == nibble(b, 22));
    assert(nibble(a, 23) == nibble(b, 23));
    assert(nibble(a, 24) == nibble(b, 24));
    assert(nibble(a, 25) == nibble(b, 25));
    assert(nibble(a, 26) == nibble(b, 26));
    assert(nibble(a, 27) == nibble(b, 27));
    assert(nibble(a, 28) == nibble(b, 28));
    assert(nibble(a, 29) == nibble(b, 29));
    assert(nibble(a, 30) == nibble(b, 30));
    assert(nibble(a, 31) == nibble(b, 31));
    assert(a == b) by (bit_vector)
        requires
            (a >> 124u128) & 0xf == (b >> 124u128) & 0xf,
            (a >> 120u128) & 0xf == (b >> 120u128) & 0xf,
            (a >> 116u128) & 0xf == (b >> 116u128) & 0xf,
            (a >> 112u128) & 0xf == (b >> 112u128) & 0xf,
            (a >> 108u128) & 0xf == (b >> 108u128) & 0xf,
            (a >> 104u128) & 0xf == (b >> 104u128) & 0xf,
            (a >> 100u128) & 0xf == (b >> 100u128) & 0xf,
            (a >> 96u128) & 0xf == (b >> 96u128) & 0xf,
            (a >> 92u128) & 0xf == (b >> 92u128) & 0xf,
            (a >> 88u128) & 0xf == (b >> 88u128) & 0xf,
            (a >> 84u128) & 0xf == (b >> 84u128) & 0xf,
            (a >> 80u128) & 0xf == (b >> 80u128) & 0xf,
            (a >> 76u128) & 0xf == (b >> 76u128) & 0xf,
            (a >> 72u128) & 0xf == (b >> 72u128) & 0xf,
            (a >> 68u128) & 0xf == (b >> 68u128) & 0xf,
            (a >> 64u128) & 0xf == (b >> 64u128) & 0xf,
            (a >> 60u128) & 0xf == (b >> 60u128) & 0xf,
            (a >> 56u128) & 0xf == (b >> 56u128) & 0xf,
            (a >> 52u128) & 0xf == (b >> 52u128) & 0xf,
            (a >> 48u128) & 0xf == (b >> 48u128) & 0xf,
            (a >> 44u128) & 0xf == (b >> 44u128) & 0xf,
            (a >> 40u128) & 0xf == (b >> 40u128) & 0xf,
            (a >> 36u128) & 0xf == (b >> 36u128) & 0xf,
            (a >> 32u128) & 0xf == (b >> 32u128) & 0xf,
            (a >> 28u128) & 0xf == (b >> 28u128) & 0xf,
            (a >> 24u128) & 0xf == (b >> 24u128) & 0xf,
            (a >> 20u128) & 0xf == (b >> 20u128) & 0xf,
            (a >> 16u128) & 0xf == (b >> 16u128) & 0xf,
            (a >> 12u128) & 0xf == (b >> 12u128) & 0xf,
            (a >> 8u128) & 0xf == (b >> 8u128) & 0xf,
            (a >> 4u128) & 0xf == (b >> 4u128) & 0xf,
            (a >> 0u128) & 0xf == (b >> 0u128) & 0xf,
    ;
}

/// What a follow-up says of its cause: it is caused by the cause, it belongs to the cause's
/// tenant and trace, it stays in the cause's chain, or in one that starts with the cause
/// where there was none, and it repeats no idempotency key.
pub proof fn law_follow_up_points_back_to_its_cause(cause: EventView)
    ensures
        ({
            let metadata = follow_up_metadata(cause);
            &&& metadata.causation_id == Some(id_text(cause.id))
            &&& metadata.tenant_id == cause.metadata.tenant_id
            &&& metadata.trace_id == cause.metadata.trace_id
            &&& metadata.idempotency_key is None
            &&& cause.metadata.correlation_id is Some ==> metadata.correlation_id
                == cause.metadata.correlation_id
            &&& cause.metadata.correlation_id is None ==> metadata.correlation_id == Some(
                id_text(cause.id),
            )
        }),
        no_metadata().trace_id is None,
        no_metadata().correlation_id is None,
        no_metadata().tenant_id is None,
        no_metadata().idempotency_key is None,
        no_metadata().causation_id is None,
{
}

/// The text of an identity spells its bits from the most significant on, four to a small
/// hexadecimal digit, with a hyphen behind 8, 12, 16 and 20 digits.
pub proof fn law_identity_is_spelled_in_hexadecimal(bits: u128, place: int)
    requires
        0 <= place < 32,
    ensures
        ({
            let text = id_text(bits);
            let hyphens: int = (if place >= 8 {
                1int
            } else {
                0
            }) + (if place >= 12 {
                1int
            } else {
                0
            }) + (if place >= 16 {
                1int
            } else {
                0
            }) + (if place >= 20 {
                1int
            } else {
                0
            });
            let digit = (bits >> ((124 - 4 * place) as u128)) & 0xf;
            &&& text.len() == 36
            &&& text[8] == '-' && text[13] == '-' && text[18] == '-' && text[23] == '-'
            &&& digit < 16
            &&& text[place + hyphens] == "0123456789abcdef"@[digit as int]
        }),
{
    reveal_strlit("0123456789abcdef");
    lemma_nibble_bound(bits, place);
}

/// Only the names of origins are read as one.
pub proof fn law_only_names_of_sources_are_read(name: Seq<char>)
    ensures
        named_source(name) matches Some(source) ==> source_name(source) == name,
        named_source(name) is None ==> forall|source: Source| #[trigger] source_name(source)
            != name,
{
    assert forall|source: Source|
        named_source(name) is None implies #[trigger] source_name(source) != name by {
        law_source_is_read_back_from_its_name(source);
    }
}

} // verus!
