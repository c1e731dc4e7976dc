//! Rules of the command line: settings from flags and environment, the broker to connect
//! to, and the lines that commands print.
//!
//! Reading arguments and the environment, and printing, is left to the program.

use crate::broker::{connection_failed, lane_fault, lane_fault_text, operator_lane, redacted};
use crate::config::{config_error_text, ConfigError};
use crate::event::{
    id_text, named_source, parsed_uuid, EventEnvelope, EventId, EventMetadata, EventType, EventView,
    Source,
};
use crate::http::{unknown_source, unknown_source_text, ReadAuth, VerifierView, WebhookVerifier};
use crate::ingest::{IngestReport, IngestView};
use crate::model::views;
use crate::replay::{ReplayError, ReplayFilter, ReplayRangeReport};
use crate::retention::{AutoRetention, ManualRetention, RetentionView};
use crate::retry::DeadTriggerRetryReport;
use crate::runtime::{runtime_error_text, RuntimeError, RuntimeOptions};
use crate::text::{
    chars_of, debug_text, decimal, decimal_text, lowered, opt_str, opt_text, parse_signed,
    parse_unsigned, parsed_signed, parsed_unsigned, quoted, same_text, string_of, to_lower, trim,
    trimmed,
};
use crate::time::{parsed_timestamp, span_limit, Delay, TimeSpan, Timestamp, TimestampView};
use vstd::prelude::*;
use vstd::utf8::encode_utf8;

verus! {

/// Where events are kept, unless `TRIGGERLANE_STORE` says otherwise.
pub const DEFAULT_STORE_PATH: &'static str = "triggerlane-events.jsonl";

/// Where the SQLite broker keeps its jobs, unless `TRIGGERLANE_WORKLANE_DB` says otherwise.
pub const DEFAULT_BROKER_DB: &'static str = "triggerlane-jobs.sqlite3";

/// Where dead triggers are kept, unless `TRIGGERLANE_DTQ` says otherwise.
pub const DEFAULT_DTQ_PATH: &'static str = "triggerlane-dead-triggers.jsonl";

/// Handling time of a request, in seconds, when none is configured.
pub const DEFAULT_REQUEST_TIMEOUT_SECS: u64 = 30;

/// Grace window for delivered events when none is configured.
pub const DEFAULT_RETENTION_GRACE: &'static str = "24h";

/// Time between retention sweeps when none is configured.
pub const DEFAULT_RETENTION_INTERVAL: &'static str = "5m";

/// Hard cap on retained records when none is configured, so that neither the event store
/// nor the dead-trigger queue grows without limit.
pub const DEFAULT_RETENTION_MAX_COUNT: &'static str = "1000000";

/// Attempts at a submission when none are configured.
pub const DEFAULT_SUBMISSION_ATTEMPTS: &'static str = "3";

/// Base backoff between attempts, in milliseconds, when none is configured.
pub const DEFAULT_SUBMISSION_BACKOFF_MS: &'static str = "100";

/// Accepted events in flight when no capacity is configured.
pub const DEFAULT_ASYNC_DISPATCH_CAPACITY: usize = 1024;

/// Why a command failed.
#[derive(Debug)]
pub enum CliError {
    BindAddr(String),
    Events(String),
    Broker(String),
    RequestTimeout(String),
    Retention(String),
    Submission(String),
    Metrics(String),
    Config(ConfigError),
    Io(String),
    Json(String),
    Runtime(RuntimeError),
}

/// The message of a [`CliError`].
pub open spec fn cli_error_text(error: CliError) -> Seq<char> {
    match error {
        CliError::BindAddr(detail) => "invalid bind address: "@ + detail@,
        CliError::Events(detail) => "events: "@ + detail@,
        CliError::Broker(detail) => "worklane broker error: "@ + detail@,
        CliError::RequestTimeout(raw) => "invalid TRIGGERLANE_REQUEST_TIMEOUT_SECS: "@
            + debug_text(raw@) + " (expected a non-negative integer number of seconds)"@,
        CliError::Retention(detail) => "prune: "@ + detail@,
        CliError::Submission(detail) => "submission: "@ + detail@,
        CliError::Metrics(detail) => "metrics recorder: "@ + detail@,
        CliError::Config(error) => config_error_text(error),
        CliError::Io(detail) => detail@,
        CliError::Json(detail) => detail@,
        CliError::Runtime(error) => runtime_error_text(error),
    }
}

/// Two texts, one behind the other.
fn joined(first: &str, second: &str) -> (r: String)
    ensures
        r@ == first@ + second@,
{
    let mut out = first.to_owned();
    out.append(second);
    out
}

impl CliError {
    /// The message of this error.
    pub fn message(&self) -> (r: String)
        ensures
            r@ == cli_error_text(*self),
    {
        match self {
            CliError::BindAddr(detail) => joined("invalid bind address: ", detail.as_str()),
            CliError::Events(detail) => joined("events: ", detail.as_str()),
            CliError::Broker(detail) => joined("worklane broker error: ", detail.as_str()),
            CliError::RequestTimeout(raw) => {
                let mut out = joined(
                    "invalid TRIGGERLANE_REQUEST_TIMEOUT_SECS: ",
                    quoted(raw.as_str()).as_str(),
                );
                out.append(" (expected a non-negative integer number of seconds)");
                out
            },
            CliError::Retention(detail) => joined("prune: ", detail.as_str()),
            CliError::Submission(detail) => joined("submission: ", detail.as_str()),
            CliError::Metrics(detail) => joined("metrics recorder: ", detail.as_str()),
            CliError::Config(error) => error.message(),
            CliError::Io(detail) => detail.clone(),
            CliError::Json(detail) => detail.clone(),
            CliError::Runtime(error) => error.message(),
        }
    }
}

// ---------------------------------------------------------------------------------------
// Durations and bounds

/// The seconds in a unit of a compact duration.
pub open spec fn unit_seconds(unit: char) -> Option<int> {
    if unit == 's' {
        Some(1)
    } else if unit == 'm' {
        Some(60)
    } else if unit == 'h' {
        Some(3_600)
    } else if unit == 'd' {
        Some(86_400)
    } else {
        None
    }
}

/// The span, in nanoseconds, that a compact duration such as `30d`, `12h`, `90m` or `3600s`
/// denotes: a non-negative amount and a unit, within the limit of spans.
pub open spec fn duration_of(raw: Seq<char>) -> Option<int> {
    if raw.len() == 0 {
        None
    } else {
        match (parsed_signed(raw.drop_last()), unit_seconds(raw.last())) {
            (Some(amount), Some(unit)) => if 0 <= amount && amount * unit * 1_000_000_000
                <= span_limit() {
                Some(amount * unit * 1_000_000_000)
            } else {
                None
            },
            _ => None,
        }
    }
}

/// Parse a compact duration. An empty text, a missing or unknown unit, an amount that is
/// not a number or negative, and an overflow give `None`.
pub fn parse_duration(raw: &str) -> (r: Option<TimeSpan>)
    ensures
        match duration_of(raw@) {
            Some(nanos) => r is Some && r->0@ == nanos,
            None => r is None,
        },
{
    let chars = chars_of(raw);
    if chars.len() == 0 {
        return None;
    }
    let last: usize = chars.len() - 1;
    let unit: char = chars[last];
    let head = vstd::slice::slice_subrange(chars.as_slice(), 0, last);
    assert(head@ =~= raw@.drop_last());
    let text = string_of(head);
    let amount: i64 = match parse_signed(text.as_str()) {
        Some(amount) => amount,
        None => return None,
    };
    if amount < 0 {
        return None;
    }
    let factor: i64 = if unit == 's' {
        1
    } else if unit == 'm' {
        60
    } else if unit == 'h' {
        3_600
    } else if unit == 'd' {
        86_400
    } else {
        return None;
    };
    match amount.checked_mul(factor) {
        Some(seconds) => TimeSpan::seconds(seconds),
        None => None,
    }
}

/// Whether a setting means "no bound".
pub open spec fn means_no_bound(value: Seq<char>) -> bool {
    value.len() == 0 || value == "0"@ || value == "off"@
}

/// Whether `value` means "no bound".
fn no_bound(value: &str) -> (r: bool)
    ensures
        r == means_no_bound(value@),
{
    value.is_empty() || same_text(value, "0") || same_text(value, "off")
}

/// An optional duration bound, or the message of the error. `None`, empty, `0` and `off`
/// mean no bound; anything else must be a compact duration.
pub open spec fn bound_duration_of(raw: Option<Seq<char>>) -> Result<Option<int>, Seq<char>> {
    match raw {
        None => Ok(None),
        Some(raw) => if means_no_bound(trimmed(raw)) {
            Ok(None)
        } else {
            match duration_of(trimmed(raw)) {
                Some(span) => Ok(Some(span)),
                None => Err("invalid retention duration "@ + debug_text(trimmed(raw))),
            }
        },
    }
}

/// Parse an optional duration bound.
pub fn parse_bound_duration(raw: Option<&str>) -> (r: Result<Option<TimeSpan>, CliError>)
    ensures
        match bound_duration_of(opt_str(raw)) {
            Ok(span) => r is Ok && crate::retention::opt_span(r->Ok_0) == span,
            Err(message) => {
                &&& r is Err
                &&& r->Err_0 is Retention
                &&& r->Err_0->Retention_0@ == message
            },
        },
{
    match raw {
        None => Ok(None),
        Some(raw) => {
            let value = trim(raw);
            if no_bound(value.as_str()) {
                Ok(None)
            } else {
                match parse_duration(value.as_str()) {
                    Some(span) => Ok(Some(span)),
                    None => Err(
                        CliError::Retention(
                            joined(
                                "invalid retention duration ",
                                quoted(value.as_str()).as_str(),
                            ),
                        ),
                    ),
                }
            }
        },
    }
}

/// An optional numeric bound, or the message of the error.
pub open spec fn bound_number_of(raw: Option<Seq<char>>, label: Seq<char>) -> Result<
    Option<int>,
    Seq<char>,
> {
    match raw {
        None => Ok(None),
        Some(raw) => if means_no_bound(trimmed(raw)) {
            Ok(None)
        } else {
            match parsed_unsigned(trimmed(raw), u64::MAX as int) {
                Some(number) => Ok(Some(number)),
                None => Err(
                    "invalid retention "@ + label + " "@ + debug_text(trimmed(raw)),
                ),
            }
        },
    }
}

/// An optional number as an integer.
pub open spec fn opt_int(number: Option<u64>) -> Option<int> {
    match number {
        Some(number) => Some(number as int),
        None => None,
    }
}

/// Parse an optional numeric bound.
pub fn parse_bound_number(raw: Option<&str>, label: &str) -> (r: Result<Option<u64>, CliError>)
    ensures
        match bound_number_of(opt_str(raw), label@) {
            Ok(number) => r is Ok && opt_int(r->Ok_0) == number,
            Err(message) => {
                &&& r is Err
                &&& r->Err_0 is Retention
                &&& r->Err_0->Retention_0@ == message
            },
        },
{
    match raw {
        None => Ok(None),
        Some(raw) => {
            let value = trim(raw);
            if no_bound(value.as_str()) {
                Ok(None)
            } else {
                match parse_unsigned(value.as_str(), u64::MAX) {
                    Some(number) => Ok(Some(number)),
                    None => {
                        let mut message = joined("invalid retention ", label);
                        message.append(" ");
                        message.append(quoted(value.as_str()).as_str());
                        Err(CliError::Retention(message))
                    },
                }
            }
        },
    }
}

/// A retention policy from raw settings, or the message of the first error.
pub open spec fn auto_retention_of(
    grace: Option<Seq<char>>,
    max_age: Option<Seq<char>>,
    max_count: Option<Seq<char>>,
    max_bytes: Option<Seq<char>>,
) -> Result<RetentionView, Seq<char>> {
    match bound_duration_of(grace) {
        Err(message) => Err(message),
        Ok(delivered_grace) => match bound_duration_of(max_age) {
            Err(message) => Err(message),
            Ok(max_age) => match bound_number_of(max_count, "max-count"@) {
                Err(message) => Err(message),
                Ok(max_count) => match bound_number_of(max_bytes, "max-bytes"@) {
                    Err(message) => Err(message),
                    Ok(max_bytes) => Ok(
                        RetentionView {
                            delivered_grace,
                            max_age,
                            max_count: match max_count {
                                Some(count) => Some(count as u64 as usize),
                                None => None,
                            },
                            max_bytes: match max_bytes {
                                Some(bytes) => Some(bytes as u64),
                                None => None,
                            },
                        },
                    ),
                },
            },
        },
    }
}

/// Build an [`AutoRetention`] from raw settings.
pub fn parse_auto_retention(
    grace: Option<&str>,
    max_age: Option<&str>,
    max_count: Option<&str>,
    max_bytes: Option<&str>,
) -> (r: Result<AutoRetention, CliError>)
    ensures
        match auto_retention_of(
            opt_str(grace),
            opt_str(max_age),
            opt_str(max_count),
            opt_str(max_bytes),
        ) {
            Ok(policy) => r is Ok && r->Ok_0@ == policy,
            Err(message) => {
                &&& r is Err
                &&& r->Err_0 is Retention
                &&& r->Err_0->Retention_0@ == message
            },
        },
{
    let delivered_grace = match parse_bound_duration(grace) {
        Ok(span) => span,
        Err(error) => return Err(error),
    };
    let max_age = match parse_bound_duration(max_age) {
        Ok(span) => span,
        Err(error) => return Err(error),
    };
    let max_count: Option<usize> = match parse_bound_number(max_count, "max-count") {
        Ok(Some(count)) => Some(count as usize),
        Ok(None) => None,
        Err(error) => return Err(error),
    };
    let max_bytes: Option<u64> = match parse_bound_number(max_bytes, "max-bytes") {
        Ok(bytes) => bytes,
        Err(error) => return Err(error),
    };
    Ok(AutoRetention { delivered_grace, max_age, max_count, max_bytes })
}

/// A setting, or its default.
pub open spec fn or_text(value: Option<Seq<char>>, default: Seq<char>) -> Seq<char> {
    match value {
        Some(value) => value,
        None => default,
    }
}

/// A setting, or its default.
fn or_default<'a>(value: Option<&'a str>, default: &'a str) -> (r: &'a str)
    ensures
        r@ == or_text(opt_str(value), default@),
{
    match value {
        Some(value) => value,
        None => default,
    }
}

/// The retention policy of a server: delivered events go after a day, and a hard cap bounds
/// the stores, unless the settings say otherwise.
pub fn serve_retention(
    grace: Option<&str>,
    max_age: Option<&str>,
    max_count: Option<&str>,
    max_bytes: Option<&str>,
) -> (r: Result<AutoRetention, CliError>)
    ensures
        match auto_retention_of(
            Some(or_text(opt_str(grace), DEFAULT_RETENTION_GRACE@)),
            opt_str(max_age),
            Some(or_text(opt_str(max_count), DEFAULT_RETENTION_MAX_COUNT@)),
            opt_str(max_bytes),
        ) {
            Ok(policy) => r is Ok && r->Ok_0@ == policy,
            Err(message) => {
                &&& r is Err
                &&& r->Err_0 is Retention
                &&& r->Err_0->Retention_0@ == message
            },
        },
{
    parse_auto_retention(
        Some(or_default(grace, DEFAULT_RETENTION_GRACE)),
        max_age,
        Some(or_default(max_count, DEFAULT_RETENTION_MAX_COUNT)),
        max_bytes,
    )
}

/// The time between retention sweeps.
pub fn retention_interval(raw: Option<&str>) -> (r: Result<Delay, CliError>)
    ensures
        ({
            let raw = or_text(opt_str(raw), DEFAULT_RETENTION_INTERVAL@);
            match duration_of(raw) {
                Some(nanos) => r is Ok && r->Ok_0.nanos == nanos,
                None => {
                    &&& r is Err
                    &&& r->Err_0 is Retention
                    &&& r->Err_0->Retention_0@ == "invalid retention interval "@ + debug_text(raw)
                },
            }
        }),
{
    let raw = or_default(raw, DEFAULT_RETENTION_INTERVAL);
    match parse_duration(raw) {
        Some(span) => match span.to_delay() {
            Some(delay) => Ok(delay),
            None => Err(
                CliError::Retention(joined("invalid retention interval ", quoted(raw).as_str())),
            ),
        },
        None => Err(
            CliError::Retention(joined("invalid retention interval ", quoted(raw).as_str())),
        ),
    }
}

/// A `prune` command: by age, or by count.
#[derive(Debug)]
pub enum PrunePolicy {
    /// Keep records at or newer than the given age, such as `30d`.
    OlderThan { duration: String },
    /// Keep at most the given number of most recent records.
    Keep { count: usize },
}

/// Whether the cutoff of a `prune` command, counted back from `now`, can be represented.
pub open spec fn prune_in_range(policy: PrunePolicy, now: TimestampView) -> bool {
    match policy {
        PrunePolicy::OlderThan { duration } => {
            duration_of(duration@) matches Some(span) ==> Timestamp::reaches_back(now, span)
        },
        PrunePolicy::Keep { .. } => true,
    }
}

/// Whether the cutoff of a `prune` command, counted back from `now`, can be represented.
pub fn prune_fits(policy: &PrunePolicy, now: &Timestamp) -> (r: bool)
    requires
        now@.nanos < 1_000_000_000,
    ensures
        r == prune_in_range(*policy, now@),
{
    match policy {
        PrunePolicy::OlderThan { duration } => match parse_duration(duration.as_str()) {
            Some(span) => now.minus(&span).is_some(),
            None => true,
        },
        PrunePolicy::Keep { .. } => true,
    }
}

/// Turn a `prune` command into a retention policy at the time `now`.
pub fn resolve_prune_policy(policy: PrunePolicy, now: &Timestamp) -> (r: Result<
    ManualRetention,
    CliError,
>)
    requires
        now@.nanos < 1_000_000_000,
        prune_in_range(policy, now@),
    ensures
        match policy {
            PrunePolicy::OlderThan { duration } => match duration_of(duration@) {
                Some(span) => {
                    &&& r is Ok
                    &&& r->Ok_0 is OlderThan
                    &&& 0 <= r->Ok_0->OlderThan_0@.nanos < 1_000_000_000
                    &&& r->Ok_0->OlderThan_0@.secs * 1_000_000_000 + r->Ok_0->OlderThan_0@.nanos
                        == now@.secs * 1_000_000_000 + now@.nanos - span
                },
                None => {
                    &&& r is Err
                    &&& r->Err_0 is Retention
                    &&& r->Err_0->Retention_0@ == "invalid duration "@ + debug_text(duration@)
                },
            },
            PrunePolicy::Keep { count } => r is Ok && r->Ok_0 == ManualRetention::KeepMostRecent(
                count,
            ),
        },
{
    match policy {
        PrunePolicy::OlderThan { duration } => match parse_duration(duration.as_str()) {
            Some(span) => match now.minus(&span) {
                Some(cutoff) => Ok(ManualRetention::OlderThan(cutoff)),
                None => Err(invalid_duration(duration.as_str())),
            },
            None => Err(invalid_duration(duration.as_str())),
        },
        PrunePolicy::Keep { count } => Ok(ManualRetention::KeepMostRecent(count)),
    }
}

fn invalid_duration(duration: &str) -> (r: CliError)
    ensures
        r is Retention,
        r->Retention_0@ == "invalid duration "@ + debug_text(duration@),
{
    CliError::Retention(joined("invalid duration ", quoted(duration).as_str()))
}

// ---------------------------------------------------------------------------------------
// Submission and serving

/// Build [`RuntimeOptions`] from raw settings, with the shipped defaults where they are not
/// set. There is always at least one attempt.
pub fn parse_runtime_options(attempts: Option<&str>, backoff_ms: Option<&str>) -> (r: Result<
    RuntimeOptions,
    CliError,
>)
    ensures
        ({
            let attempts = or_text(opt_str(attempts), DEFAULT_SUBMISSION_ATTEMPTS@);
            let backoff = or_text(opt_str(backoff_ms), DEFAULT_SUBMISSION_BACKOFF_MS@);
            match parsed_unsigned(trimmed(attempts), u32::MAX as int) {
                None => {
                    &&& r is Err
                    &&& r->Err_0 is Submission
                    &&& r->Err_0->Submission_0@ == "invalid submission attempts "@ + debug_text(
                        attempts,
                    )
                },
                Some(count) => match parsed_unsigned(trimmed(backoff), u64::MAX as int) {
                    None => {
                        &&& r is Err
                        &&& r->Err_0 is Submission
                        &&& r->Err_0->Submission_0@ == "invalid submission backoff "@ + debug_text(
                            backoff,
                        )
                    },
                    Some(millis) => {
                        &&& r is Ok
                        &&& r->Ok_0.max_submission_attempts == if count == 0 {
                            1
                        } else {
                            count
                        }
                        &&& r->Ok_0.submission_backoff.nanos == millis * 1_000_000
                    },
                },
            }
        }),
{
    let attempts = or_default(attempts, DEFAULT_SUBMISSION_ATTEMPTS);
    let count: u64 = match parse_unsigned(trim(attempts).as_str(), u32::MAX as u64) {
        Some(count) => count,
        None => {
            return Err(
                CliError::Submission(
                    joined("invalid submission attempts ", quoted(attempts).as_str()),
                ),
            );
        },
    };
    let backoff_ms = or_default(backoff_ms, DEFAULT_SUBMISSION_BACKOFF_MS);
    let millis: u64 = match parse_unsigned(trim(backoff_ms).as_str(), u64::MAX) {
        Some(millis) => millis,
        None => {
            return Err(
                CliError::Submission(
                    joined("invalid submission backoff ", quoted(backoff_ms).as_str()),
                ),
            );
        },
    };
    Ok(
        RuntimeOptions {
            max_submission_attempts: if count == 0 {
                1
            } else {
                count as u32
            },
            submission_backoff: Delay::from_millis(millis),
        },
    )
}

/// Parse the request-timeout setting: unset means the default, `0` means no timeout, a
/// positive integer means that many seconds, and anything else is an error.
pub fn parse_request_timeout(raw: Option<&str>) -> (r: Result<Option<Delay>, CliError>)
    ensures
        match raw {
            None => r is Ok && r->Ok_0 is Some && r->Ok_0->0.nanos == DEFAULT_REQUEST_TIMEOUT_SECS
                * 1_000_000_000,
            Some(raw) => match parsed_unsigned(raw@, u64::MAX as int) {
                Some(secs) => {
                    &&& r is Ok
                    &&& secs == 0 <==> r->Ok_0 is None
                    &&& secs > 0 ==> r->Ok_0 is Some && r->Ok_0->0.nanos == secs * 1_000_000_000
                },
                None => {
                    &&& r is Err
                    &&& r->Err_0 is RequestTimeout
                    &&& r->Err_0->RequestTimeout_0@ == raw@
                },
            },
        },
{
    let secs: u64 = match raw {
        Some(raw) => match parse_unsigned(raw, u64::MAX) {
            Some(secs) => secs,
            None => return Err(CliError::RequestTimeout(raw.to_owned())),
        },
        None => DEFAULT_REQUEST_TIMEOUT_SECS,
    };
    if secs > 0 {
        Ok(Some(Delay::from_secs(secs)))
    } else {
        Ok(None)
    }
}

/// A setting, with an empty one counted as not set.
pub open spec fn nonempty_of(value: Option<Seq<char>>) -> Option<Seq<char>> {
    match value {
        Some(text) => if text.len() == 0 {
            None
        } else {
            Some(text)
        },
        None => None,
    }
}

/// A setting, with an empty one counted as not set.
pub fn nonempty(value: Option<String>) -> (r: Option<String>)
    ensures
        opt_text(r) == nonempty_of(opt_text(value)),
{
    match value {
        Some(text) => if text.as_str().is_empty() {
            None
        } else {
            Some(text)
        },
        None => None,
    }
}

/// Whether a flag's value switches it on.
pub open spec fn is_truthy(value: Seq<char>) -> bool {
    let value = lowered(trimmed(value));
    value == "1"@ || value == "true"@ || value == "yes"@ || value == "on"@
}

/// Whether a flag is switched on: `1`, `true`, `yes` or `on`, in capital or small letters.
pub fn flag_enabled(value: Option<&str>) -> (r: bool)
    ensures
        r == match value {
            Some(value) => is_truthy(value@),
            None => false,
        },
{
    match value {
        Some(value) => {
            let normal = to_lower(trim(value).as_str());
            same_text(normal.as_str(), "1") || same_text(normal.as_str(), "true") || same_text(
                normal.as_str(),
                "yes",
            ) || same_text(normal.as_str(), "on")
        },
        None => false,
    }
}

/// How many accepted events may wait for dispatch. The setting must be a positive integer.
pub fn async_dispatch_capacity(raw: Option<String>) -> (r: Result<usize, CliError>)
    ensures
        match nonempty_of(opt_text(raw)) {
            None => r is Ok && r->Ok_0 == DEFAULT_ASYNC_DISPATCH_CAPACITY,
            Some(text) => match parsed_unsigned(trimmed(text), usize::MAX as int) {
                None => {
                    &&& r is Err
                    &&& r->Err_0 is Submission
                    &&& r->Err_0->Submission_0@ == "invalid async dispatch capacity "@
                        + debug_text(text)
                },
                Some(capacity) => if capacity == 0 {
                    &&& r is Err
                    &&& r->Err_0 is Submission
                    &&& r->Err_0->Submission_0@
                        == "async dispatch capacity must be greater than 0"@
                } else {
                    r is Ok && r->Ok_0 == capacity
                },
            },
        },
{
    match nonempty(raw) {
        None => Ok(DEFAULT_ASYNC_DISPATCH_CAPACITY),
        Some(raw) => match parse_unsigned(trim(raw.as_str()).as_str(), usize::MAX as u64) {
            None => Err(
                CliError::Submission(
                    joined("invalid async dispatch capacity ", quoted(raw.as_str()).as_str()),
                ),
            ),
            Some(capacity) => if capacity == 0 {
                Err(
                    CliError::Submission(
                        "async dispatch capacity must be greater than 0".to_owned(),
                    ),
                )
            } else {
                Ok(capacity as usize)
            },
        },
    }
}

/// How events are dispatched: in the background with a capacity when the flag is on, at
/// once otherwise.
pub fn dispatch_mode(flag: Option<&str>, capacity: Option<String>) -> (r: Result<
    Option<usize>,
    CliError,
>)
    ensures
        (flag is None || !is_truthy(flag->0@)) ==> r is Ok && r->Ok_0 is None,
        (flag is Some && is_truthy(flag->0@)) ==> match nonempty_of(opt_text(capacity)) {
            None => r is Ok && r->Ok_0 == Some(DEFAULT_ASYNC_DISPATCH_CAPACITY),
            Some(text) => match parsed_unsigned(trimmed(text), usize::MAX as int) {
                Some(count) => if count == 0 {
                    &&& r is Err
                    &&& r->Err_0 is Submission
                    &&& r->Err_0->Submission_0@
                        == "async dispatch capacity must be greater than 0"@
                } else {
                    r is Ok && r->Ok_0 is Some && r->Ok_0->0 == count
                },
                None => {
                    &&& r is Err
                    &&& r->Err_0 is Submission
                    &&& r->Err_0->Submission_0@ == "invalid async dispatch capacity "@
                        + debug_text(text)
                },
            },
        },
{
    if flag_enabled(flag) {
        match async_dispatch_capacity(capacity) {
            Ok(capacity) => Ok(Some(capacity)),
            Err(error) => Err(error),
        }
    } else {
        Ok(None)
    }
}

/// The verifier of a server: none unless a secret is set. An empty secret counts as not set,
/// since verifying with an empty key would keep nobody out.
pub fn webhook_verifier(secret: Option<String>) -> (r: Option<WebhookVerifier>)
    ensures
        match nonempty_of(opt_text(secret)) {
            Some(secret) => r is Some && r->0@ == (VerifierView {
                secret: encode_utf8(secret),
                header: crate::http::GITHUB_SIGNATURE_HEADER@,
            }),
            None => r is None,
        },
{
    match nonempty(secret) {
        Some(secret) => Some(WebhookVerifier::github(bytes_of(secret.as_str()))),
        None => None,
    }
}

/// The guard of a server's read endpoints: none unless a token is set.
pub fn read_guard(token: Option<String>) -> (r: Option<ReadAuth>)
    ensures
        match nonempty_of(opt_text(token)) {
            Some(token) => r is Some && r->0@ == encode_utf8(token),
            None => r is None,
        },
{
    match nonempty(token) {
        Some(token) => Some(ReadAuth::new(bytes_of(token.as_str()))),
        None => None,
    }
}

/// The bytes of a text.
fn bytes_of(text: &str) -> (r: Vec<u8>)
    ensures
        r@ == encode_utf8(text@),
{
    let mut out: Vec<u8> = Vec::new();
    out.extend_from_slice(text.as_bytes());
    assert(out@ =~= encode_utf8(text@));
    out
}

// ---------------------------------------------------------------------------------------
// Brokers

/// The Worklane broker backends.
#[derive(Debug, Clone, Copy, PartialEq, Eq, Structural)]
pub enum BrokerBackend {
    Sqlite,
    Postgres,
    Redis,
}

/// The backend with a given name.
pub open spec fn named_backend(name: Seq<char>) -> Option<BrokerBackend> {
    if name == "sqlite"@ {
        Some(BrokerBackend::Sqlite)
    } else if name == "postgres"@ {
        Some(BrokerBackend::Postgres)
    } else if name == "redis"@ {
        Some(BrokerBackend::Redis)
    } else {
        None
    }
}

/// Parse the name of a broker backend.
pub fn parse_backend(name: &str) -> (r: Result<BrokerBackend, CliError>)
    ensures
        match named_backend(name@) {
            Some(backend) => r is Ok && r->Ok_0 == backend,
            None => {
                &&& r is Err
                &&& r->Err_0 is Broker
                &&& r->Err_0->Broker_0@ == "unknown broker "@ + debug_text(name@)
                    + " (expected sqlite, postgres, or redis)"@
            },
        },
{
    if same_text(name, "sqlite") {
        Ok(BrokerBackend::Sqlite)
    } else if same_text(name, "postgres") {
        Ok(BrokerBackend::Postgres)
    } else if same_text(name, "redis") {
        Ok(BrokerBackend::Redis)
    } else {
        let mut message = joined("unknown broker ", quoted(name).as_str());
        message.append(" (expected sqlite, postgres, or redis)");
        Err(CliError::Broker(message))
    }
}

/// The URL of a network broker and where it came from, or the message when there is none:
/// the flag first, then `$TRIGGERLANE_WORKLANE_URL`, then the backend's own variable.
pub open spec fn broker_url_of(
    url_flag: Option<Seq<char>>,
    triggerlane_url: Option<Seq<char>>,
    fallback: Option<Seq<char>>,
    fallback_var: Seq<char>,
    backend: Seq<char>,
) -> Result<(Seq<char>, Seq<char>), Seq<char>> {
    match (url_flag, triggerlane_url, fallback) {
        (Some(url), _, _) => Ok((url, "--url"@)),
        (None, Some(url), _) => Ok((url, "$TRIGGERLANE_WORKLANE_URL"@)),
        (None, None, Some(url)) => Ok((url, "$"@ + fallback_var)),
        (None, None, None) => Err(
            "--url, $TRIGGERLANE_WORKLANE_URL, or $"@ + fallback_var
                + " is required for --broker "@ + backend,
        ),
    }
}

/// Resolve the URL of a network broker, and a label for where it came from. The URL itself
/// may carry a password and is never shown.
pub fn resolve_broker_url(
    url_flag: Option<&str>,
    triggerlane_url: Option<&str>,
    fallback: Option<&str>,
    fallback_var: &str,
    backend: &str,
) -> (r: Result<(String, String), CliError>)
    ensures
        match broker_url_of(
            opt_str(url_flag),
            opt_str(triggerlane_url),
            opt_str(fallback),
            fallback_var@,
            backend@,
        ) {
            Ok(found) => r is Ok && r->Ok_0.0@ == found.0 && r->Ok_0.1@ == found.1,
            Err(message) => {
                &&& r is Err
                &&& r->Err_0 is Broker
                &&& r->Err_0->Broker_0@ == message
            },
        },
{
    if let Some(url) = url_flag {
        Ok((url.to_owned(), "--url".to_owned()))
    } else if let Some(url) = triggerlane_url {
        Ok((url.to_owned(), "$TRIGGERLANE_WORKLANE_URL".to_owned()))
    } else if let Some(url) = fallback {
        Ok((url.to_owned(), joined("$", fallback_var)))
    } else {
        let mut message = joined("--url, $TRIGGERLANE_WORKLANE_URL, or $", fallback_var);
        message.append(" is required for --broker ");
        message.append(backend);
        Err(CliError::Broker(message))
    }
}

/// The environment's settings for the broker.
#[derive(Debug)]
pub struct BrokerSettings {
    /// `TRIGGERLANE_WORKLANE_DB`
    pub database_file: Option<String>,
    /// `TRIGGERLANE_WORKLANE_URL`
    pub triggerlane_url: Option<String>,
    /// `DATABASE_URL`
    pub database_url: Option<String>,
    /// `REDIS_URL`
    pub redis_url: Option<String>,
    /// `TRIGGERLANE_WORKLANE_SCHEMA`
    pub schema: Option<String>,
    /// `TRIGGERLANE_WORKLANE_NAMESPACE`
    pub namespace: Option<String>,
}

/// A broker to connect to.
#[derive(Debug, PartialEq, Eq)]
pub enum BrokerPlan {
    Sqlite { path: String },
    /// Isolated in a schema of its own, when one is given.
    Postgres { url: String, schema: Option<String>, announcement: String },
    /// Isolated in a namespace of its own, when one is given.
    Redis { url: String, namespace: Option<String>, announcement: String },
}

/// The values of a [`BrokerPlan`].
pub enum PlanView {
    Sqlite { path: Seq<char> },
    Postgres { url: Seq<char>, schema: Option<Seq<char>>, announcement: Seq<char> },
    Redis { url: Seq<char>, namespace: Option<Seq<char>>, announcement: Seq<char> },
}

impl View for BrokerPlan {
    type V = PlanView;

    open spec fn view(&self) -> PlanView {
        match self {
            BrokerPlan::Sqlite { path } => PlanView::Sqlite { path: path@ },
            BrokerPlan::Postgres { url, schema, announcement } => PlanView::Postgres {
                url: url@,
                schema: opt_text(*schema),
                announcement: announcement@,
            },
            BrokerPlan::Redis { url, namespace, announcement } => PlanView::Redis {
                url: url@,
                namespace: opt_text(*namespace),
                announcement: announcement@,
            },
        }
    }
}

/// What is said of a network broker before connecting: where its URL came from and how it is
/// isolated, but never the URL.
pub open spec fn announcement_of(
    backend: Seq<char>,
    source: Seq<char>,
    kind: Seq<char>,
    isolation: Option<Seq<char>>,
) -> Seq<char> {
    match isolation {
        Some(name) => backend + ": using "@ + source + " ("@ + kind + " "@ + name + ")"@,
        None => backend + ": using "@ + source,
    }
}

/// What is said of a network broker before connecting.
fn announcement(backend: &str, source: &str, kind: &str, isolation: &Option<String>) -> (r: String)
    ensures
        r@ == announcement_of(backend@, source@, kind@, opt_text(*isolation)),
{
    let mut out = joined(backend, ": using ");
    out.append(source);
    if let Some(name) = isolation {
        out.append(" (");
        out.append(kind);
        out.append(" ");
        out.append(name.as_str());
        out.append(")");
    }
    out
}

/// The broker to connect to, or the message when a network broker has no URL.
pub open spec fn broker_plan_of(
    backend: BrokerBackend,
    url_flag: Option<Seq<char>>,
    settings: BrokerSettings,
) -> Result<PlanView, Seq<char>> {
    match backend {
        BrokerBackend::Sqlite => Ok(
            PlanView::Sqlite { path: or_text(opt_text(settings.database_file), DEFAULT_BROKER_DB@) },
        ),
        BrokerBackend::Postgres => match broker_url_of(
            url_flag,
            opt_text(settings.triggerlane_url),
            opt_text(settings.database_url),
            "DATABASE_URL"@,
            "postgres"@,
        ) {
            Ok(found) => Ok(
                PlanView::Postgres {
                    url: found.0,
                    schema: nonempty_of(opt_text(settings.schema)),
                    announcement: announcement_of(
                        "postgres"@,
                        found.1,
                        "schema"@,
                        nonempty_of(opt_text(settings.schema)),
                    ),
                },
            ),
            Err(message) => Err(message),
        },
        BrokerBackend::Redis => match broker_url_of(
            url_flag,
            opt_text(settings.triggerlane_url),
            opt_text(settings.redis_url),
            "REDIS_URL"@,
            "redis"@,
        ) {
            Ok(found) => Ok(
                PlanView::Redis {
                    url: found.0,
                    namespace: nonempty_of(opt_text(settings.namespace)),
                    announcement: announcement_of(
                        "redis"@,
                        found.1,
                        "namespace"@,
                        nonempty_of(opt_text(settings.namespace)),
                    ),
                },
            ),
            Err(message) => Err(message),
        },
    }
}

/// An optional string as a borrowed one.
fn as_str_opt(value: &Option<String>) -> (r: Option<&str>)
    ensures
        opt_str(r) == opt_text(*value),
{
    match value {
        Some(text) => Some(text.as_str()),
        None => None,
    }
}

/// Decide which broker to connect to.
pub fn plan_broker(backend: BrokerBackend, url_flag: Option<&str>, settings: BrokerSettings) -> (r:
    Result<BrokerPlan, CliError>)
    ensures
        match broker_plan_of(backend, opt_str(url_flag), settings) {
            Ok(plan) => r is Ok && r->Ok_0@ == plan,
            Err(message) => {
                &&& r is Err
                &&& r->Err_0 is Broker
                &&& r->Err_0->Broker_0@ == message
            },
        },
{
    let BrokerSettings {
        database_file,
        triggerlane_url,
        database_url,
        redis_url,
        schema,
        namespace,
    } = settings;
    match backend {
        BrokerBackend::Sqlite => {
            let path = or_default(as_str_opt(&database_file), DEFAULT_BROKER_DB).to_owned();
            Ok(BrokerPlan::Sqlite { path })
        },
        BrokerBackend::Postgres => match resolve_broker_url(
            url_flag,
            as_str_opt(&triggerlane_url),
            as_str_opt(&database_url),
            "DATABASE_URL",
            "postgres",
        ) {
            Ok(found) => {
                let schema = nonempty(schema);
                let announcement = announcement("postgres", found.1.as_str(), "schema", &schema);
                Ok(BrokerPlan::Postgres { url: found.0, schema, announcement })
            },
            Err(error) => Err(error),
        },
        BrokerBackend::Redis => match resolve_broker_url(
            url_flag,
            as_str_opt(&triggerlane_url),
            as_str_opt(&redis_url),
            "REDIS_URL",
            "redis",
        ) {
            Ok(found) => {
                let namespace = nonempty(namespace);
                let announcement = announcement(
                    "redis",
                    found.1.as_str(),
                    "namespace",
                    &namespace,
                );
                Ok(BrokerPlan::Redis { url: found.0, namespace, announcement })
            },
            Err(error) => Err(error),
        },
    }
}

/// The error for a network broker that could not be reached, without the credentials that
/// the cause may quote.
pub fn broker_unreachable(backend: &str, error: &str) -> (r: CliError)
    ensures
        r is Broker,
        r->Broker_0@ == backend@ + ": connection failed: "@ + redacted(error@),
{
    CliError::Broker(connection_failed(backend, error))
}

/// The error for a SQLite file that could not be opened.
pub fn sqlite_unopened(path: &str, error: &str) -> (r: CliError)
    ensures
        r is Broker,
        r->Broker_0@ == "sqlite: failed to open "@ + debug_text(path@) + ": "@ + error@,
{
    let mut message = joined("sqlite: failed to open ", quoted(path).as_str());
    message.append(": ");
    message.append(error);
    CliError::Broker(message)
}

/// Check the lane of a dead-letter command.
pub fn check_lane(lane: &str) -> (r: Result<(), CliError>)
    ensures
        match lane_fault(lane@) {
            None => r is Ok,
            Some(fault) => {
                &&& r is Err
                &&& r->Err_0 is Broker
                &&& r->Err_0->Broker_0@ == "invalid lane "@ + debug_text(lane@) + ": "@
                    + lane_fault_text(fault)
            },
        },
{
    match operator_lane(lane) {
        Ok(()) => Ok(()),
        Err(message) => Err(CliError::Broker(message)),
    }
}

// ---------------------------------------------------------------------------------------
// Events

/// A manual event.
pub fn inject(event_type: &str, payload: Vec<u8>) -> (r: EventEnvelope)
    ensures
        r@.source == Source::Manual,
        r@.event_type == event_type@,
        r@.payload == payload@,
        r@.metadata == crate::event::no_metadata(),
        crate::event::is_random_id(r@.id),
        crate::time::is_clock_time(r@.timestamp),
{
    EventEnvelope::new(Source::Manual, EventType::new(event_type), payload)
}

/// An event as a file of events gives it.
#[derive(Debug)]
pub struct FileEvent {
    pub event_type: String,
    pub payload: Vec<u8>,
    pub metadata: EventMetadata,
}

/// Whether an envelope is that of an event from a file.
pub open spec fn loaded_from(event: EventView, input: FileEvent) -> bool {
    &&& event.source == Source::Manual
    &&& event.event_type == input.event_type@
    &&& event.payload == input.payload@
    &&& event.metadata == input.metadata@
    &&& crate::event::is_random_id(event.id)
    &&& crate::time::is_clock_time(event.timestamp)
}

/// Turn the events of a file into envelopes, in their order.
pub fn load_events(inputs: Vec<FileEvent>) -> (r: Vec<EventEnvelope>)
    ensures
        r@.len() == inputs@.len(),
        forall|i: int| 0 <= i < r@.len() ==> loaded_from((#[trigger] r@[i])@, inputs@[i]),
{
    let mut out: Vec<EventEnvelope> = Vec::new();
    for input in it: inputs
        invariant
            it.seq() == inputs@,
            out@.len() == it.index(),
            forall|i: int|
                0 <= i < out@.len() ==> loaded_from((#[trigger] out@[i])@, inputs@[i]),
    {
        let FileEvent { event_type, payload, metadata } = input;
        let event = inject(event_type.as_str(), payload).with_metadata(metadata);
        out.push(event);
    }
    out
}

/// The message for an event id that does not parse.
pub open spec fn bad_id_text(raw: Seq<char>, error: Seq<char>) -> Seq<char> {
    "invalid event id "@ + debug_text(raw) + ": "@ + error
}

/// Parse an event id that an operator gave.
pub fn parse_event_id(raw: &str) -> (r: Result<EventId, CliError>)
    ensures
        match parsed_uuid(raw@) {
            Ok(bits) => r is Ok && r->Ok_0@ == bits,
            Err(error) => {
                &&& r is Err
                &&& r->Err_0 is Events
                &&& r->Err_0->Events_0@ == bad_id_text(raw@, error)
            },
        },
        forall|id: EventId| raw@ == #[trigger] id_text(id@) ==> r is Ok && r->Ok_0 == id,
{
    match EventId::from_str(raw) {
        Ok(id) => Ok(id),
        Err(error) => Err(bad_input("invalid event id ", raw, error.as_str())),
    }
}

/// The error for an operator's input that does not parse.
pub fn bad_input(what: &str, raw: &str, error: &str) -> (r: CliError)
    ensures
        r is Events,
        r->Events_0@ == what@ + debug_text(raw@) + ": "@ + error@,
{
    let mut message = joined(what, quoted(raw).as_str());
    message.append(": ");
    message.append(error);
    CliError::Events(message)
}

/// Parse a time that an operator gave.
pub fn parse_timestamp(raw: &str) -> (r: Result<Timestamp, CliError>)
    ensures
        match parsed_timestamp(raw@) {
            Ok(parts) => r is Ok && r->Ok_0@ == (TimestampView {
                secs: parts.0 as int,
                nanos: parts.1 as int,
            }),
            Err(error) => {
                &&& r is Err
                &&& r->Err_0 is Events
                &&& r->Err_0->Events_0@ == "invalid timestamp "@ + debug_text(raw@) + ": "@ + error
            },
        },
{
    match Timestamp::parse(raw) {
        Ok(at) => Ok(at),
        Err(error) => Err(bad_input("invalid timestamp ", raw, error.as_str())),
    }
}

/// Parse the name of a source that an operator gave.
pub fn parse_source(raw: &str) -> (r: Result<Source, CliError>)
    ensures
        match named_source(raw@) {
            Some(source) => r is Ok && r->Ok_0 == source,
            None => {
                &&& r is Err
                &&& r->Err_0 is Events
                &&& r->Err_0->Events_0@ == unknown_source_text(raw@)
            },
        },
{
    match Source::from_name(raw) {
        Some(source) => Ok(source),
        None => Err(CliError::Events(unknown_source(raw))),
    }
}

/// The filter of a range replay that an operator asks for.
pub fn range_filter(event_type: Option<String>, source: Option<String>) -> (r: Result<
    ReplayFilter,
    CliError,
>)
    ensures
        match crate::http::filter_of(opt_text(event_type), opt_text(source)) {
            Some(filter) => r is Ok && r->Ok_0@ == filter,
            None => {
                &&& r is Err
                &&& r->Err_0 is Events
                &&& r->Err_0->Events_0@ == unknown_source_text(source->0@)
            },
        },
{
    match source {
        Some(raw) => match parse_source(raw.as_str()) {
            Ok(source) => Ok(ReplayFilter { event_type, source: Some(source) }),
            Err(error) => Err(error),
        },
        None => Ok(ReplayFilter { event_type, source: None }),
    }
}

/// The error for an event that is not retained.
pub fn event_not_found(id: EventId) -> (r: CliError)
    ensures
        r is Events,
        r->Events_0@ == "event "@ + id_text(id@) + " not found"@,
{
    let mut message = joined("event ", id.to_string().as_str());
    message.append(" not found");
    CliError::Events(message)
}

/// The error for a replay that failed.
pub fn replay_failed(error: &ReplayError) -> (r: CliError)
    ensures
        r is Events,
        r->Events_0@ == crate::replay::replay_error_text(*error),
{
    CliError::Events(error.message())
}

// ---------------------------------------------------------------------------------------
// Lines

/// The line for an injected event.
pub fn inject_line(report: &IngestReport) -> (r: String)
    ensures
        r@ == "ingested "@ + report@.event_id + " submitted "@ + decimal_text(
            report@.handle.submitted.len(),
        ),
{
    let mut out = joined("ingested ", report.event_id.as_str());
    out.append(" submitted ");
    out.append(decimal(report.handle.submitted.len() as u128).as_str());
    out
}

/// How many jobs were submitted for a list of events.
pub open spec fn submitted_in_all(reports: Seq<IngestView>) -> nat
    decreases reports.len(),
{
    if reports.len() == 0 {
        0
    } else {
        submitted_in_all(reports.drop_last()) + reports.last().handle.submitted.len()
    }
}

/// The line for a loaded file, given the report of each of its events.
pub fn load_line(reports: &Vec<IngestReport>) -> (r: String)
    ensures
        r@ == "loaded "@ + decimal_text(reports@.len()) + " submitted "@ + decimal_text(
            submitted_in_all(views(reports@)),
        ),
{
    let ghost all = views(reports@);
    let mut submitted: u128 = 0;
    let mut i: usize = 0;
    while i < reports.len()
        invariant
            i <= reports@.len(),
            all == views(reports@),
            submitted == submitted_in_all(all.take(i as int)),
            submitted <= i * u64::MAX,
        decreases reports@.len() - i,
    {
        assert(all.take(i + 1).drop_last() =~= all.take(i as int));
        assert(all[i as int].handle.submitted.len() == reports@[i as int].handle.submitted@.len());
        assert(i * u64::MAX + u64::MAX == (i + 1) * u64::MAX) by (nonlinear_arith);
        assert((i + 1) * u64::MAX <= u64::MAX * u64::MAX) by (nonlinear_arith)
            requires
                i + 1 <= u64::MAX,
        ;
        submitted = submitted + reports[i].handle.submitted.len() as u128;
        i += 1;
    }
    assert(all.take(i as int) =~= all);
    let mut out = joined("loaded ", decimal(reports.len() as u128).as_str());
    out.append(" submitted ");
    out.append(decimal(submitted).as_str());
    out
}

/// The line for a retry pass.
pub fn retry_line(report: &DeadTriggerRetryReport) -> (r: String)
    ensures
        r@ == "retried "@ + decimal_text(report@.events_retried as nat) + " drained "@
            + decimal_text(report@.drained as nat) + " recovered "@ + decimal_text(
            report@.recovered as nat,
        ) + " still-failed "@ + decimal_text(report@.still_failed as nat) + " submitted "@
            + decimal_text(report@.submitted.len()),
{
    let mut out = joined("retried ", decimal(report.events_retried as u128).as_str());
    out.append(" drained ");
    out.append(decimal(report.drained as u128).as_str());
    out.append(" recovered ");
    out.append(decimal(report.recovered as u128).as_str());
    out.append(" still-failed ");
    out.append(decimal(report.still_failed as u128).as_str());
    out.append(" submitted ");
    out.append(decimal(report.submitted.len() as u128).as_str());
    out
}

/// The line for a pruning.
pub fn prune_line(events: usize, dead_triggers: usize) -> (r: String)
    ensures
        r@ == "pruned events "@ + decimal_text(events as nat) + " dead-triggers "@ + decimal_text(
            dead_triggers as nat,
        ),
{
    let mut out = joined("pruned events ", decimal(events as u128).as_str());
    out.append(" dead-triggers ");
    out.append(decimal(dead_triggers as u128).as_str());
    out
}

/// The line for one replayed event.
pub fn replay_line(event_id: &str, submitted: usize) -> (r: String)
    ensures
        r@ == "replayed "@ + event_id@ + " submitted "@ + decimal_text(submitted as nat),
{
    let mut out = joined("replayed ", event_id);
    out.append(" submitted ");
    out.append(decimal(submitted as u128).as_str());
    out
}

/// The line for a preview of a range.
pub fn preview_line(matched: usize) -> (r: String)
    ensures
        r@ == "would replay "@ + decimal_text(matched as nat) + " (dry-run)"@,
{
    let mut out = joined("would replay ", decimal(matched as u128).as_str());
    out.append(" (dry-run)");
    out
}

/// The lines for a replayed range: one for each event with its result, and their number.
pub fn replay_range_lines(report: &ReplayRangeReport) -> (r: Vec<String>)
    ensures
        r@.len() == report.events@.len() + 1,
        forall|i: int|
            0 <= i < report.events@.len() ==> (#[trigger] r@[i])@ == "replayed "@
                + report.events@[i]@.event_id + " submitted "@ + decimal_text(
                report.events@[i]@.report.submitted.len(),
            ),
        r@.last()@ == "replayed "@ + decimal_text(report.events@.len()),
{
    let mut out: Vec<String> = Vec::new();
    let mut i: usize = 0;
    while i < report.events.len()
        invariant
            i <= report.events@.len(),
            out@.len() == i,
            forall|j: int|
                0 <= j < i ==> (#[trigger] out@[j])@ == "replayed "@ + report.events@[j]@.event_id
                    + " submitted "@ + decimal_text(report.events@[j]@.report.submitted.len()),
        decreases report.events@.len() - i,
    {
        let entry = &report.events[i];
        out.push(replay_line(entry.event_id.as_str(), entry.report.submitted.len()));
        i += 1;
    }
    out.push(joined("replayed ", decimal(report.events.len() as u128).as_str()));
    out
}

// ---------------------------------------------------------------------------------------
// Laws

/// The flag wins over the environment, and the Triggerlane variable over the backend's own;
/// an error comes exactly when no source has a URL.
pub proof fn law_broker_url_precedence(
    url_flag: Option<Seq<char>>,
    triggerlane_url: Option<Seq<char>>,
    fallback: Option<Seq<char>>,
    fallback_var: Seq<char>,
    backend: Seq<char>,
)
    ensures
        ({
            let found = broker_url_of(url_flag, triggerlane_url, fallback, fallback_var, backend);
            &&& found is Err <==> url_flag is None && triggerlane_url is None && fallback is None
            &&& url_flag matches Some(url) ==> found->Ok_0.0 == url
            &&& url_flag is None ==> (triggerlane_url matches Some(url) ==> found->Ok_0.0 == url)
        }),
{
}

/// What is announced of a broker, if anything is.
pub open spec fn announced(plan: Result<PlanView, Seq<char>>) -> Option<Seq<char>> {
    match plan {
        Ok(PlanView::Postgres { url: _, schema: _, announcement }) => Some(announcement),
        Ok(PlanView::Redis { url: _, namespace: _, announcement }) => Some(announcement),
        _ => None,
    }
}

/// What is announced of a broker depends on which sources have a URL, and not on any of the
/// URLs, so it cannot show one.
pub proof fn law_announcement_hides_the_url(
    backend: BrokerBackend,
    one_flag: Option<Seq<char>>,
    one: BrokerSettings,
    other_flag: Option<Seq<char>>,
    other: BrokerSettings,
)
    requires
        one_flag is Some <==> other_flag is Some,
        one.triggerlane_url is Some <==> other.triggerlane_url is Some,
        one.database_url is Some <==> other.database_url is Some,
        one.redis_url is Some <==> other.redis_url is Some,
        opt_text(one.schema) == opt_text(other.schema),
        opt_text(one.namespace) == opt_text(other.namespace),
    ensures
        announced(broker_plan_of(backend, one_flag, one)) == announced(
            broker_plan_of(backend, other_flag, other),
        ),
{
}

/// The shipped settings bound the stores: without any setting, delivered events go after a
/// day and at most a million records stay.
pub proof fn law_shipped_retention_is_bounded()
    ensures
        auto_retention_of(
            Some(DEFAULT_RETENTION_GRACE@),
            None,
            Some(DEFAULT_RETENTION_MAX_COUNT@),
            None,
        ) == Ok::<RetentionView, Seq<char>>(
            RetentionView {
                delivered_grace: Some(86_400_000_000_000),
                max_age: None,
                max_count: Some(1_000_000),
                max_bytes: None,
            },
        ),
{
    reveal_strlit("24h");
    reveal_strlit("1000000");
    reveal_strlit("0");
    reveal_strlit("off");
    let grace = "24h"@;
    let count = "1000000"@;
    reveal_with_fuel(trimmed, 2);
    assert(trimmed(grace) == grace);
    assert(trimmed(count) == count);
    assert(grace.len() == 3 && count.len() == 7);
    assert(grace != "off"@) by {
        assert(grace[0] == '2');
        assert("off"@[0] == 'o');
    }
    let digits = grace.drop_last();
    assert(digits =~= seq!['2', '4']);
    reveal_with_fuel(crate::text::decimal_value, 8);
    assert(digits.drop_last() =~= seq!['2']);
    assert(crate::text::decimal_value(digits) == 24);
    assert(count =~= seq!['1', '0', '0', '0', '0', '0', '0']);
    assert(count.drop_last() =~= seq!['1', '0', '0', '0', '0', '0']);
    assert(count.drop_last().drop_last() =~= seq!['1', '0', '0', '0', '0']);
    assert(crate::text::decimal_value(count) == 1_000_000);
}

/// A compact duration is an amount and a unit: its length is the amount times the seconds,
/// minutes, hours or days that the unit stands for. Without a unit, with another one, with an
/// amount that is no number or negative, and beyond the longest span, it denotes nothing.
pub proof fn law_duration_is_amount_times_unit(amount: Seq<char>, unit: char)
    ensures
        duration_of(Seq::empty()) is None,
        unit != 's' && unit != 'm' && unit != 'h' && unit != 'd' ==> duration_of(
            amount.push(unit),
        ) is None,
        parsed_signed(amount) is None || parsed_signed(amount)->0 < 0 ==> duration_of(
            amount.push(unit),
        ) is None,
        parsed_signed(amount) is Some && parsed_signed(amount)->0 >= 0 ==> {
            let count = parsed_signed(amount)->0;
            &&& count <= 9_223_372_036_854_775 ==> duration_of(amount.push('s')) == Some(
                count * 1_000_000_000,
            )
            &&& count > 9_223_372_036_854_775 ==> duration_of(amount.push('s')) is None
            &&& count <= 153_722_867_280_912 ==> duration_of(amount.push('m')) == Some(
                count * 60_000_000_000,
            )
            &&& count > 153_722_867_280_912 ==> duration_of(amount.push('m')) is None
            &&& count <= 2_562_047_788_015 ==> duration_of(amount.push('h')) == Some(
                count * 3_600_000_000_000,
            )
            &&& count > 2_562_047_788_015 ==> duration_of(amount.push('h')) is None
            &&& count <= 106_751_991_167 ==> duration_of(amount.push('d')) == Some(
                count * 86_400_000_000_000,
            )
            &&& count > 106_751_991_167 ==> duration_of(amount.push('d')) is None
        },
{
    assert(amount.push(unit).drop_last() =~= amount);
    assert(amount.push('s').drop_last() =~= amount && amount.push('s').last() == 's');
    assert(amount.push('m').drop_last() =~= amount && amount.push('m').last() == 'm');
    assert(amount.push('h').drop_last() =~= amount && amount.push('h').last() == 'h');
    assert(amount.push('d').drop_last() =~= amount && amount.push('d').last() == 'd');
    assert(span_limit() == 9_223_372_036_854_775_807_000_000);
    if let Some(count) = parsed_signed(amount) {
        assert((count * 60) * 1_000_000_000 == count * 60_000_000_000) by (nonlinear_arith);
        assert((count * 3_600) * 1_000_000_000 == count * 3_600_000_000_000) by (nonlinear_arith);
        assert((count * 86_400) * 1_000_000_000 == count * 86_400_000_000_000)
            by (nonlinear_arith);
    }
}

/// A bound is not set, is set to nothing, or is set to what its text denotes, with the white
/// space around it left out: an empty text, `0` and `off` stand for no bound, and any other
/// text that denotes nothing is an error that quotes it.
pub proof fn law_bounds_are_read_from_their_text(raw: Seq<char>, label: Seq<char>)
    ensures
        bound_duration_of(None) == Ok::<Option<int>, Seq<char>>(None),
        bound_number_of(None, label) == Ok::<Option<int>, Seq<char>>(None),
        ({
            let text = trimmed(raw);
            let unbounded = text.len() == 0 || text == seq!['0'] || text == seq!['o', 'f', 'f'];
            &&& unbounded ==> {
                &&& bound_duration_of(Some(raw)) == Ok::<Option<int>, Seq<char>>(None)
                &&& bound_number_of(Some(raw), label) == Ok::<Option<int>, Seq<char>>(None)
            }
            &&& !unbounded && duration_of(text) is Some ==> bound_duration_of(Some(raw)) == Ok::<
                Option<int>,
                Seq<char>,
            >(Some(duration_of(text)->0))
            &&& !unbounded && duration_of(text) is None ==> bound_duration_of(Some(raw)) == Err::<
                Option<int>,
                Seq<char>,
            >("invalid retention duration "@ + debug_text(text))
            &&& !unbounded && parsed_unsigned(text, 18_446_744_073_709_551_615) is Some
                ==> bound_number_of(Some(raw), label) == Ok::<Option<int>, Seq<char>>(
                Some(parsed_unsigned(text, 18_446_744_073_709_551_615)->0),
            )
            &&& !unbounded && parsed_unsigned(text, 18_446_744_073_709_551_615) is None
                ==> bound_number_of(Some(raw), label) == Err::<Option<int>, Seq<char>>(
                "invalid retention "@ + label + " "@ + debug_text(text),
            )
        }),
{
    reveal_strlit("0");
    reveal_strlit("off");
    assert("0"@ =~= seq!['0']);
    assert("off"@ =~= seq!['o', 'f', 'f']);
}

/// Each setting of a retention policy makes its own bound and no other, and the policy is
/// refused exactly when one of them is, with the error of the first that is.
pub proof fn law_retention_settings_are_independent(
    grace: Option<Seq<char>>,
    max_age: Option<Seq<char>>,
    max_count: Option<Seq<char>>,
    max_bytes: Option<Seq<char>>,
)
    ensures
        ({
            let policy = auto_retention_of(grace, max_age, max_count, max_bytes);
            let of_grace = bound_duration_of(grace);
            let of_age = bound_duration_of(max_age);
            let of_count = bound_number_of(max_count, "max-count"@);
            let of_bytes = bound_number_of(max_bytes, "max-bytes"@);
            &&& policy is Ok <==> of_grace is Ok && of_age is Ok && of_count is Ok && of_bytes is Ok
            &&& policy is Ok ==> {
                &&& policy->Ok_0.delivered_grace == of_grace->Ok_0
                &&& policy->Ok_0.max_age == of_age->Ok_0
                &&& policy->Ok_0.max_count is Some <==> of_count->Ok_0 is Some
                &&& of_count->Ok_0 matches Some(count) ==> (count <= usize::MAX
                    ==> policy->Ok_0.max_count == Some(count as usize))
                &&& policy->Ok_0.max_bytes is Some <==> of_bytes->Ok_0 is Some
                &&& of_bytes->Ok_0 matches Some(bytes) ==> policy->Ok_0.max_bytes->0 == bytes
            }
            &&& of_grace matches Err(message) ==> policy == Err::<RetentionView, Seq<char>>(message)
            &&& of_grace is Ok ==> (of_age matches Err(message) ==> policy == Err::<
                RetentionView,
                Seq<char>,
            >(message))
            &&& of_grace is Ok && of_age is Ok ==> (of_count matches Err(message) ==> policy
                == Err::<RetentionView, Seq<char>>(message))
            &&& of_grace is Ok && of_age is Ok && of_count is Ok ==> (of_bytes matches Err(message)
                ==> policy == Err::<RetentionView, Seq<char>>(message))
        }),
{
    if let Some(text) = max_count {
        lemma_number_is_not_negative(trimmed(text));
    }
    if let Some(text) = max_bytes {
        lemma_number_is_not_negative(trimmed(text));
    }
}

/// A number that is read is not negative.
proof fn lemma_number_is_not_negative(text: Seq<char>)
    ensures
        parsed_unsigned(text, u64::MAX as int) matches Some(number) ==> 0 <= number <= u64::MAX,
{
    let digits = crate::text::without_plus(text);
    if crate::text::all_digits(digits) {
        crate::text::lemma_decimal_prefix(digits, 0);
    }
}

/// A flag is on for `1`, `true`, `yes` and `on`, in letters of either case and with white
/// space around them, and for nothing else.
pub proof fn law_flags_are_switched_on_by_four_words(value: Seq<char>)
    ensures
        is_truthy(value) <==> seq![
            seq!['1'],
            seq!['t', 'r', 'u', 'e'],
            seq!['y', 'e', 's'],
            seq!['o', 'n'],
        ].contains(lowered(trimmed(value))),
{
    reveal_strlit("1");
    reveal_strlit("true");
    reveal_strlit("yes");
    reveal_strlit("on");
    let words = seq![seq!['1'], seq!['t', 'r', 'u', 'e'], seq!['y', 'e', 's'], seq!['o', 'n']];
    assert("1"@ =~= words[0]);
    assert("true"@ =~= words[1]);
    assert("yes"@ =~= words[2]);
    assert("on"@ =~= words[3]);
}

/// An empty setting counts as not set, every other stands as it is; a default stands in only
/// for what is not set.
pub proof fn law_settings_stand_as_they_are(text: Seq<char>, default: Seq<char>)
    ensures
        nonempty_of(None) is None,
        nonempty_of(Some(Seq::empty())) is None,
        text.len() > 0 ==> nonempty_of(Some(text)) == Some(text),
        or_text(Some(text), default) == text,
        or_text(None, default) == default,
{
}

/// Where a broker's URL came from is named with it: the flag, the Triggerlane variable, or
/// the backend's own; and the error names all three.
pub proof fn law_broker_url_names_its_source(
    url: Seq<char>,
    second: Option<Seq<char>>,
    third: Option<Seq<char>>,
    variable: Seq<char>,
    backend: Seq<char>,
)
    ensures
        broker_url_of(Some(url), second, third, variable, backend) == Ok::<
            (Seq<char>, Seq<char>),
            Seq<char>,
        >((url, "--url"@)),
        broker_url_of(None, Some(url), third, variable, backend) == Ok::<
            (Seq<char>, Seq<char>),
            Seq<char>,
        >((url, "$TRIGGERLANE_WORKLANE_URL"@)),
        broker_url_of(None, None, Some(url), variable, backend) == Ok::<
            (Seq<char>, Seq<char>),
            Seq<char>,
        >((url, "$"@ + variable)),
        broker_url_of(None, None, None, variable, backend) == Err::<
            (Seq<char>, Seq<char>),
            Seq<char>,
        >(
            "--url, $TRIGGERLANE_WORKLANE_URL, or $"@ + variable + " is required for --broker "@
                + backend,
        ),
{
}

/// Which broker is connected to: SQLite by its file, or the default one, whatever the URLs
/// are; PostgreSQL by the flag, the Triggerlane variable or the database's, in its schema;
/// Redis by the flag, the Triggerlane variable or its own, in its namespace. An empty schema
/// or namespace isolates nothing.
pub proof fn law_broker_plan_follows_its_settings(
    url_flag: Option<Seq<char>>,
    settings: BrokerSettings,
)
    ensures
        ({
            let sqlite = broker_plan_of(BrokerBackend::Sqlite, url_flag, settings);
            &&& settings.database_file matches Some(path) ==> sqlite == Ok::<PlanView, Seq<char>>(
                PlanView::Sqlite { path: path@ },
            )
            &&& settings.database_file is None ==> sqlite == Ok::<PlanView, Seq<char>>(
                PlanView::Sqlite { path: DEFAULT_BROKER_DB@ },
            )
        }),
        ({
            let postgres = broker_plan_of(BrokerBackend::Postgres, url_flag, settings);
            let none = url_flag is None && settings.triggerlane_url is None
                && settings.database_url is None;
            &&& none <==> postgres is Err
            &&& !none ==> {
                &&& postgres->Ok_0 is Postgres
                &&& postgres->Ok_0->Postgres_url == if url_flag is Some {
                    url_flag->0
                } else if settings.triggerlane_url is Some {
                    settings.triggerlane_url->0@
                } else {
                    settings.database_url->0@
                }
                &&& postgres->Ok_0->schema == if settings.schema is Some
                    && settings.schema->0@.len() > 0 {
                    Some(settings.schema->0@)
                } else {
                    None
                }
            }
        }),
        ({
            let redis = broker_plan_of(BrokerBackend::Redis, url_flag, settings);
            let none = url_flag is None && settings.triggerlane_url is None
                && settings.redis_url is None;
            &&& none <==> redis is Err
            &&& !none ==> {
                &&& redis->Ok_0 is Redis
                &&& redis->Ok_0->Redis_url == if url_flag is Some {
                    url_flag->0
                } else if settings.triggerlane_url is Some {
                    settings.triggerlane_url->0@
                } else {
                    settings.redis_url->0@
                }
                &&& redis->Ok_0->namespace == if settings.namespace is Some
                    && settings.namespace->0@.len() > 0 {
                    Some(settings.namespace->0@)
                } else {
                    None
                }
            }
        }),
{
}

/// What is announced of a network broker: the backend, where its URL came from and, where it
/// is isolated, in what.
pub proof fn law_announcement_names_source_and_isolation(
    url_flag: Option<Seq<char>>,
    settings: BrokerSettings,
)
    ensures
        ({
            let postgres = broker_plan_of(BrokerBackend::Postgres, url_flag, settings);
            let source = if url_flag is Some {
                "--url"@
            } else if settings.triggerlane_url is Some {
                "$TRIGGERLANE_WORKLANE_URL"@
            } else {
                "$"@ + "DATABASE_URL"@
            };
            postgres matches Ok(plan) ==> plan->Postgres_announcement == if settings.schema is Some
                && settings.schema->0@.len() > 0 {
                "postgres"@ + ": using "@ + source + " ("@ + "schema"@ + " "@ + settings.schema->0@
                    + ")"@
            } else {
                "postgres"@ + ": using "@ + source
            }
        }),
        ({
            let redis = broker_plan_of(BrokerBackend::Redis, url_flag, settings);
            let source = if url_flag is Some {
                "--url"@
            } else if settings.triggerlane_url is Some {
                "$TRIGGERLANE_WORKLANE_URL"@
            } else {
                "$"@ + "REDIS_URL"@
            };
            redis matches Ok(plan) ==> plan->Redis_announcement == if settings.namespace is Some
                && settings.namespace->0@.len() > 0 {
                "redis"@ + ": using "@ + source + " ("@ + "namespace"@ + " "@
                    + settings.namespace->0@ + ")"@
            } else {
                "redis"@ + ": using "@ + source
            }
        }),
{
}

/// Three names stand for a backend each, and no other name for one.
pub proof fn law_backends_are_read_from_their_names(name: Seq<char>)
    ensures
        named_backend("sqlite"@) == Some(BrokerBackend::Sqlite),
        named_backend("postgres"@) == Some(BrokerBackend::Postgres),
        named_backend("redis"@) == Some(BrokerBackend::Redis),
        named_backend(name) is Some ==> name == "sqlite"@ || name == "postgres"@ || name
            == "redis"@,
{
    reveal_strlit("sqlite");
    reveal_strlit("postgres");
    reveal_strlit("redis");
    assert("sqlite"@.len() == 6);
    assert("postgres"@.len() == 8);
    assert("redis"@.len() == 5);
}

/// The jobs of a file are those of all its events: one event more adds its own.
pub proof fn law_submitted_jobs_add_up(reports: Seq<IngestView>, report: IngestView)
    ensures
        submitted_in_all(Seq::empty()) == 0,
        submitted_in_all(reports.push(report)) == submitted_in_all(reports)
            + report.handle.submitted.len(),
{
    assert(reports.push(report).drop_last() =~= reports);
}

/// An event from a file is a manual one with the file's type, payload and metadata.
pub proof fn law_loaded_event_is_the_one_of_the_file(event: EventView, input: FileEvent)
    requires
        loaded_from(event, input),
    ensures
        event.source == Source::Manual,
        event.event_type == input.event_type@,
        event.payload == input.payload@,
        event.metadata == input.metadata@,
{
}

/// A cutoff is in range when it is not before the first moment and not behind the last one;
/// keeping a number of records needs none, and neither does an age that denotes nothing.
pub proof fn law_cutoffs_are_moments(policy: PrunePolicy, now: TimestampView)
    ensures
        policy is Keep ==> prune_in_range(policy, now),
        policy matches PrunePolicy::OlderThan { duration } ==> {
            &&& duration_of(duration@) is None ==> prune_in_range(policy, now)
            &&& duration_of(duration@) matches Some(span) ==> (prune_in_range(policy, now)
                <==> -8_334_601_228_800 * 1_000_000_000 <= now.secs * 1_000_000_000 + now.nanos
                - span < 8_210_266_876_800 * 1_000_000_000)
        },
{
}

/// A message names what failed and ends with the detail.
pub proof fn law_messages_give_the_detail(error: CliError, raw: Seq<char>, detail: Seq<char>)
    ensures
        error matches CliError::BindAddr(detail) ==> crate::text::stripped(
            cli_error_text(error),
            "invalid bind address: "@,
        ) == Some(detail@),
        error matches CliError::Events(detail) ==> crate::text::stripped(
            cli_error_text(error),
            "events: "@,
        ) == Some(detail@),
        error matches CliError::Broker(detail) ==> crate::text::stripped(
            cli_error_text(error),
            "worklane broker error: "@,
        ) == Some(detail@),
        error matches CliError::Retention(detail) ==> crate::text::stripped(
            cli_error_text(error),
            "prune: "@,
        ) == Some(detail@),
        error matches CliError::Submission(detail) ==> crate::text::stripped(
            cli_error_text(error),
            "submission: "@,
        ) == Some(detail@),
        error matches CliError::Metrics(detail) ==> crate::text::stripped(
            cli_error_text(error),
            "metrics recorder: "@,
        ) == Some(detail@),
        error matches CliError::Io(detail) ==> cli_error_text(error) == detail@,
        error matches CliError::Json(detail) ==> cli_error_text(error) == detail@,
        error matches CliError::Config(cause) ==> cli_error_text(error) == config_error_text(cause),
        error matches CliError::Runtime(cause) ==> cli_error_text(error) == runtime_error_text(
            cause,
        ),
        error matches CliError::RequestTimeout(raw) ==> crate::text::stripped(
            cli_error_text(error),
            "invalid TRIGGERLANE_REQUEST_TIMEOUT_SECS: "@ + debug_text(raw@),
        ) == Some(" (expected a non-negative integer number of seconds)"@),
        crate::text::stripped(
            bad_id_text(raw, detail),
            "invalid event id "@ + debug_text(raw) + ": "@,
        ) == Some(detail),
{
    match error {
        CliError::BindAddr(detail) => crate::text::law_stripping_undoes_prefixing(
            detail@,
            "invalid bind address: "@,
        ),
        CliError::Events(detail) => crate::text::law_stripping_undoes_prefixing(
            detail@,
            "events: "@,
        ),
        CliError::Broker(detail) => crate::text::law_stripping_undoes_prefixing(
            detail@,
            "worklane broker error: "@,
        ),
        CliError::Retention(detail) => crate::text::law_stripping_undoes_prefixing(
            detail@,
            "prune: "@,
        ),
        CliError::Submission(detail) => crate::text::law_stripping_undoes_prefixing(
            detail@,
            "submission: "@,
        ),
        CliError::Metrics(detail) => crate::text::law_stripping_undoes_prefixing(
            detail@,
            "metrics recorder: "@,
        ),
        CliError::RequestTimeout(raw) => crate::text::law_stripping_undoes_prefixing(
            " (expected a non-negative integer number of seconds)"@,
            "invalid TRIGGERLANE_REQUEST_TIMEOUT_SECS: "@ + debug_text(raw@),
        ),
        _ => {},
    }
    crate::text::law_stripping_undoes_prefixing(
        detail,
        "invalid event id "@ + debug_text(raw) + ": "@,
    );
}

/// However the settings are written, there is at least one attempt; a positive number of
/// attempts and any number of milliseconds are taken as they are given.
pub proof fn law_runtime_options_follow_their_settings(
    attempts: &str,
    backoff_ms: &str,
    result: Result<RuntimeOptions, CliError>,
)
    requires
        call_ensures(parse_runtime_options, (Some(attempts), Some(backoff_ms)), result),
    ensures
        ({
            let count = parsed_unsigned(trimmed(attempts@), 4_294_967_295);
            let millis = parsed_unsigned(trimmed(backoff_ms@), 18_446_744_073_709_551_615);
            &&& result is Ok <==> count is Some && millis is Some
            &&& result matches Ok(options) ==> {
                &&& options.max_submission_attempts >= 1
                &&& count->0 >= 1 ==> options.max_submission_attempts == count->0
                &&& count->0 == 0 ==> options.max_submission_attempts == 1
                &&& options.submission_backoff.nanos == millis->0 * 1_000_000
            }
            &&& result matches Err(error) ==> error is Submission
        }),
{
    lemma_number_is_not_negative(trimmed(attempts@));
}

/// A request may take the seconds that are set, as long as it likes when they are zero, and
/// half a minute when nothing is set; what is no number is refused as it is.
pub proof fn law_request_timeout_is_the_seconds_set(
    raw: Option<&str>,
    result: Result<Option<Delay>, CliError>,
)
    requires
        call_ensures(parse_request_timeout, (raw,), result),
    ensures
        raw is None ==> result is Ok && result->Ok_0 is Some && result->Ok_0->0.nanos
            == 30_000_000_000,
        raw is Some ==> {
            let secs = parsed_unsigned(raw->0@, 18_446_744_073_709_551_615);
            &&& secs is None <==> result is Err
            &&& result matches Err(error) ==> error is RequestTimeout
                && error->RequestTimeout_0@ == raw->0@
            &&& secs == Some(0int) ==> result->Ok_0 is None
            &&& secs is Some && secs->0 > 0 ==> result->Ok_0 is Some && result->Ok_0->0.nanos
                == secs->0 * 1_000_000_000
        },
{
}

/// Events are dispatched in the background exactly when the flag is on, with the capacity
/// that is set or the default one, and never with none.
pub proof fn law_dispatch_mode_follows_the_flag(
    flag: Option<&str>,
    capacity: Option<String>,
    result: Result<Option<usize>, CliError>,
)
    requires
        call_ensures(dispatch_mode, (flag, capacity), result),
    ensures
        flag is None || !is_truthy(flag->0@) ==> result is Ok && result->Ok_0 is None,
        flag is Some && is_truthy(flag->0@) ==> {
            let unset = capacity is None || capacity->0@.len() == 0;
            let count = parsed_unsigned(trimmed(capacity->0@), usize::MAX as int);
            &&& unset ==> result is Ok && result->Ok_0 == Some(DEFAULT_ASYNC_DISPATCH_CAPACITY)
            &&& !unset ==> (result is Ok <==> count is Some && count->0 != 0)
            &&& !unset && result is Ok ==> result->Ok_0 is Some && result->Ok_0->0 == count->0
        },
        result matches Ok(Some(waiting)) ==> waiting > 0,
        result matches Err(error) ==> error is Submission,
{
}

/// Pruning by age sets the cutoff that age before now, and pruning by number keeps that
/// number.
pub proof fn law_prune_cutoff_lies_the_age_before_now(
    policy: PrunePolicy,
    now: &Timestamp,
    result: Result<ManualRetention, CliError>,
)
    requires
        call_ensures(resolve_prune_policy, (policy, now), result),
        0 <= now@.nanos < 1_000_000_000,
    ensures
        policy matches PrunePolicy::Keep { count } ==> result is Ok
            && result->Ok_0 is KeepMostRecent && result->Ok_0->KeepMostRecent_0 == count,
        policy matches PrunePolicy::OlderThan { duration } ==> {
            let span = duration_of(duration@);
            &&& span is None <==> result is Err
            &&& span is Some ==> result->Ok_0 is OlderThan && crate::time::elapsed(
                now@,
                result->Ok_0->OlderThan_0@,
            ) == span->0
        },
{
}

/// Sweeps are as far apart as the setting says.
pub proof fn law_sweeps_are_as_far_apart_as_set(raw: &str, result: Result<Delay, CliError>)
    requires
        call_ensures(retention_interval, (Some(raw),), result),
    ensures
        result is Ok <==> duration_of(raw@) is Some,
        result matches Ok(delay) ==> delay.nanos == duration_of(raw@)->0,
        result matches Err(error) ==> error is Retention,
{
}

/// Each guard stands exactly when its secret is set to something, and holds the bytes of that
/// very text.
pub proof fn law_guards_hold_their_secret(
    secret: Option<String>,
    verifier: Option<WebhookVerifier>,
    guard: Option<ReadAuth>,
)
    requires
        call_ensures(webhook_verifier, (secret,), verifier),
        call_ensures(read_guard, (secret,), guard),
    ensures
        ({
            let set = secret is Some && secret->0@.len() > 0;
            &&& set <==> verifier is Some
            &&& set <==> guard is Some
            &&& set ==> verifier->0@.secret == encode_utf8(secret->0@)
            &&& set ==> verifier->0@.header == "x-hub-signature-256"@
            &&& set ==> guard->0@ == encode_utf8(secret->0@)
        }),
{
}

} // verus!
