//! What the trigger plane knows of the Worklane broker: lane names, error texts, and how
//! long to wait between attempts.

use crate::text::{debug_text, quoted, trimmed};
use crate::time::Delay;
use vstd::arithmetic::power2::pow2;
use vstd::prelude::*;
use vstd::utf8::encode_utf8;
use worklane_core::Lane;

verus! {

/// What can be wrong with a lane name.
#[derive(Debug, Clone, Copy, PartialEq, Eq, Structural)]
pub enum LaneFault {
    Empty,
    TooLong,
    InvalidChar,
}

/// A control character.
pub open spec fn is_control(c: char) -> bool {
    c <= '\u{1f}' || '\u{7f}' <= c <= '\u{9f}'
}

/// What is wrong with a lane name, if anything: it must not be empty, longer than 256
/// bytes, contain a control character, or begin or end with white space.
pub open spec fn lane_fault(name: Seq<char>) -> Option<LaneFault> {
    if name.len() == 0 {
        Some(LaneFault::Empty)
    } else if encode_utf8(name).len() > 256 {
        Some(LaneFault::TooLong)
    } else if (exists|i: int| 0 <= i < name.len() && is_control(#[trigger] name[i])) || trimmed(
        name,
    ) != name {
        Some(LaneFault::InvalidChar)
    } else {
        None
    }
}

/// Worklane's text for a fault.
pub open spec fn lane_fault_text(fault: LaneFault) -> Seq<char> {
    match fault {
        LaneFault::Empty => "lane name must not be empty"@,
        LaneFault::TooLong => "lane name must not exceed 256 bytes"@,
        LaneFault::InvalidChar => {
            "lane name must not contain control characters or leading/trailing whitespace"@
        },
    }
}

/// Check a lane name: `worklane_core::Lane::try_from` of a `&str`. It accepts exactly the
/// names without a fault, and its error prints as the text of the fault.
#[verifier::external_body]
fn lane_check(name: &str) -> (r: Result<(), String>)
    ensures
        match lane_fault(name@) {
            None => r is Ok,
            Some(fault) => r is Err && r->Err_0@ == lane_fault_text(fault),
        },
{
    match Lane::try_from(name) {
        Ok(_) => Ok(()),
        Err(error) => Err(error.to_string()),
    }
}

/// The text of a broker error: `Display` of `worklane_core::Error::Broker`.
#[verifier::external_body]
fn broker_error(detail: String) -> (r: String)
    ensures
        r@ == "broker error: "@ + detail@,
{
    worklane_core::Error::Broker(detail).to_string()
}

/// The error for a job whose lane name is not valid.
pub open spec fn invalid_lane_text(lane: Seq<char>, fault: LaneFault) -> Seq<char> {
    "broker error: "@ + ("invalid worklane lane "@ + debug_text(lane) + ": "@ + lane_fault_text(
        fault,
    ))
}

/// Check the lane of a job. A lane that is not valid can never be submitted to; the error
/// says why.
pub fn validate_lane(lane: &str) -> (r: Result<(), String>)
    ensures
        match lane_fault(lane@) {
            None => r is Ok,
            Some(fault) => r is Err && r->Err_0@ == invalid_lane_text(lane@, fault),
        },
{
    match lane_check(lane) {
        Ok(_) => Ok(()),
        Err(error) => {
            let mut detail = "invalid worklane lane ".to_owned();
            detail.append(quoted(lane).as_str());
            detail.append(": ");
            detail.append(error.as_str());
            Err(broker_error(detail))
        },
    }
}

/// Check a lane that an operator named. The error says what is wrong with it.
pub fn operator_lane(lane: &str) -> (r: Result<(), String>)
    ensures
        match lane_fault(lane@) {
            None => r is Ok,
            Some(fault) => r is Err && r->Err_0@ == "invalid lane "@ + debug_text(lane@) + ": "@
                + lane_fault_text(fault),
        },
{
    match lane_check(lane) {
        Ok(_) => Ok(()),
        Err(error) => {
            let mut message = "invalid lane ".to_owned();
            message.append(quoted(lane).as_str());
            message.append(": ");
            message.append(error.as_str());
            Err(message)
        },
    }
}

/// The longest wait between two attempts, in nanoseconds: 30 seconds.
pub const MAX_SUBMISSION_BACKOFF: u128 = 30_000_000_000;

/// The wait before a retry, in nanoseconds: the base doubled for every retry after the
/// first, up to the longest wait. Retry 0 is the first attempt, which does not wait.
pub open spec fn backoff(retry: int, base: int) -> int {
    if retry <= 0 || base == 0 {
        0
    } else if base * pow2((retry - 1) as nat) <= MAX_SUBMISSION_BACKOFF {
        base * pow2((retry - 1) as nat)
    } else {
        MAX_SUBMISSION_BACKOFF as int
    }
}

/// The wait before retry `retry_index` (1 is the first retry): `base` doubled
/// `retry_index - 1` times, up to 30 seconds. A zero base, or index 0, means no wait.
pub fn submission_backoff_delay(retry_index: u32, base: Delay) -> (r: Delay)
    ensures
        r.nanos == backoff(retry_index as int, base.nanos as int),
{
    if retry_index == 0 || base.nanos == 0 {
        return Delay { nanos: 0 };
    }
    let mut wait: u128 = base.nanos;
    let mut doubled: u32 = 0;
    proof {
        vstd::arithmetic::power2::lemma2_to64();
        assert(base.nanos * pow2(0) == base.nanos) by (nonlinear_arith)
            requires
                pow2(0) == 1,
        ;
    }
    while doubled < retry_index - 1 && wait <= MAX_SUBMISSION_BACKOFF
        invariant
            doubled <= retry_index - 1,
            base.nanos > 0,
            wait == base.nanos * pow2(doubled as nat),
        decreases retry_index - doubled,
    {
        proof {
            vstd::arithmetic::power2::lemma_pow2_unfold((doubled + 1) as nat);
            assert(base.nanos * (2 * pow2(doubled as nat)) == 2 * (base.nanos * pow2(
                doubled as nat,
            ))) by (nonlinear_arith);
        }
        wait = wait * 2;
        doubled += 1;
    }
    proof {
        lemma_doubling_grows(base.nanos as int, doubled as nat, (retry_index - 1) as nat);
    }
    if wait <= MAX_SUBMISSION_BACKOFF {
        Delay { nanos: wait }
    } else {
        Delay { nanos: MAX_SUBMISSION_BACKOFF }
    }
}

proof fn lemma_doubling_grows(base: int, a: nat, b: nat)
    requires
        base >= 0,
        a <= b,
    ensures
        base * pow2(a) <= base * pow2(b),
{
    if a < b {
        vstd::arithmetic::power2::lemma_pow2_strictly_increases(a, b);
    }
    assert(base * pow2(a) <= base * pow2(b)) by (nonlinear_arith)
        requires
            base >= 0,
            pow2(a) <= pow2(b),
    ;
}

/// Waits never shrink from one retry to the next, double until they reach the longest
/// wait, and never exceed it.
pub proof fn law_backoff_grows_and_is_bounded(retry: int, base: int)
    requires
        retry >= 1,
        base >= 0,
    ensures
        0 <= backoff(retry, base) <= MAX_SUBMISSION_BACKOFF,
        backoff(retry, base) <= backoff(retry + 1, base),
        backoff(retry, base) * 2 <= MAX_SUBMISSION_BACKOFF ==> backoff(retry + 1, base) == backoff(
            retry,
            base,
        ) * 2,
        base <= MAX_SUBMISSION_BACKOFF ==> backoff(1, base) == base,
        base > 0 ==> backoff(retry, base) > 0,
{
    let n = (retry - 1) as nat;
    vstd::arithmetic::power2::lemma_pow2_pos(n);
    vstd::arithmetic::power2::lemma_pow2_unfold(n + 1);
    vstd::arithmetic::power2::lemma2_to64();
    assert((retry + 1 - 1) as nat == n + 1);
    assert(base * (2 * pow2(n)) == 2 * (base * pow2(n))) by (nonlinear_arith);
    assert(base * pow2(n) >= 0) by (nonlinear_arith)
        requires
            base >= 0,
    ;
    assert(base > 0 ==> base * pow2(n) > 0) by (nonlinear_arith)
        requires
            pow2(n) > 0,
    ;
    assert(base * pow2(0) == base) by (nonlinear_arith)
        requires
            pow2(0) == 1,
    ;
}

/// A message with the credentials of any connection URL in it replaced.
pub uninterp spec fn redacted(message: Seq<char>) -> Seq<char>;

/// Take credentials out of a message: `worklane_core::redact_credentials`, whose result
/// is named by `redacted`.
#[verifier::external_body]
fn redact(message: &str) -> (r: String)
    ensures
        r@ == redacted(message@),
{
    worklane_core::redact_credentials(message)
}

/// The message for a broker that could not be reached. The error's text is shown without
/// the credentials that it may quote.
pub fn connection_failed(backend: &str, error: &str) -> (r: String)
    ensures
        r@ == backend@ + ": connection failed: "@ + redacted(error@),
{
    connection_message(backend, redact(error).as_str())
}

/// The message for a broker that could not be reached, given the text to show.
pub fn connection_message(backend: &str, shown: &str) -> (r: String)
    ensures
        r@ == backend@ + ": connection failed: "@ + shown@,
{
    let mut message = backend.to_owned();
    message.append(": connection failed: ");
    message.append(shown);
    message
}

/// The waits between attempts: none before the first, the base before the second, then twice
/// the last one each time, never more than half a minute; a base of zero never waits.
pub proof fn law_backoff_recurrence(retry: int, base: int)
    requires
        retry >= 1,
        base >= 0,
    ensures
        backoff(0, base) == 0,
        backoff(retry, 0) == 0,
        base <= 30_000_000_000 ==> backoff(1, base) == base,
        base >= 30_000_000_000 ==> backoff(1, base) == 30_000_000_000,
        2 * backoff(retry, base) <= 30_000_000_000 ==> backoff(retry + 1, base) == 2 * backoff(
            retry,
            base,
        ),
        2 * backoff(retry, base) >= 30_000_000_000 ==> backoff(retry + 1, base) == 30_000_000_000,
{
    let n = (retry - 1) as nat;
    vstd::arithmetic::power2::lemma_pow2_pos(n);
    vstd::arithmetic::power2::lemma_pow2_unfold(n + 1);
    vstd::arithmetic::power2::lemma2_to64();
    assert((retry + 1 - 1) as nat == n + 1);
    assert(base * (2 * pow2(n)) == 2 * (base * pow2(n))) by (nonlinear_arith);
    assert(base * pow2(0) == base) by (nonlinear_arith)
        requires
            pow2(0) == 1,
    ;
}

/// A lane name is valid exactly when it holds something, takes no more than 256 bytes, has
/// no control character in it, and neither begins nor ends with white space.
pub proof fn law_valid_lane_names(name: Seq<char>)
    ensures
        lane_fault(name) is None <==> {
            &&& name.len() > 0
            &&& encode_utf8(name).len() <= 256
            &&& forall|i: int|
                0 <= i < name.len() ==> #[trigger] name[i] > '\u{1f}' && !('\u{7f}' <= name[i]
                    <= '\u{9f}')
            &&& !crate::text::is_space(name[0])
            &&& !crate::text::is_space(name[name.len() - 1])
        },
        name.len() == 0 <==> lane_fault(name) == Some(LaneFault::Empty),
        name.len() > 0 && encode_utf8(name).len() > 256 <==> lane_fault(name) == Some(
            LaneFault::TooLong,
        ),
{
    if name.len() > 0 {
        lemma_trimmed_no_longer(name.drop_first());
        lemma_trimmed_no_longer(name.drop_last());
    }
    if !exists|i: int| 0 <= i < name.len() && is_control(#[trigger] name[i]) {
        assert forall|i: int| 0 <= i < name.len() implies #[trigger] name[i] > '\u{1f}' && !(
        '\u{7f}' <= name[i] <= '\u{9f}') by {
            assert(!is_control(name[i]));
        }
    }
}

proof fn lemma_trimmed_no_longer(s: Seq<char>)
    ensures
        trimmed(s).len() <= s.len(),
    decreases s.len(),
{
    if s.len() > 0 {
        lemma_trimmed_no_longer(s.drop_first());
        lemma_trimmed_no_longer(s.drop_last());
    }
}

/// From one retry to the next the wait doubles, up to half a minute; the first attempt does
/// not wait, and the first retry waits the base.
pub proof fn law_next_wait_is_twice_as_long(
    retry: u32,
    base: Delay,
    wait: Delay,
    next: Delay,
    first: Delay,
    second: Delay,
)
    requires
        1 <= retry < u32::MAX,
        call_ensures(submission_backoff_delay, (retry, base), wait),
        call_ensures(submission_backoff_delay, ((retry + 1) as u32, base), next),
        call_ensures(submission_backoff_delay, (0, base), first),
        call_ensures(submission_backoff_delay, (1, base), second),
    ensures
        first.nanos == 0,
        second.nanos == if base.nanos <= 30_000_000_000 {
            base.nanos as int
        } else {
            30_000_000_000
        },
        next.nanos == if 2 * wait.nanos <= 30_000_000_000 {
            2 * wait.nanos
        } else {
            30_000_000_000
        },
{
    law_backoff_recurrence(retry as int, base.nanos as int);
}

} // verus!
