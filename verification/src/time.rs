//! Spans of time, counted in nanoseconds.
use std::time::Duration;
use vstd::prelude::*;

verus! {

/// Nanoseconds in a second.
pub const NANOS_PER_SEC: u128 = 1_000_000_000;

/// The longest span that a `Duration` holds, in nanoseconds.
pub open spec fn max_nanos() -> nat {
    (u64::MAX * 1_000_000_000 + 999_999_999) as nat
}

/// The whole nanoseconds in a span.
pub uninterp spec fn nanos(span: Duration) -> nat;

/// `Duration::as_nanos`: the whole nanoseconds in a span. No span is longer than `Duration::MAX`.
#[verifier::external_body]
pub(crate) fn as_nanos(span: Duration) -> (n: u128)
    ensures
        n as nat == nanos(span),
        n <= max_nanos(),
{
    span.as_nanos()
}

/// `Duration::new`: the span of that many seconds and nanoseconds.
#[verifier::external_body]
pub(crate) fn new_span(seconds: u64, subsec: u32) -> (span: Duration)
    requires
        subsec < 1_000_000_000,
    ensures
        nanos(span) == seconds as nat * 1_000_000_000 + subsec as nat,
{
    Duration::new(seconds, subsec)
}

/// The span of `n` nanoseconds.
pub fn from_nanos(n: u128) -> (span: Duration)
    requires
        n <= max_nanos(),
    ensures
        nanos(span) == n as nat,
{
    new_span((n / NANOS_PER_SEC) as u64, (n % NANOS_PER_SEC) as u32)
}

} // verus!
