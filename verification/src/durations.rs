//! Durations as they are shown: in seconds, with one decimal.
use vstd::prelude::*;

verus! {

/// A duration of whole seconds and nanoseconds, in seconds with one decimal.
pub uninterp spec fn seconds_text(secs: u64, nanos: u32) -> Seq<char>;

/// std's formatting of `Duration::as_secs_f64` with one decimal and the
/// unit. It depends on the duration alone. `Duration::new` panics only where
/// the nanoseconds make up a second more than there is room for.
#[verifier::external_body]
fn format_seconds(secs: u64, nanos: u32) -> (r: String)
    requires
        nanos < 1_000_000_000,
    ensures
        r@ == seconds_text(secs, nanos),
{
    format!("{:.1}s", std::time::Duration::new(secs, nanos).as_secs_f64())
}

/// A duration in nanoseconds, as it is shown.
pub open spec fn of_nanos(n: u64) -> Seq<char> {
    seconds_text(n / 1_000_000_000, (n % 1_000_000_000) as u32)
}

/// Shows a duration in nanoseconds.
pub fn nanos_text(n: u64) -> (r: String)
    ensures
        r@ == of_nanos(n),
{
    format_seconds(n / 1_000_000_000, (n % 1_000_000_000) as u32)
}

/// A duration in milliseconds, as it is shown.
pub open spec fn of_millis(n: u64) -> Seq<char> {
    seconds_text(n / 1000, ((n % 1000) * 1_000_000) as u32)
}

/// Shows a duration in milliseconds.
pub fn millis_text(n: u64) -> (r: String)
    ensures
        r@ == of_millis(n),
{
    format_seconds(n / 1000, ((n % 1000) * 1_000_000) as u32)
}

} // verus!
