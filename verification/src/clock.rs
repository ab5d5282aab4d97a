//! Wall-clock access and timestamp rendering, through `chrono`.

use vstd::prelude::*;

use crate::member::str_bytes;

verus! {

/// The rendered UTC timestamp text for an epoch-second count, as `chrono`
/// formats it with `%Y-%m-%d %H:%M:%S UTC`; a function of the seconds
/// alone.
pub uninterp spec fn timestamp_text(secs: i64) -> Seq<u8>;

/// Relies on `std::time::SystemTime::now` and `duration_since`: the
/// current time as epoch seconds; a clock standing before the epoch
/// reads as a non-positive count instead of failing. Nothing is promised
/// of the value.
#[verifier::external_body]
pub(crate) fn now_unix_secs() -> i64 {
    match std::time::SystemTime::now().duration_since(std::time::UNIX_EPOCH) {
        Ok(span) => i64::try_from(span.as_secs()).unwrap_or(i64::MAX),
        Err(before) => 0i64.saturating_sub(
            i64::try_from(before.duration().as_secs()).unwrap_or(i64::MAX),
        ),
    }
}

/// Relies on `chrono::DateTime::from_timestamp` and its `format`: the
/// rendered text depends on the epoch seconds alone, and the format
/// `%Y-%m-%d %H:%M:%S UTC` never produces a line break (an out-of-range
/// count renders as the empty string).
#[verifier::external_body]
pub(crate) fn format_timestamp(secs: i64) -> (r: String)
    ensures
        str_bytes(r@) == timestamp_text(secs),
        forall|i: int| 0 <= i < str_bytes(r@).len() ==> str_bytes(r@)[i] != 10,
{
    match chrono::DateTime::<chrono::Utc>::from_timestamp(secs, 0) {
        Some(moment) => moment.format("%Y-%m-%d %H:%M:%S UTC").to_string(),
        None => String::new(),
    }
}

} // verus!
