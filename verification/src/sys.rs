use vstd::prelude::*;

verus! {

/// Relies on `uuid::Uuid::new_v4` and uuid's `Display` impl: a fresh random
/// version-4 UUID rendered in the 36-character hyphenated form
/// (`xxxxxxxx-xxxx-xxxx-xxxx-xxxxxxxxxxxx`). The value is random, so nothing
/// beyond its length is assumed.
#[verifier::external_body]
pub(crate) fn fresh_id() -> (r: String)
    ensures
        r@.len() == 36,
{
    uuid::Uuid::new_v4().to_string()
}

/// Relies on `chrono::Utc::now` and `DateTime::timestamp_millis`: the current
/// wall-clock time as milliseconds since the Unix epoch. The value depends on
/// the clock, so no property of it is assumed.
#[verifier::external_body]
pub(crate) fn now_millis() -> i64 {
    chrono::Utc::now().timestamp_millis()
}

} // verus!
