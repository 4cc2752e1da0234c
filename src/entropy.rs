use vstd::prelude::*;

verus! {

/// Relies on `uuid::Uuid::new_v4`, read through `Uuid::as_bytes`: sixteen
/// bytes drawn from the system's random source. Nothing is known of their
/// values, and two calls may or may not agree.
#[verifier::external_body]
pub(crate) fn fresh_uuid() -> (r: Vec<u8>)
    ensures
        r@.len() == 16,
{
    uuid::Uuid::new_v4().as_bytes().to_vec()
}

/// Relies on `chrono::Utc::now` and `DateTime::timestamp_millis`: the
/// current time, in milliseconds since the Unix epoch. Nothing is known of
/// its value.
#[verifier::external_body]
pub(crate) fn now_millis() -> (r: i64) {
    chrono::Utc::now().timestamp_millis()
}

} // verus!
