use vstd::prelude::*;

verus! {

/// Relies on std::time::SystemTime::now and SystemTime::duration_since:
/// the wall clock read as milliseconds since the Unix epoch (0 if the
/// clock reads earlier than the epoch). The result depends on the wall
/// clock, so nothing is promised of it.
#[verifier::external_body]
pub fn current_time_millis() -> u128 {
    std::time::SystemTime::now()
        .duration_since(std::time::UNIX_EPOCH)
        .map(|d| d.as_millis())
        .unwrap_or(0)
}

} // verus!
