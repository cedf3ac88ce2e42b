use vstd::prelude::*;

verus! {

/// Relies on `SystemTime::now` and `SystemTime::duration_since(UNIX_EPOCH)`:
/// the wall clock in milliseconds since the Unix epoch, or `None` when the
/// clock reads a time before that epoch. Nothing is known of the value.
#[verifier::external_body]
pub(crate) fn unix_millis() -> (r: Option<u64>) {
    match std::time::SystemTime::now().duration_since(std::time::UNIX_EPOCH) {
        Ok(d) => Some(d.as_millis() as u64),
        Err(_) => None,
    }
}

/// Relies on `SystemTime::now` and `SystemTime::duration_since(UNIX_EPOCH)`:
/// the wall clock in nanoseconds since the Unix epoch, or `None` when the
/// clock reads a time before that epoch. Nothing is known of the value.
#[verifier::external_body]
pub(crate) fn unix_nanos() -> (r: Option<u128>) {
    match std::time::SystemTime::now().duration_since(std::time::UNIX_EPOCH) {
        Ok(d) => Some(d.as_nanos()),
        Err(_) => None,
    }
}

} // verus!
