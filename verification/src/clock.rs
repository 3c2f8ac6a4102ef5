use vstd::prelude::*;

verus! {

/// Relies on chrono's Utc::now and DateTime::timestamp: the current time
/// as whole seconds since the Unix epoch, negative for clocks set before
/// 1970. Nothing is promised of the value.
#[verifier::external_body]
fn current_unix_timestamp() -> (r: i64) {
    chrono::Utc::now().timestamp()
}

/// The current time as epoch seconds, zero for clocks set before 1970.
pub fn now_seconds() -> u64 {
    let t = current_unix_timestamp();
    if t < 0 {
        0
    } else {
        t as u64
    }
}

} // verus!
