//! The one place the library touches the clock.

use vstd::prelude::*;

verus! {

/// Relies on `chrono::Local::now`: the current local time, converted to
/// Unix seconds and to `"%Y-%m-%d %H:%M:%S"` text. The clock decides the
/// result, so nothing is promised of it.
#[verifier::external_body]
pub(crate) fn now_stamp() -> (r: (i64, String)) {
    let now = chrono::Local::now();
    (now.timestamp(), now.format("%Y-%m-%d %H:%M:%S").to_string())
}

} // verus!
