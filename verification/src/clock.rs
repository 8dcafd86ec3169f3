//! The wall clock that stamps rows.

use vstd::prelude::*;

verus! {

/// Relies on chrono's `Utc::now` and `DateTime::timestamp`: the current
/// time as whole seconds since the Unix epoch. The value depends on the
/// machine's clock, so nothing is promised of it; contracts of the
/// operations that call this quantify over the stamp instead.
#[verifier::external_body]
pub(crate) fn now_ts() -> i64 {
    chrono::Utc::now().timestamp()
}

} // verus!
