//! The wall-clock timestamp used on history entries and verification
//! marks.

use vstd::prelude::*;

verus! {

/// The current local time as a human-readable string.
///
/// Relies on chrono's `Local::now` and its formatter; nothing is
/// assumed of the result, since it depends on the clock.
#[verifier::external_body]
pub(crate) fn now_string() -> String {
    chrono::Local::now().format("%Y-%m-%d %H:%M:%S").to_string()
}

} // verus!
