//! Instants in UTC, as seconds and nanoseconds since the Unix epoch.
use vstd::prelude::*;

use crate::deep_clone::DeepClone;

verus! {

/// An instant in UTC: whole seconds since 1970-01-01T00:00:00Z and the
/// nanoseconds past that second.
#[derive(Clone, Copy, Debug, PartialEq, Eq, Structural, Hash)]
pub struct Timestamp {
    pub secs: i64,
    pub nanos: u32,
}

impl DeepView for Timestamp {
    type V = Timestamp;

    open spec fn deep_view(&self) -> Timestamp {
        *self
    }
}

impl DeepClone for Timestamp {
    fn deep_clone(&self) -> (r: Self) {
        *self
    }
}

/// Reads the system clock through `chrono::Utc::now`. What it returns depends on
/// the time of the call, so nothing is stated of it.
#[verifier::external_body]
pub(crate) fn now() -> (r: Timestamp) {
    let t = chrono::Utc::now();
    Timestamp { secs: t.timestamp(), nanos: t.timestamp_subsec_nanos() }
}

} // verus!
