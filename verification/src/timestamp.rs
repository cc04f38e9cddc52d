//! Instants on the time line of release publications.

use vstd::prelude::*;

verus! {

/// An instant, counted in nanoseconds since the Unix epoch.
///
/// It reaches from the first instant of 1970 into the year 2262. Instants
/// before the epoch are not representable, so the time between any two
/// instants fits in an `i64`.
#[derive(Clone, Copy, Debug, PartialEq, Eq, PartialOrd, Ord, Hash)]
pub struct Timestamp {
    nanos: i64,
}

impl View for Timestamp {
    type V = int;

    /// The number of nanoseconds since the Unix epoch.
    closed spec fn view(&self) -> int {
        self.nanos as int
    }
}

impl DeepView for Timestamp {
    type V = int;

    open spec fn deep_view(&self) -> int {
        self@
    }
}

impl Timestamp {
    #[verifier::type_invariant]
    spec fn not_before_epoch(self) -> bool {
        self.nanos >= 0
    }

    /// The instant `nanos` nanoseconds after the Unix epoch, or `None` where
    /// `nanos` is negative.
    pub fn from_unix_nanos(nanos: i64) -> (result: Option<Timestamp>)
        ensures
            nanos >= 0 ==> result.is_some() && result.unwrap()@ == nanos,
            nanos < 0 ==> result.is_none(),
    {
        if nanos >= 0 {
            Some(Timestamp { nanos })
        } else {
            None
        }
    }

    /// The number of nanoseconds since the Unix epoch.
    pub fn unix_nanos(&self) -> (nanos: i64)
        ensures
            nanos == self@,
            0 <= nanos,
    {
        proof {
            use_type_invariant(self);
        }
        self.nanos
    }

    /// The time from `earlier` to `self` in nanoseconds: negative where `self`
    /// is the earlier of the two.
    pub fn nanos_since(&self, earlier: &Timestamp) -> (elapsed: i64)
        ensures
            elapsed == self@ - earlier@,
    {
        proof {
            use_type_invariant(self);
            use_type_invariant(earlier);
        }
        self.nanos - earlier.nanos
    }
}

} // verus!
