//! Dependency freshness, measured in libyears.
//!
//! For each resolved dependency of a project the library compares the release
//! in use with the release that was published last, and reports the time
//! between the two. One libyear is one year of such time. The results are
//! summed, sorted and truncated into a [`Report`].
//!
//! Time is counted in whole nanoseconds throughout, so every quantity is an
//! integer: a caller that wants a fraction of a libyear divides by
//! [`NANOS_PER_LIBYEAR`].

pub mod args;
pub mod freshness;
pub mod order;
pub mod registry;
pub mod report;
pub mod sorting;
pub mod timestamp;

pub use args::Args;
pub use freshness::{
    find_latest, find_release, resolve, DependencyFreshness, LookupError, NANOS_PER_LIBYEAR,
    SECONDS_PER_LIBYEAR,
};
pub use order::{bytes_come_before, comes_before, SortBy};
pub use registry::{Lookup, RegistryResponse, ResolvedDependency, VersionRecord};
pub use report::{build, resolve_all, total_elapsed_nanos, Report};
pub use sorting::{arrange, process_dependencies, sort_entries};
pub use timestamp::Timestamp;
