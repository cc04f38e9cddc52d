//! What a run is configured with.

use vstd::prelude::*;
use crate::order::SortBy;

verus! {

/// The settings of one run.
#[derive(Debug, PartialEq, Eq)]
pub struct Args {
    /// The order of the report's entries.
    pub sort: SortBy,
    /// How many entries the report shows at most; all of them where `None`.
    pub top: Option<usize>,
    /// Where the project's manifest lies.
    pub manifest_path: String,
}

impl Default for Args {
    /// Sorted by name, every entry shown, the manifest in the working
    /// directory.
    fn default() -> (args: Args)
        ensures
            args.sort == SortBy::Alphabetical,
            args.top is None,
            args.manifest_path@ == "./Cargo.toml"@,
    {
        Args { sort: SortBy::Alphabetical, top: None, manifest_path: "./Cargo.toml".to_owned() }
    }
}

} // verus!
