//! The freshness of one dependency: the time between the publication of the
//! release in use and that of the release published last.

use vstd::prelude::*;
use crate::registry::{
    RegistryResponse, ResolvedDependency, ResolvedDependencyView, VersionRecord, VersionRecordView,
};
use crate::timestamp::Timestamp;

verus! {

/// The length of one libyear in seconds: a year of 365.2425 days.
pub const SECONDS_PER_LIBYEAR: i64 = 31_556_952;

/// The length of one libyear in nanoseconds.
pub const NANOS_PER_LIBYEAR: i64 = SECONDS_PER_LIBYEAR * 1_000_000_000;

/// Why a dependency has no freshness.
#[derive(Clone, Copy, Debug, PartialEq, Eq, Structural)]
pub enum LookupError {
    /// The registry did not return the package's history.
    RegistryUnavailable,
    /// No release in the history carries the version number in use.
    CurrentVersionNotFound,
    /// The history holds no release at all.
    NoVersionsPublished,
}

/// How far the release in use lies behind the release published last.
#[derive(Debug, PartialEq, Eq)]
pub struct DependencyFreshness {
    pub name: String,
    pub current_version: String,
    pub current_published_at: Timestamp,
    pub latest_version: String,
    pub latest_published_at: Timestamp,
    /// The time from the publication of the current release to that of the
    /// latest, in nanoseconds. Divided by [`NANOS_PER_LIBYEAR`] it is the
    /// number of libyears. It is negative where the release in use is newer
    /// than everything the registry lists.
    pub elapsed_nanos: i64,
}

/// The mathematical content of a [`DependencyFreshness`].
pub ghost struct FreshnessView {
    pub name: Seq<char>,
    pub current_version: Seq<char>,
    pub current_published_at: int,
    pub latest_version: Seq<char>,
    pub latest_published_at: int,
    pub elapsed_nanos: int,
}

impl FreshnessView {
    /// The elapsed time is the difference of the two publication instants.
    pub open spec fn is_consistent(self) -> bool {
        self.elapsed_nanos == self.latest_published_at - self.current_published_at
    }
}

impl View for DependencyFreshness {
    type V = FreshnessView;

    open spec fn view(&self) -> FreshnessView {
        FreshnessView {
            name: self.name@,
            current_version: self.current_version@,
            current_published_at: self.current_published_at@,
            latest_version: self.latest_version@,
            latest_published_at: self.latest_published_at@,
            elapsed_nanos: self.elapsed_nanos as int,
        }
    }
}

impl DeepView for DependencyFreshness {
    type V = FreshnessView;

    open spec fn deep_view(&self) -> FreshnessView {
        self@
    }
}

/// Some release in `history` carries exactly the version number `number`.
pub open spec fn has_release(history: Seq<VersionRecordView>, number: Seq<char>) -> bool {
    exists|i: int| 0 <= i < history.len() && (#[trigger] history[i]).number == number
}

/// `i` is the first position in `history` whose release carries exactly the
/// version number `number`.
pub open spec fn is_first_release(
    history: Seq<VersionRecordView>,
    number: Seq<char>,
    i: int,
) -> bool {
    &&& 0 <= i < history.len()
    &&& history[i].number == number
    &&& forall|j: int| 0 <= j < i ==> (#[trigger] history[j]).number != number
}

/// `i` is the position of the release in `history` that was published last;
/// of several published at that same instant, the first.
pub open spec fn is_latest_release(history: Seq<VersionRecordView>, i: int) -> bool {
    &&& 0 <= i < history.len()
    &&& forall|j: int|
        0 <= j < history.len() ==> (#[trigger] history[j]).published_at <= history[i].published_at
    &&& forall|j: int| 0 <= j < i ==> (#[trigger] history[j]).published_at < history[i].published_at
}

/// The position that [`is_first_release`] describes.
pub open spec fn first_release(history: Seq<VersionRecordView>, number: Seq<char>) -> int {
    choose|i: int| is_first_release(history, number, i)
}

/// The position that [`is_latest_release`] describes.
pub open spec fn latest_release(history: Seq<VersionRecordView>) -> int {
    choose|i: int| is_latest_release(history, i)
}

/// The freshness of `dependency`, given the registry's `response` for it.
///
/// The current release is looked up by its version number, compared letter
/// for letter. The latest release is the one published last among all
/// releases, the current one included.
pub open spec fn resolution(
    dependency: ResolvedDependencyView,
    response: Option<Seq<VersionRecordView>>,
) -> Result<FreshnessView, LookupError> {
    match response {
        None => Err(LookupError::RegistryUnavailable),
        Some(history) => if has_release(history, dependency.current_version) {
            let current = history[first_release(history, dependency.current_version)];
            let latest = history[latest_release(history)];
            Ok(
                FreshnessView {
                    name: dependency.name,
                    current_version: current.number,
                    current_published_at: current.published_at,
                    latest_version: latest.number,
                    latest_published_at: latest.published_at,
                    elapsed_nanos: latest.published_at - current.published_at,
                },
            )
        } else {
            Err(LookupError::CurrentVersionNotFound)
        },
    }
}

/// A history that holds a release with the version number `number` has a
/// first such release.
pub proof fn lemma_first_release_exists(history: Seq<VersionRecordView>, number: Seq<char>)
    requires
        has_release(history, number),
    ensures
        is_first_release(history, number, first_release(history, number)),
    decreases history.len(),
{
    let rest = history.drop_last();
    if exists|i: int| 0 <= i < rest.len() && (#[trigger] rest[i]).number == number {
        lemma_first_release_exists(rest, number);
        let first = first_release(rest, number);
        assert forall|j: int| 0 <= j < first implies (#[trigger] history[j]).number != number by {
            assert(history[j] == rest[j]);
        }
        assert(is_first_release(history, number, first));
    } else {
        let last = history.len() - 1;
        assert forall|j: int| 0 <= j < last implies (#[trigger] history[j]).number != number by {
            assert(history[j] == rest[j]);
        }
        assert(is_first_release(history, number, last));
    }
}

/// A history that is not empty has a latest release.
pub proof fn lemma_latest_release_exists(history: Seq<VersionRecordView>)
    requires
        history.len() > 0,
    ensures
        is_latest_release(history, latest_release(history)),
    decreases history.len(),
{
    let last = history.len() - 1;
    if history.len() == 1 {
        assert(is_latest_release(history, 0));
    } else {
        let rest = history.drop_last();
        lemma_latest_release_exists(rest);
        let best = latest_release(rest);
        assert forall|j: int| 0 <= j < last implies (#[trigger] history[j]).published_at
            <= history[best].published_at && (j < best ==> history[j].published_at
            < history[best].published_at) by {
            assert(history[j] == rest[j]);
        }
        if history[last].published_at > history[best].published_at {
            assert(is_latest_release(history, last));
        } else {
            assert(is_latest_release(history, best));
        }
    }
}

/// The latest release is published no earlier than the release in use, which
/// is one of the releases that it is the latest of: the elapsed time of a
/// dependency that resolves is not negative, and it is the difference of the
/// two publication instants.
pub proof fn lemma_resolution_is_consistent(
    dependency: ResolvedDependencyView,
    response: Option<Seq<VersionRecordView>>,
)
    requires
        resolution(dependency, response) is Ok,
    ensures
        resolution(dependency, response)->Ok_0.is_consistent(),
        resolution(dependency, response)->Ok_0.elapsed_nanos >= 0,
        resolution(dependency, response)->Ok_0.name == dependency.name,
        resolution(dependency, response)->Ok_0.current_version == dependency.current_version,
{
    let history = response->Some_0;
    lemma_first_release_exists(history, dependency.current_version);
    lemma_latest_release_exists(history);
}

/// At most one position is the first with a given version number.
pub proof fn lemma_first_release_unique(history: Seq<VersionRecordView>, number: Seq<char>, i: int)
    requires
        is_first_release(history, number, i),
    ensures
        has_release(history, number),
        first_release(history, number) == i,
{
    let c = first_release(history, number);
    assert(is_first_release(history, number, c));
    if c < i {
        assert(history[c].number != number);
    } else if i < c {
        assert(history[i].number != number);
    }
}

/// At most one position is that of the latest release.
pub proof fn lemma_latest_release_unique(history: Seq<VersionRecordView>, i: int)
    requires
        is_latest_release(history, i),
    ensures
        latest_release(history) == i,
{
    let c = latest_release(history);
    assert(is_latest_release(history, c));
    if c < i {
        assert(history[c].published_at < history[i].published_at);
        assert(history[i].published_at <= history[c].published_at);
    } else if i < c {
        assert(history[i].published_at < history[c].published_at);
        assert(history[c].published_at <= history[i].published_at);
    }
}

/// The first position in `history` whose release carries exactly the version
/// number `number`, if there is one.
pub fn find_release(history: &Vec<VersionRecord>, number: &String) -> (found: Option<usize>)
    ensures
        found.is_some() <==> has_release(history.deep_view(), number@),
        found.is_some() ==> is_first_release(history.deep_view(), number@, found.unwrap() as int),
{
    let mut i: usize = 0;
    while i < history.len()
        invariant
            i <= history.len(),
            forall|j: int| 0 <= j < i ==> (#[trigger] history.deep_view()[j]).number != number@,
        decreases history.len() - i,
    {
        if history[i].number == *number {
            assert(history.deep_view()[i as int].number == number@);
            return Some(i);
        }
        i += 1;
    }
    None
}

/// The position of the release in `history` that was published last; of
/// several published at that same instant, the first. An empty history has
/// none.
pub fn find_latest(history: &Vec<VersionRecord>) -> (found: Result<usize, LookupError>)
    ensures
        found.is_ok() <==> history.len() > 0,
        found.is_ok() ==> is_latest_release(history.deep_view(), found.unwrap() as int),
        found.is_err() ==> found.unwrap_err() == LookupError::NoVersionsPublished,
{
    if history.len() == 0 {
        return Err(LookupError::NoVersionsPublished);
    }
    let mut best: usize = 0;
    let mut i: usize = 1;
    while i < history.len()
        invariant
            1 <= i <= history.len(),
            best < i,
            forall|j: int|
                0 <= j < i ==> (#[trigger] history.deep_view()[j]).published_at
                    <= history.deep_view()[best as int].published_at,
            forall|j: int|
                0 <= j < best ==> (#[trigger] history.deep_view()[j]).published_at
                    < history.deep_view()[best as int].published_at,
        decreases history.len() - i,
    {
        if history[i].published_at.unix_nanos() > history[best].published_at.unix_nanos() {
            best = i;
        }
        i += 1;
    }
    Ok(best)
}

/// The freshness of `dependency`, given the registry's `response` for it.
///
/// Fails with `RegistryUnavailable` where the registry returned no history,
/// and with `CurrentVersionNotFound` where the history holds no release with
/// the version number in use; an empty history is such a history. The latest
/// release is looked for only once the release in use is found, so it is
/// always there, and never older than the release in use.
pub fn resolve(dependency: &ResolvedDependency, response: &RegistryResponse) -> (result: Result<
    DependencyFreshness,
    LookupError,
>)
    ensures
        result.is_ok() <==> resolution(dependency@, response@).is_ok(),
        result.is_ok() ==> resolution(dependency@, response@).unwrap() == result.unwrap()@,
        result.is_ok() ==> result.unwrap()@.is_consistent() && result.unwrap().elapsed_nanos >= 0,
        result.is_err() ==> resolution(dependency@, response@) == Err::<FreshnessView, LookupError>(
            result.unwrap_err(),
        ),
{
    match response {
        RegistryResponse::Unavailable => Err(LookupError::RegistryUnavailable),
        RegistryResponse::Versions(history) => {
            let Some(current) = find_release(history, &dependency.current_version) else {
                return Err(LookupError::CurrentVersionNotFound);
            };
            let latest = match find_latest(history) {
                Ok(latest) => latest,
                Err(e) => {
                    return Err(e);
                },
            };
            proof {
                lemma_first_release_unique(
                    history.deep_view(),
                    dependency.current_version@,
                    current as int,
                );
                lemma_latest_release_unique(history.deep_view(), latest as int);
            }
            let current_release = &history[current];
            let latest_release = &history[latest];
            Ok(
                DependencyFreshness {
                    name: dependency.name.clone(),
                    current_version: current_release.number.clone(),
                    current_published_at: current_release.published_at,
                    latest_version: latest_release.number.clone(),
                    latest_published_at: latest_release.published_at,
                    elapsed_nanos: latest_release.published_at.nanos_since(
                        &current_release.published_at,
                    ),
                },
            )
        },
    }
}

} // verus!
