//! What the two collaborators of the library hand over: the dependencies that
//! a project resolves to, and the registry's answer about each of them.

use vstd::prelude::*;
use crate::timestamp::Timestamp;

verus! {

/// A package together with the one version of it that the project uses.
#[derive(Debug, PartialEq, Eq)]
pub struct ResolvedDependency {
    pub name: String,
    pub current_version: String,
}

/// The mathematical content of a [`ResolvedDependency`].
pub ghost struct ResolvedDependencyView {
    pub name: Seq<char>,
    pub current_version: Seq<char>,
}

impl View for ResolvedDependency {
    type V = ResolvedDependencyView;

    open spec fn view(&self) -> ResolvedDependencyView {
        ResolvedDependencyView { name: self.name@, current_version: self.current_version@ }
    }
}

impl DeepView for ResolvedDependency {
    type V = ResolvedDependencyView;

    open spec fn deep_view(&self) -> ResolvedDependencyView {
        self@
    }
}

/// One published release of a package: its version number as the registry
/// writes it, and the instant of its publication.
#[derive(Debug, PartialEq, Eq)]
pub struct VersionRecord {
    pub number: String,
    pub published_at: Timestamp,
}

/// The mathematical content of a [`VersionRecord`].
pub ghost struct VersionRecordView {
    pub number: Seq<char>,
    pub published_at: int,
}

impl View for VersionRecord {
    type V = VersionRecordView;

    open spec fn view(&self) -> VersionRecordView {
        VersionRecordView { number: self.number@, published_at: self.published_at@ }
    }
}

impl DeepView for VersionRecord {
    type V = VersionRecordView;

    open spec fn deep_view(&self) -> VersionRecordView {
        self@
    }
}

/// The registry's answer to the request for the version history of one
/// package.
#[derive(Debug, PartialEq, Eq)]
pub enum RegistryResponse {
    /// The request failed: the registry could not be reached, or it does not
    /// know the package.
    Unavailable,
    /// Every release of the package, in the order in which the registry
    /// listed them.
    Versions(Vec<VersionRecord>),
}

impl View for RegistryResponse {
    type V = Option<Seq<VersionRecordView>>;

    /// The history that the registry returned, or `None` where the request
    /// failed.
    open spec fn view(&self) -> Option<Seq<VersionRecordView>> {
        match self {
            RegistryResponse::Unavailable => None,
            RegistryResponse::Versions(history) => Some(history.deep_view()),
        }
    }
}

/// A dependency and what the registry answered about it.
#[derive(Debug, PartialEq, Eq)]
pub struct Lookup {
    pub dependency: ResolvedDependency,
    pub response: RegistryResponse,
}

/// The mathematical content of a [`Lookup`].
pub ghost struct LookupView {
    pub dependency: ResolvedDependencyView,
    pub response: Option<Seq<VersionRecordView>>,
}

impl View for Lookup {
    type V = LookupView;

    open spec fn view(&self) -> LookupView {
        LookupView { dependency: self.dependency@, response: self.response@ }
    }
}

impl DeepView for Lookup {
    type V = LookupView;

    open spec fn deep_view(&self) -> LookupView {
        self@
    }
}

} // verus!
