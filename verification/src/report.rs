//! The report over all dependencies of a project.

use vstd::prelude::*;
use crate::freshness::{
    has_release, resolution, resolve, DependencyFreshness, FreshnessView, LookupError,
};
use crate::order::SortBy;
use crate::registry::{Lookup, LookupView};
use crate::sorting::{
    arrange, is_sorted, lemma_slot_divides, lemma_stable_sort_is_sorted, lemma_stable_sort_permutes,
    lemma_truncated_prefix, slot, stable_sort, truncated,
};

verus! {

/// The entries to show, and the time by which the whole project lies behind.
#[derive(Debug, PartialEq, Eq)]
pub struct Report {
    /// The dependencies whose freshness is known, sorted, and cut short where
    /// that was asked for.
    pub entries: Vec<DependencyFreshness>,
    /// The sum of the elapsed time of every dependency whose freshness is
    /// known, in nanoseconds, whether or not it is among `entries`. Divided
    /// by [`NANOS_PER_LIBYEAR`](crate::freshness::NANOS_PER_LIBYEAR) it is
    /// the number of libyears.
    pub total_elapsed_nanos: i128,
}

/// The mathematical content of a [`Report`].
pub ghost struct ReportView {
    pub entries: Seq<FreshnessView>,
    pub total_elapsed_nanos: int,
}

impl View for Report {
    type V = ReportView;

    open spec fn view(&self) -> ReportView {
        ReportView {
            entries: self.entries.deep_view(),
            total_elapsed_nanos: self.total_elapsed_nanos as int,
        }
    }
}

/// The freshness that `lookup` resolves to, if it resolves.
pub open spec fn freshness_of(lookup: LookupView) -> Option<FreshnessView> {
    match resolution(lookup.dependency, lookup.response) {
        Ok(freshness) => Some(freshness),
        Err(_) => None,
    }
}

/// The freshness of every lookup that resolves, in the order of the lookups.
pub open spec fn resolved_entries(lookups: Seq<LookupView>) -> Seq<FreshnessView> {
    lookups.filter_map(|lookup: LookupView| freshness_of(lookup))
}

/// The sum of the elapsed time of all `entries`.
pub open spec fn total_elapsed(entries: Seq<FreshnessView>) -> int
    decreases entries.len(),
{
    if entries.len() == 0 {
        0
    } else {
        total_elapsed(entries.drop_last()) + entries.last().elapsed_nanos
    }
}

/// The report over `lookups`: the total is taken over every lookup that
/// resolves; the entries are those same lookups, sorted and then cut short.
pub open spec fn report(lookups: Seq<LookupView>, sort: SortBy, top: Option<usize>) -> ReportView {
    ReportView {
        entries: truncated(stable_sort(sort, resolved_entries(lookups)), top),
        total_elapsed_nanos: total_elapsed(resolved_entries(lookups)),
    }
}

/// An entry that goes into a list adds its elapsed time to the sum, wherever
/// it goes.
pub proof fn lemma_total_elapsed_insert(entries: Seq<FreshnessView>, at: int, x: FreshnessView)
    requires
        0 <= at <= entries.len(),
    ensures
        total_elapsed(entries.insert(at, x)) == total_elapsed(entries) + x.elapsed_nanos,
    decreases entries.len() - at,
{
    let longer = entries.insert(at, x);
    if at == entries.len() {
        assert(longer.drop_last() =~= entries);
    } else {
        lemma_total_elapsed_insert(entries.drop_last(), at, x);
        assert(longer.drop_last() =~= entries.drop_last().insert(at, x));
        assert(longer.last() == entries.last());
    }
}

/// Sorting does not change the sum of the elapsed time.
pub proof fn lemma_sorting_keeps_total(sort: SortBy, entries: Seq<FreshnessView>)
    ensures
        total_elapsed(stable_sort(sort, entries)) == total_elapsed(entries),
    decreases entries.len(),
{
    if entries.len() > 0 {
        let sorted = stable_sort(sort, entries.drop_last());
        lemma_sorting_keeps_total(sort, entries.drop_last());
        lemma_slot_divides(sort, sorted, entries.last());
        lemma_total_elapsed_insert(sorted, slot(sort, sorted, entries.last()), entries.last());
    }
}

/// The total of a report is the sum over every lookup that resolves: it is
/// the same under either order and however many entries are shown, and it is
/// the sum over the entries of the report that shows them all.
pub proof fn lemma_total_ignores_sort_and_top(
    lookups: Seq<LookupView>,
    sort: SortBy,
    top: Option<usize>,
    other_sort: SortBy,
    other_top: Option<usize>,
)
    ensures
        report(lookups, sort, top).total_elapsed_nanos == total_elapsed(resolved_entries(lookups)),
        report(lookups, sort, top).total_elapsed_nanos == report(
            lookups,
            other_sort,
            other_top,
        ).total_elapsed_nanos,
        report(lookups, sort, top).total_elapsed_nanos == total_elapsed(
            report(lookups, sort, None).entries,
        ),
{
    lemma_sorting_keeps_total(sort, resolved_entries(lookups));
}

/// A report is sorted, under the order that it was asked for.
pub proof fn lemma_report_is_sorted(lookups: Seq<LookupView>, sort: SortBy, top: Option<usize>)
    ensures
        is_sorted(sort, report(lookups, sort, top).entries),
{
    let sorted = stable_sort(sort, resolved_entries(lookups));
    lemma_stable_sort_is_sorted(sort, resolved_entries(lookups));
    lemma_truncated_prefix(sort, sorted, top);
}

/// A report cut to `count` entries shows the first `count` entries of the
/// report that shows them all, or all of them where there are fewer: as many
/// as `count` and the number of lookups that resolve, whichever is less.
pub proof fn lemma_top_shows_first_entries(lookups: Seq<LookupView>, sort: SortBy, count: usize)
    ensures
        report(lookups, sort, Some(count)).entries.len() == vstd::math::min(
            count as int,
            resolved_entries(lookups).len() as int,
        ),
        report(lookups, sort, Some(count)).entries == report(lookups, sort, None).entries.take(
            vstd::math::min(count as int, resolved_entries(lookups).len() as int),
        ),
{
    let sorted = stable_sort(sort, resolved_entries(lookups));
    lemma_stable_sort_permutes(sort, resolved_entries(lookups));
    lemma_truncated_prefix(sort, sorted, Some(count));
}

/// A lookup that does not resolve adds no entry, wherever it stands among
/// the lookups.
pub proof fn lemma_resolved_entries_skip(lookups: Seq<LookupView>, at: int, lookup: LookupView)
    requires
        0 <= at <= lookups.len(),
        freshness_of(lookup) is None,
    ensures
        resolved_entries(lookups.insert(at, lookup)) == resolved_entries(lookups),
    decreases lookups.len() - at,
{
    let longer = lookups.insert(at, lookup);
    if at == lookups.len() {
        assert(longer.drop_last() =~= lookups);
    } else {
        lemma_resolved_entries_skip(lookups.drop_last(), at, lookup);
        assert(longer.drop_last() =~= lookups.drop_last().insert(at, lookup));
        assert(longer.last() == lookups.last());
    }
}

/// A dependency whose lookup fails, for whichever reason, leaves the report
/// as it is without that dependency.
pub proof fn lemma_failed_lookup_adds_nothing(
    lookups: Seq<LookupView>,
    at: int,
    lookup: LookupView,
    sort: SortBy,
    top: Option<usize>,
)
    requires
        0 <= at <= lookups.len(),
        resolution(lookup.dependency, lookup.response) is Err,
    ensures
        report(lookups.insert(at, lookup), sort, top) == report(lookups, sort, top),
{
    lemma_resolved_entries_skip(lookups, at, lookup);
}

/// A dependency whose current version is not in the history that the
/// registry returned adds nothing to the entries of the report and nothing to
/// its total.
pub proof fn lemma_missing_current_version_adds_nothing(
    lookups: Seq<LookupView>,
    at: int,
    lookup: LookupView,
    sort: SortBy,
    top: Option<usize>,
)
    requires
        0 <= at <= lookups.len(),
        lookup.response is Some,
        !has_release(lookup.response->Some_0, lookup.dependency.current_version),
    ensures
        resolution(lookup.dependency, lookup.response) == Err::<FreshnessView, LookupError>(
            LookupError::CurrentVersionNotFound,
        ),
        report(lookups.insert(at, lookup), sort, top) == report(lookups, sort, top),
{
    lemma_resolved_entries_skip(lookups, at, lookup);
}

/// An elapsed time below zero is kept as it is: an entry whose release in
/// use was published after its latest release holds a negative elapsed time,
/// sorting keeps the entry, and the total grows by that time, which is to say
/// that it shrinks.
pub proof fn lemma_negative_elapsed_is_kept(
    entries: Seq<FreshnessView>,
    entry: FreshnessView,
    sort: SortBy,
)
    requires
        entry.is_consistent(),
        entry.latest_published_at < entry.current_published_at,
    ensures
        entry.elapsed_nanos < 0,
        stable_sort(sort, entries.push(entry)).contains(entry),
        total_elapsed(entries.push(entry)) == total_elapsed(entries) + entry.elapsed_nanos,
        total_elapsed(stable_sort(sort, entries.push(entry))) == total_elapsed(entries)
            + entry.elapsed_nanos,
{
    broadcast use vstd::seq_lib::to_multiset_contains;

    let longer = entries.push(entry);
    assert(longer.drop_last() =~= entries);
    assert(longer.last() == entry);
    lemma_stable_sort_permutes(sort, longer);
    assert(stable_sort(sort, longer).to_multiset().contains(entry));
    lemma_sorting_keeps_total(sort, longer);
}

/// Resolves every lookup, and leaves out those that fail.
pub fn resolve_all(lookups: &Vec<Lookup>) -> (resolved: Vec<DependencyFreshness>)
    ensures
        resolved.deep_view() == resolved_entries(lookups.deep_view()),
{
    let ghost each = |lookup: LookupView| freshness_of(lookup);
    let mut resolved: Vec<DependencyFreshness> = Vec::new();
    let mut i: usize = 0;
    while i < lookups.len()
        invariant
            i <= lookups.len(),
            each == |lookup: LookupView| freshness_of(lookup),
            resolved.deep_view() == lookups.deep_view().take(i as int).filter_map(each),
        decreases lookups.len() - i,
    {
        proof {
            lookups.deep_view().lemma_filter_map_take_succ(each, i as int);
        }
        match resolve(&lookups[i].dependency, &lookups[i].response) {
            Ok(freshness) => {
                resolved.push(freshness);
            },
            Err(_) => {},
        }
        i += 1;
    }
    assert(lookups.deep_view().take(i as int) =~= lookups.deep_view());
    resolved
}

/// The sum of the elapsed time of all `entries`, in nanoseconds.
pub fn total_elapsed_nanos(entries: &Vec<DependencyFreshness>) -> (total: i128)
    ensures
        total == total_elapsed(entries.deep_view()),
{
    let mut total: i128 = 0;
    let mut i: usize = 0;
    while i < entries.len()
        invariant
            i <= entries.len(),
            total == total_elapsed(entries.deep_view().take(i as int)),
            -0x8000_0000_0000_0000 * i <= total <= 0x8000_0000_0000_0000 * i,
        decreases entries.len() - i,
    {
        proof {
            let next = entries.deep_view().take(i + 1);
            assert(next.drop_last() =~= entries.deep_view().take(i as int));
        }
        total = total + entries[i].elapsed_nanos as i128;
        i += 1;
    }
    assert(entries.deep_view().take(i as int) =~= entries.deep_view());
    total
}

/// The report over `lookups`.
///
/// A lookup that fails is left out: it adds nothing to the entries and
/// nothing to the total. The total is taken before the entries are sorted and
/// cut short, so neither changes it.
pub fn build(lookups: &Vec<Lookup>, sort: SortBy, top: Option<usize>) -> (result: Report)
    ensures
        result@ == report(lookups.deep_view(), sort, top),
        result.total_elapsed_nanos == total_elapsed(resolved_entries(lookups.deep_view())),
        is_sorted(sort, result@.entries),
        top is None ==> result.entries.len() == resolved_entries(lookups.deep_view()).len(),
        top is Some ==> result.entries.len() == vstd::math::min(
            top->Some_0 as int,
            resolved_entries(lookups.deep_view()).len() as int,
        ),
{
    let resolved = resolve_all(lookups);
    let total = total_elapsed_nanos(&resolved);
    Report { entries: arrange(sort, top, resolved), total_elapsed_nanos: total }
}

} // verus!
