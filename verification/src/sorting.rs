//! Putting the entries of a report in order, and cutting the list short.

use vstd::prelude::*;
use crate::args::Args;
use crate::freshness::{DependencyFreshness, FreshnessView};
use crate::order::{
    comes_before, lemma_precedes_is_an_order, name_le, precedes, same_rank, SortBy,
};

verus! {

/// Under `sort`, no entry of `entries` stands behind one that it has to
/// precede.
pub open spec fn is_sorted(sort: SortBy, entries: Seq<FreshnessView>) -> bool {
    forall|i: int, j: int|
        0 <= i < j < entries.len() ==> !precedes(sort, #[trigger] entries[j], #[trigger] entries[i])
}

/// Where the entry `x` goes in `sorted`: behind the last entry that it does
/// not have to precede.
pub open spec fn slot(sort: SortBy, sorted: Seq<FreshnessView>, x: FreshnessView) -> int
    decreases sorted.len(),
{
    if sorted.len() == 0 {
        0
    } else if precedes(sort, x, sorted.last()) {
        slot(sort, sorted.drop_last(), x)
    } else {
        sorted.len() as int
    }
}

/// The entries of `entries` in the order that `sort` asks for, where entries
/// of the same rank keep the order in which they stood.
pub open spec fn stable_sort(sort: SortBy, entries: Seq<FreshnessView>) -> Seq<FreshnessView>
    decreases entries.len(),
{
    if entries.len() == 0 {
        Seq::empty()
    } else {
        let sorted = stable_sort(sort, entries.drop_last());
        sorted.insert(slot(sort, sorted, entries.last()), entries.last())
    }
}

/// The first `top` entries of `entries`; all of them where `top` is `None`
/// or not less than their number.
pub open spec fn truncated(entries: Seq<FreshnessView>, top: Option<usize>) -> Seq<FreshnessView> {
    match top {
        Some(count) if count < entries.len() => entries.take(count as int),
        _ => entries,
    }
}

/// The entries of `entries` that have the rank of `x` under `sort`, in the
/// order in which they stand.
pub open spec fn ties(sort: SortBy, entries: Seq<FreshnessView>, x: FreshnessView) -> Seq<
    FreshnessView,
> {
    entries.filter(|e: FreshnessView| same_rank(sort, x, e))
}

/// The position that `slot` gives lies within the list; every entry from
/// that position on has to follow `x`; and in a sorted list no entry before
/// it has to.
pub proof fn lemma_slot_divides(sort: SortBy, sorted: Seq<FreshnessView>, x: FreshnessView)
    ensures
        0 <= slot(sort, sorted, x) <= sorted.len(),
        forall|i: int|
            slot(sort, sorted, x) <= i < sorted.len() ==> precedes(sort, x, #[trigger] sorted[i]),
        is_sorted(sort, sorted) ==> forall|i: int|
            0 <= i < slot(sort, sorted, x) ==> !precedes(sort, x, #[trigger] sorted[i]),
    decreases sorted.len(),
{
    if sorted.len() > 0 {
        if precedes(sort, x, sorted.last()) {
            let rest = sorted.drop_last();
            lemma_slot_divides(sort, rest, x);
            assert forall|i: int| slot(sort, sorted, x) <= i < sorted.len() implies precedes(
                sort,
                x,
                #[trigger] sorted[i],
            ) by {
                if i < rest.len() {
                    assert(sorted[i] == rest[i]);
                }
            }
            if is_sorted(sort, sorted) {
                assert forall|i: int, j: int| 0 <= i < j < rest.len() implies !precedes(
                    sort,
                    #[trigger] rest[j],
                    #[trigger] rest[i],
                ) by {
                    assert(rest[i] == sorted[i] && rest[j] == sorted[j]);
                }
                assert forall|i: int| 0 <= i < slot(sort, sorted, x) implies !precedes(
                    sort,
                    x,
                    #[trigger] sorted[i],
                ) by {
                    assert(sorted[i] == rest[i]);
                }
            }
        } else if is_sorted(sort, sorted) {
            assert forall|i: int| 0 <= i < sorted.len() implies !precedes(
                sort,
                x,
                #[trigger] sorted[i],
            ) by {
                if i < sorted.len() - 1 {
                    assert(!precedes(sort, sorted[sorted.len() - 1], sorted[i]));
                    lemma_precedes_is_an_order(sort, sorted[i], sorted.last(), x);
                }
            }
        }
    }
}

/// Sorting neither adds an entry nor drops one.
pub proof fn lemma_stable_sort_permutes(sort: SortBy, entries: Seq<FreshnessView>)
    ensures
        stable_sort(sort, entries).len() == entries.len(),
        stable_sort(sort, entries).to_multiset() == entries.to_multiset(),
    decreases entries.len(),
{
    broadcast use {vstd::seq_lib::to_multiset_build, vstd::seq_lib::to_multiset_insert};

    if entries.len() > 0 {
        let rest = entries.drop_last();
        let sorted = stable_sort(sort, rest);
        lemma_stable_sort_permutes(sort, rest);
        lemma_slot_divides(sort, sorted, entries.last());
        assert(entries =~= rest.push(entries.last()));
        assert(rest.push(entries.last()).to_multiset() == rest.to_multiset().insert(
            entries.last(),
        ));
        assert(sorted.insert(slot(sort, sorted, entries.last()), entries.last()).to_multiset()
            == sorted.to_multiset().insert(entries.last()));
    } else {
        assert(entries =~= Seq::<FreshnessView>::empty());
    }
}

/// What comes out of sorting is sorted.
pub proof fn lemma_stable_sort_is_sorted(sort: SortBy, entries: Seq<FreshnessView>)
    ensures
        is_sorted(sort, stable_sort(sort, entries)),
    decreases entries.len(),
{
    if entries.len() > 0 {
        let x = entries.last();
        let sorted = stable_sort(sort, entries.drop_last());
        let at = slot(sort, sorted, x);
        let out = stable_sort(sort, entries);
        lemma_stable_sort_is_sorted(sort, entries.drop_last());
        lemma_slot_divides(sort, sorted, x);
        sorted.insert_ensures(at, x);
        assert forall|i: int, j: int| 0 <= i < j < out.len() implies !precedes(
            sort,
            #[trigger] out[j],
            #[trigger] out[i],
        ) by {
            if j < at {
                assert(out[i] == sorted[i] && out[j] == sorted[j]);
            } else if j == at {
                assert(out[i] == sorted[i]);
            } else if i < at {
                assert(out[i] == sorted[i] && out[j] == sorted[j - 1]);
            } else if i == at {
                assert(out[j] == sorted[j - 1]);
                lemma_precedes_is_an_order(sort, x, sorted[j - 1], x);
            } else {
                assert(out[i] == sorted[i - 1] && out[j] == sorted[j - 1]);
            }
        }
    }
}

/// What an entry at the end adds to the entries of the rank of `x`: itself,
/// where it has that rank, and nothing else.
pub proof fn lemma_ties_push(
    sort: SortBy,
    entries: Seq<FreshnessView>,
    last: FreshnessView,
    x: FreshnessView,
)
    ensures
        ties(sort, entries.push(last), x) == if same_rank(sort, x, last) {
            ties(sort, entries, x).push(last)
        } else {
            ties(sort, entries, x)
        },
{
    reveal(Seq::filter);
    assert(entries.push(last).drop_last() =~= entries);
}

/// The entries of the rank of `x` are entries of that rank, and where there
/// is such an entry they are not empty.
pub proof fn lemma_ties_members(sort: SortBy, entries: Seq<FreshnessView>, x: FreshnessView)
    ensures
        ties(sort, entries, x).len() <= entries.len(),
        ties(sort, entries, x).len() > 0 ==> exists|i: int|
            0 <= i < entries.len() && same_rank(sort, x, #[trigger] entries[i]),
        forall|i: int|
            0 <= i < entries.len() && same_rank(sort, x, #[trigger] entries[i]) ==> ties(
                sort,
                entries,
                x,
            ).len() > 0,
{
    let tied = |e: FreshnessView| same_rank(sort, x, e);
    entries.lemma_filter_len(tied);
    if entries.filter(tied).len() > 0 {
        let e = entries.filter(tied)[0];
        entries.lemma_filter_pred(tied, 0);
        assert(entries.filter(tied).contains(e));
        entries.lemma_filter_contains_rev(tied, e);
        let i = choose|i: int| 0 <= i < entries.len() && entries[i] == e;
        assert(same_rank(sort, x, entries[i]));
    }
    assert forall|i: int|
        0 <= i < entries.len() && same_rank(sort, x, #[trigger] entries[i]) implies entries.filter(
        tied,
    ).len() > 0 by {
        entries.lemma_filter_contains(tied, i);
    }
}

/// Sorting is stable: the entries of the rank of `x` stand in the sorted
/// list in the order in which they stood before.
pub proof fn lemma_stable_sort_keeps_ties(
    sort: SortBy,
    entries: Seq<FreshnessView>,
    x: FreshnessView,
)
    ensures
        ties(sort, stable_sort(sort, entries), x) == ties(sort, entries, x),
    decreases entries.len(),
{
    if entries.len() > 0 {
        let last = entries.last();
        let rest = entries.drop_last();
        let sorted = stable_sort(sort, rest);
        let at = slot(sort, sorted, last);
        lemma_stable_sort_keeps_ties(sort, rest, x);
        lemma_slot_divides(sort, sorted, last);
        let tied = |e: FreshnessView| same_rank(sort, x, e);
        let front = sorted.subrange(0, at);
        let back = sorted.subrange(at, sorted.len() as int);
        assert(sorted =~= front + back);
        assert(entries =~= rest.push(last));
        Seq::filter_distributes_over_add(front, back, tied);
        Seq::filter_distributes_over_add(front.push(last), back, tied);
        lemma_ties_push(sort, front, last, x);
        lemma_ties_push(sort, rest, last, x);
        if same_rank(sort, x, last) {
            // Every entry behind the slot has to follow `last`, so none of
            // them has its rank.
            lemma_ties_members(sort, back, x);
            if ties(sort, back, x).len() > 0 {
                let k = choose|k: int|
                    0 <= k < back.len() && same_rank(sort, x, #[trigger] back[k]);
                assert(back[k] == sorted[at + k]);
                lemma_precedes_is_an_order(sort, back[k], x, last);
            }
            assert(ties(sort, back, x) =~= Seq::<FreshnessView>::empty());
        }
        assert(ties(sort, stable_sort(sort, entries), x) =~= ties(sort, entries, x));
    }
}

/// Being sorted and keeping the order within every rank leaves no choice:
/// two sorted lists that hold, for every rank, the same entries of that rank
/// in the same order are the same list.
pub proof fn lemma_sorted_with_same_ties_are_equal(
    sort: SortBy,
    a: Seq<FreshnessView>,
    b: Seq<FreshnessView>,
)
    requires
        is_sorted(sort, a),
        is_sorted(sort, b),
        forall|x: FreshnessView| #[trigger] ties(sort, a, x) == ties(sort, b, x),
    ensures
        a == b,
    decreases a.len(),
{
    if a.len() == 0 {
        if b.len() > 0 {
            lemma_precedes_is_an_order(sort, b[0], b[0], b[0]);
            lemma_ties_members(sort, b, b[0]);
            lemma_ties_members(sort, a, b[0]);
            assert(ties(sort, a, b[0]) == ties(sort, b, b[0]));
        }
        assert(a =~= b);
    } else {
        let m = a.last();
        let a_rest = a.drop_last();
        assert(a =~= a_rest.push(m));
        lemma_precedes_is_an_order(sort, m, m, m);
        lemma_ties_push(sort, a_rest, m, m);
        assert(ties(sort, a, m) == ties(sort, b, m));
        lemma_ties_members(sort, b, m);
        let y = b.last();
        let b_rest = b.drop_last();
        assert(b =~= b_rest.push(y));
        lemma_precedes_is_an_order(sort, y, y, y);
        lemma_ties_push(sort, b_rest, y, y);
        lemma_ties_push(sort, b_rest, y, m);
        if !same_rank(sort, m, y) {
            // Some entry of `b` has the rank of `m`, and it is not the last.
            let k = choose|k: int| 0 <= k < b.len() && same_rank(sort, m, #[trigger] b[k]);
            assert(!precedes(sort, b[b.len() - 1], b[k]));
            lemma_precedes_is_an_order(sort, m, b[k], y);
            // Some entry of `a` has the rank of `y`, and it is not the last.
            assert(ties(sort, a, y) == ties(sort, b, y));
            lemma_ties_members(sort, a, y);
            let i = choose|i: int| 0 <= i < a.len() && same_rank(sort, y, #[trigger] a[i]);
            assert(!precedes(sort, a[a.len() - 1], a[i]));
            lemma_precedes_is_an_order(sort, y, a[i], m);
        }
        assert(ties(sort, b, m).last() == y);
        assert(y == m);
        assert forall|x: FreshnessView| #[trigger]
            ties(sort, a_rest, x) == ties(sort, b_rest, x) by {
            lemma_ties_push(sort, a_rest, m, x);
            lemma_ties_push(sort, b_rest, m, x);
            assert(ties(sort, a, x) == ties(sort, b, x));
            if same_rank(sort, x, m) {
                assert(ties(sort, a_rest, x).push(m).drop_last() =~= ties(sort, a_rest, x));
                assert(ties(sort, b_rest, x).push(m).drop_last() =~= ties(sort, b_rest, x));
            }
        }
        assert forall|i: int, j: int| 0 <= i < j < a_rest.len() implies !precedes(
            sort,
            #[trigger] a_rest[j],
            #[trigger] a_rest[i],
        ) by {
            assert(a_rest[i] == a[i] && a_rest[j] == a[j]);
        }
        assert forall|i: int, j: int| 0 <= i < j < b_rest.len() implies !precedes(
            sort,
            #[trigger] b_rest[j],
            #[trigger] b_rest[i],
        ) by {
            assert(b_rest[i] == b[i] && b_rest[j] == b[j]);
        }
        lemma_sorted_with_same_ties_are_equal(sort, a_rest, b_rest);
    }
}

/// What sorting gives is the one list that is sorted and holds, for every
/// rank, the entries of that rank in the order in which `entries` holds them.
pub proof fn lemma_stable_sort_is_the_only_one(
    sort: SortBy,
    entries: Seq<FreshnessView>,
    other: Seq<FreshnessView>,
)
    requires
        is_sorted(sort, other),
        forall|x: FreshnessView| #[trigger] ties(sort, other, x) == ties(sort, entries, x),
    ensures
        other == stable_sort(sort, entries),
{
    lemma_stable_sort_is_sorted(sort, entries);
    assert forall|x: FreshnessView| #[trigger]
        ties(sort, other, x) == ties(sort, stable_sort(sort, entries), x) by {
        lemma_stable_sort_keeps_ties(sort, entries, x);
    }
    lemma_sorted_with_same_ties_are_equal(sort, other, stable_sort(sort, entries));
}

/// Sorted by name: of two entries that stand next to one another the first
/// does not have the greater name.
pub proof fn lemma_alphabetical_names_ascend(entries: Seq<FreshnessView>)
    ensures
        forall|i: int|
            0 <= i && i + 1 < entries.len() ==> name_le(
                (#[trigger] stable_sort(SortBy::Alphabetical, entries)[i]).name,
                stable_sort(SortBy::Alphabetical, entries)[i + 1].name,
            ),
{
    lemma_stable_sort_is_sorted(SortBy::Alphabetical, entries);
    lemma_stable_sort_permutes(SortBy::Alphabetical, entries);
}

/// Sorted by libyears: of two entries that stand next to one another the
/// first is not the less outdated.
pub proof fn lemma_libyear_elapsed_descends(entries: Seq<FreshnessView>)
    ensures
        forall|i: int|
            0 <= i && i + 1 < entries.len() ==> (#[trigger] stable_sort(
                SortBy::Libyear,
                entries,
            )[i]).elapsed_nanos >= stable_sort(SortBy::Libyear, entries)[i + 1].elapsed_nanos,
{
    lemma_stable_sort_is_sorted(SortBy::Libyear, entries);
    lemma_stable_sort_permutes(SortBy::Libyear, entries);
}

/// Cutting a sorted list short leaves it sorted, and leaves as many entries
/// as were asked for, or all of them where there are fewer.
pub proof fn lemma_truncated_prefix(sort: SortBy, entries: Seq<FreshnessView>, top: Option<usize>)
    ensures
        top is None ==> truncated(entries, top) == entries,
        top is Some ==> truncated(entries, top).len() == vstd::math::min(
            top->Some_0 as int,
            entries.len() as int,
        ),
        truncated(entries, top) == entries.take(truncated(entries, top).len() as int),
        is_sorted(sort, entries) ==> is_sorted(sort, truncated(entries, top)),
{
}

/// The position at which `entry` goes into the sorted list `sorted`.
fn find_slot(sort: SortBy, sorted: &Vec<DependencyFreshness>, entry: &DependencyFreshness) -> (at:
    usize)
    ensures
        at == slot(sort, sorted.deep_view(), entry@),
        at <= sorted.len(),
{
    let mut at: usize = sorted.len();
    assert(sorted.deep_view().take(at as int) =~= sorted.deep_view());
    while at > 0 && comes_before(sort, entry, &sorted[at - 1])
        invariant
            at <= sorted.len(),
            slot(sort, sorted.deep_view(), entry@) == slot(
                sort,
                sorted.deep_view().take(at as int),
                entry@,
            ),
        decreases at,
    {
        proof {
            let prefix = sorted.deep_view().take(at as int);
            assert(prefix.drop_last() =~= sorted.deep_view().take(at - 1));
        }
        at -= 1;
    }
    at
}

/// Sorts `entries` as `sort` asks for. The sort is stable: entries of the
/// same rank keep their order.
pub fn sort_entries(sort: SortBy, entries: Vec<DependencyFreshness>) -> (sorted: Vec<
    DependencyFreshness,
>)
    ensures
        sorted.deep_view() == stable_sort(sort, entries.deep_view()),
        is_sorted(sort, sorted.deep_view()),
        forall|x: FreshnessView| #[trigger]
            ties(sort, sorted.deep_view(), x) == ties(sort, entries.deep_view(), x),
        sorted.deep_view().to_multiset() == entries.deep_view().to_multiset(),
{
    let ghost all = entries.deep_view();
    proof {
        lemma_stable_sort_is_sorted(sort, all);
        lemma_stable_sort_permutes(sort, all);
        assert forall|x: FreshnessView| #[trigger]
            ties(sort, stable_sort(sort, all), x) == ties(sort, all, x) by {
            lemma_stable_sort_keeps_ties(sort, all, x);
        }
    }
    let mut sorted: Vec<DependencyFreshness> = Vec::new();
    for entry in it: entries
        invariant
            it.seq().len() == all.len(),
            forall|i: int| 0 <= i < all.len() ==> (#[trigger] it.seq()[i])@ == all[i],
            sorted.deep_view() == stable_sort(sort, all.take(it.index())),
    {
        let at = find_slot(sort, &sorted, &entry);
        proof {
            let done = all.take(it.index() + 1);
            assert(done.drop_last() =~= all.take(it.index()));
        }
        sorted.insert(at, entry);
    }
    assert(all.take(all.len() as int) =~= all);
    sorted
}

/// Sorts `entries` as `sort` asks for, and keeps the first `top` of them
/// where `top` is set.
pub fn arrange(sort: SortBy, top: Option<usize>, entries: Vec<DependencyFreshness>) -> (shown: Vec<
    DependencyFreshness,
>)
    ensures
        shown.deep_view() == truncated(stable_sort(sort, entries.deep_view()), top),
        is_sorted(sort, shown.deep_view()),
        top is None ==> shown.len() == entries.len(),
        top is Some ==> shown.len() == vstd::math::min(top->Some_0 as int, entries.len() as int),
{
    let ghost sorted = stable_sort(sort, entries.deep_view());
    proof {
        lemma_stable_sort_permutes(sort, entries.deep_view());
        lemma_truncated_prefix(sort, sorted, top);
    }
    let mut shown = sort_entries(sort, entries);
    if let Some(count) = top {
        shown.truncate(count);
    }
    assert(shown.deep_view() =~= truncated(sorted, top));
    shown
}

/// Sorts `dependencies` as `args.sort` asks for, and keeps the first
/// `args.top` of them where that is set.
pub fn process_dependencies(args: &Args, dependencies: Vec<DependencyFreshness>) -> (shown: Vec<
    DependencyFreshness,
>)
    ensures
        shown.deep_view() == truncated(stable_sort(args.sort, dependencies.deep_view()), args.top),
        is_sorted(args.sort, shown.deep_view()),
        args.top is None ==> shown.len() == dependencies.len(),
        args.top is Some ==> shown.len() == vstd::math::min(
            args.top->Some_0 as int,
            dependencies.len() as int,
        ),
{
    arrange(args.sort, args.top, dependencies)
}

} // verus!
