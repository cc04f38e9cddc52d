//! The two orders in which a report can list its entries.

use vstd::prelude::*;
use vstd::utf8::encode_utf8;
use crate::freshness::{DependencyFreshness, FreshnessView};

verus! {

/// The order of a report's entries.
#[derive(Clone, Copy, Debug, PartialEq, Eq, Structural)]
pub enum SortBy {
    /// By name, ascending: names are compared byte by byte in their UTF-8
    /// encoding.
    Alphabetical,
    /// By elapsed time, descending: the most outdated dependency first.
    Libyear,
}

impl Default for SortBy {
    fn default() -> (sort: SortBy)
        ensures
            sort == SortBy::Alphabetical,
    {
        SortBy::Alphabetical
    }
}

/// `a` comes strictly before `b` in the lexicographic order of byte strings:
/// at the first position where the two differ `a` holds the smaller byte, or
/// `a` ends there and `b` goes on.
pub open spec fn bytes_precede(a: Seq<u8>, b: Seq<u8>) -> bool
    decreases a.len(),
{
    if b.len() == 0 {
        false
    } else if a.len() == 0 {
        true
    } else if a[0] != b[0] {
        a[0] < b[0]
    } else {
        bytes_precede(a.drop_first(), b.drop_first())
    }
}

/// The name `a` comes strictly before the name `b`.
pub open spec fn name_precedes(a: Seq<char>, b: Seq<char>) -> bool {
    bytes_precede(encode_utf8(a), encode_utf8(b))
}

/// The name `a` does not come after the name `b`.
pub open spec fn name_le(a: Seq<char>, b: Seq<char>) -> bool {
    !name_precedes(b, a)
}

/// Under `sort`, the entry `a` has to stand strictly before the entry `b`.
pub open spec fn precedes(sort: SortBy, a: FreshnessView, b: FreshnessView) -> bool {
    match sort {
        SortBy::Alphabetical => name_precedes(a.name, b.name),
        SortBy::Libyear => a.elapsed_nanos > b.elapsed_nanos,
    }
}

/// Under `sort`, neither of the entries `a` and `b` has to stand before the
/// other.
pub open spec fn same_rank(sort: SortBy, a: FreshnessView, b: FreshnessView) -> bool {
    !precedes(sort, a, b) && !precedes(sort, b, a)
}

/// No byte string comes before itself, and of two byte strings at most one
/// comes before the other.
pub proof fn lemma_bytes_precede_asymmetric(a: Seq<u8>, b: Seq<u8>)
    ensures
        bytes_precede(a, b) ==> !bytes_precede(b, a),
    decreases a.len(),
{
    if a.len() > 0 && b.len() > 0 && a[0] == b[0] {
        lemma_bytes_precede_asymmetric(a.drop_first(), b.drop_first());
    }
}

/// Where `a` does not come after `b` and `b` does not come after `c`, `a`
/// does not come after `c`.
pub proof fn lemma_bytes_order_transitive(a: Seq<u8>, b: Seq<u8>, c: Seq<u8>)
    requires
        !bytes_precede(b, a),
        !bytes_precede(c, b),
    ensures
        !bytes_precede(c, a),
    decreases a.len(),
{
    if a.len() > 0 && b.len() > 0 && c.len() > 0 && a[0] == b[0] && b[0] == c[0] {
        lemma_bytes_order_transitive(a.drop_first(), b.drop_first(), c.drop_first());
    }
}

/// Two byte strings that agree on their first `n` bytes compare as what
/// follows those bytes.
pub proof fn lemma_bytes_precede_after_common_prefix(a: Seq<u8>, b: Seq<u8>, n: int)
    requires
        0 <= n <= a.len(),
        n <= b.len(),
        forall|j: int| 0 <= j < n ==> a[j] == b[j],
    ensures
        bytes_precede(a, b) == bytes_precede(a.skip(n), b.skip(n)),
    decreases n,
{
    if n == 0 {
        assert(a.skip(0) =~= a);
        assert(b.skip(0) =~= b);
    } else {
        lemma_bytes_precede_after_common_prefix(a.drop_first(), b.drop_first(), n - 1);
        assert(a.drop_first().skip(n - 1) =~= a.skip(n));
        assert(b.drop_first().skip(n - 1) =~= b.skip(n));
    }
}

/// Under either order, of two entries at most one has to stand before the
/// other; and where `a` need not follow `b` nor `b` follow `c`, `a` need not
/// follow `c`.
pub proof fn lemma_precedes_is_an_order(
    sort: SortBy,
    a: FreshnessView,
    b: FreshnessView,
    c: FreshnessView,
)
    ensures
        precedes(sort, a, b) ==> !precedes(sort, b, a),
        !precedes(sort, b, a) && !precedes(sort, c, b) ==> !precedes(sort, c, a),
{
    lemma_bytes_precede_asymmetric(encode_utf8(a.name), encode_utf8(b.name));
    if !precedes(sort, b, a) && !precedes(sort, c, b) && sort == SortBy::Alphabetical {
        lemma_bytes_order_transitive(encode_utf8(a.name), encode_utf8(b.name), encode_utf8(c.name));
    }
}

/// Whether `a` comes strictly before `b` in the lexicographic order of byte
/// strings.
pub fn bytes_come_before(a: &[u8], b: &[u8]) -> (before: bool)
    ensures
        before == bytes_precede(a@, b@),
{
    let mut i: usize = 0;
    while i < a.len() && i < b.len()
        invariant
            i <= a.len(),
            i <= b.len(),
            forall|j: int| 0 <= j < i ==> a@[j] == b@[j],
        decreases a.len() - i,
    {
        if a[i] != b[i] {
            proof {
                lemma_bytes_precede_after_common_prefix(a@, b@, i as int);
            }
            return a[i] < b[i];
        }
        i += 1;
    }
    proof {
        lemma_bytes_precede_after_common_prefix(a@, b@, i as int);
    }
    i < b.len()
}

/// Whether, under `sort`, the entry `a` has to stand strictly before the
/// entry `b`.
pub fn comes_before(sort: SortBy, a: &DependencyFreshness, b: &DependencyFreshness) -> (before:
    bool)
    ensures
        before == precedes(sort, a@, b@),
{
    match sort {
        SortBy::Alphabetical => bytes_come_before(
            a.name.as_str().as_bytes(),
            b.name.as_str().as_bytes(),
        ),
        SortBy::Libyear => a.elapsed_nanos > b.elapsed_nanos,
    }
}

} // verus!
