//! Ascending byte sequences: what it means to sort one and to collapse its
//! runs, and the calls that do both.

use itertools::Itertools;
use vstd::prelude::*;
use vstd::relations::{sorted_by, total_ordering};
use vstd::seq_lib::lemma_sorted_unique;

verus! {

/// The order of bytes, as a relation.
pub open spec fn byte_leq() -> spec_fn(u8, u8) -> bool {
    |a: u8, b: u8| a <= b
}

/// No element is greater than a later one.
pub open spec fn is_ascending(s: Seq<u8>) -> bool {
    forall|i: int, j: int| 0 <= i < j < s.len() ==> s[i] <= s[j]
}

/// The elements of `s` in ascending order.
pub open spec fn ascending(s: Seq<u8>) -> Seq<u8> {
    s.sort_by(byte_leq())
}

/// `s` with each run of equal neighbours reduced to one element.
pub open spec fn collapse_adjacent(s: Seq<u8>) -> Seq<u8>
    decreases s.len(),
{
    if s.len() <= 1 {
        s
    } else {
        let head = collapse_adjacent(s.drop_last());
        if s[s.len() - 2] == s.last() {
            head
        } else {
            head.push(s.last())
        }
    }
}

/// `ascending(s)` is ascending and holds what `s` holds.
pub proof fn lemma_ascending(s: Seq<u8>)
    ensures
        is_ascending(ascending(s)),
        ascending(s).to_multiset() == s.to_multiset(),
        ascending(s).len() == s.len(),
{
    assert(total_ordering(byte_leq()));
    s.lemma_sort_by_ensures(byte_leq());
    let t = ascending(s);
    assert(sorted_by(t, byte_leq()));
    assert forall|i: int, j: int| 0 <= i < j < t.len() implies t[i] <= t[j] by {
        assert(byte_leq()(t[i], t[j]));
    }
    s.to_multiset_ensures();
    t.to_multiset_ensures();
}

/// An ascending sequence that holds what `s` holds is `ascending(s)`.
pub proof fn lemma_ascending_unique(s: Seq<u8>, t: Seq<u8>)
    requires
        is_ascending(t),
        t.to_multiset() == s.to_multiset(),
    ensures
        t == ascending(s),
{
    assert(total_ordering(byte_leq()));
    lemma_ascending(s);
    let u = ascending(s);
    assert(sorted_by(t, byte_leq()));
    assert(sorted_by(u, byte_leq())) by {
        s.lemma_sort_by_ensures(byte_leq());
    }
    lemma_sorted_unique(t, u, byte_leq());
}

/// Collapsing the runs of an ascending sequence leaves it ascending, ends
/// it with the same element, and does not make it longer.
pub proof fn lemma_collapse_ascending(s: Seq<u8>)
    requires
        is_ascending(s),
    ensures
        is_ascending(collapse_adjacent(s)),
        collapse_adjacent(s).len() <= s.len(),
        s.len() > 0 ==> collapse_adjacent(s).len() > 0 && collapse_adjacent(s).last() == s.last(),
    decreases s.len(),
{
    if s.len() > 1 {
        lemma_collapse_ascending(s.drop_last());
    }
}

/// The bytes in ascending order, by `Itertools::sorted`, which collects
/// them and sorts the collection: the result is ascending and holds each
/// byte as often as the argument does.
#[verifier::external_body]
pub(crate) fn sorted_bytes(values: &Vec<u8>) -> (r: Vec<u8>)
    ensures
        is_ascending(r@),
        r@.to_multiset() == values@.to_multiset(),
{
    values.iter().copied().sorted().collect()
}

/// The bytes without repeated neighbours, by `Itertools::dedup`, which
/// keeps the first element of each run of equal elements.
#[verifier::external_body]
pub(crate) fn dedup_bytes(values: &Vec<u8>) -> (r: Vec<u8>)
    ensures
        r@ == collapse_adjacent(values@),
{
    values.iter().copied().dedup().collect()
}

} // verus!
