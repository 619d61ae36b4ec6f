//! Sets of addresses, held as ranges.
use rangeset::iter::RangeIterator;
use vstd::prelude::*;

verus! {

/// A set of addresses.
pub type Ranges = rangeset::set::RangeSet<usize>;

#[verifier::external_type_specification]
#[verifier::external_body]
#[verifier::reject_recursive_types(T)]
pub struct ExRangeSet<T>(rangeset::set::RangeSet<T>);

/// The ranges that a set holds, each as its start and its end.
pub uninterp spec fn ranges_of(s: rangeset::set::RangeSet<usize>) -> Seq<(usize, usize)>;

/// The ranges are in order, not empty, and there is a gap between any two.
pub open spec fn in_order(r: Seq<(usize, usize)>) -> bool {
    &&& forall|i: int| 0 <= i < r.len() ==> (#[trigger] r[i]).0 < r[i].1
    &&& forall|i: int, j: int| 0 <= i < j < r.len() ==> (#[trigger] r[i]).1 < (#[trigger] r[j]).0
}

/// Address `x` is in one of the ranges.
pub open spec fn covered(r: Seq<(usize, usize)>, x: int) -> bool {
    exists|i: int| 0 <= i < r.len() && (#[trigger] r[i]).0 <= x < r[i].1
}

/// The addresses in the ranges.
pub open spec fn addresses(r: Seq<(usize, usize)>) -> Set<int> {
    Set::new(|x: int| covered(r, x))
}

/// The addresses of a set.
pub open spec fn members(s: Ranges) -> Set<int> {
    addresses(ranges_of(s))
}

/// The addresses from `start` up to `end`.
pub open spec fn span(start: int, end: int) -> Set<int> {
    Set::new(|x: int| start <= x < end)
}

/// The number of addresses in the first `n` ranges.
pub open spec fn total(r: Seq<(usize, usize)>, n: nat) -> nat
    decreases n,
{
    if n == 0 {
        0
    } else {
        (total(r, (n - 1) as nat) + (r[n - 1].1 - r[n - 1].0)) as nat
    }
}

/// Calls `RangeSet::default`, which returns the set without a range.
#[verifier::external_body]
pub(crate) fn empty() -> (s: Ranges)
    ensures
        ranges_of(s) == Seq::<(usize, usize)>::empty(),
{
    Ranges::default()
}

/// Calls `RangeSet::from` on a range, which returns the set with that range
/// alone, or without a range where it is empty.
#[verifier::external_body]
pub(crate) fn from_range(start: usize, end: usize) -> (s: Ranges)
    ensures
        ranges_of(s) == if start < end {
            seq![(start, end)]
        } else {
            Seq::empty()
        },
{
    Ranges::from(start..end)
}

/// Calls `RangeSet::clone`, which returns a set with the same ranges.
#[verifier::external_body]
pub(crate) fn clone(s: &Ranges) -> (r: Ranges)
    ensures
        ranges_of(r) == ranges_of(*s),
{
    s.clone()
}

/// Calls `RangeSet::iter`, which walks the ranges in order. They are not empty
/// and there is a gap between any two.
#[verifier::external_body]
pub(crate) fn to_ranges(s: &Ranges) -> (r: Vec<(usize, usize)>)
    ensures
        r@ == ranges_of(*s),
        in_order(r@),
{
    s.iter().map(|range| (range.start, range.end)).collect()
}

/// Calls `RangeSet::union_mut`, which adds the addresses of another set.
#[verifier::external_body]
pub(crate) fn union_mut(s: &mut Ranges, other: &Ranges)
    ensures
        members(*final(s)) == members(*old(s)).union(members(*other)),
{
    s.union_mut(other)
}

/// Calls `Set::intersection`, collected by `RangeIterator::into_set`: the
/// addresses that both sets have.
#[verifier::external_body]
pub(crate) fn intersection(a: &Ranges, b: &Ranges) -> (r: Ranges)
    ensures
        members(r) == members(*a).intersect(members(*b)),
{
    rangeset::ops::Set::intersection(a, b).into_set()
}

/// Calls `Set::difference`, collected by `RangeIterator::into_set`: the
/// addresses of the first set that the second does not have.
#[verifier::external_body]
pub(crate) fn difference(a: &Ranges, b: &Ranges) -> (r: Ranges)
    ensures
        members(r) == members(*a).difference(members(*b)),
{
    rangeset::ops::Set::difference(a, b).into_set()
}

/// Calls `Set::is_disjoint`: whether the sets have no address in common.
#[verifier::external_body]
pub(crate) fn is_disjoint(a: &Ranges, b: &Ranges) -> (r: bool)
    ensures
        r == members(*a).disjoint(members(*b)),
{
    rangeset::ops::Set::is_disjoint(a, b)
}

/// Calls `Set::is_subset`: whether the second set has all addresses of the
/// first.
#[verifier::external_body]
pub(crate) fn is_subset(a: &Ranges, b: &Ranges) -> (r: bool)
    ensures
        r == members(*a).subset_of(members(*b)),
{
    rangeset::ops::Set::is_subset(a, b)
}

/// Calls `RangeSet::is_empty`: whether the set has no range.
#[verifier::external_body]
pub(crate) fn is_empty(s: &Ranges) -> (r: bool)
    ensures
        r == (ranges_of(*s).len() == 0),
        r == (members(*s) =~= Set::empty()),
{
    s.is_empty()
}

/// Calls `RangeSet::clear`, which removes all ranges.
#[verifier::external_body]
pub(crate) fn clear(s: &mut Ranges)
    ensures
        ranges_of(*final(s)) == Seq::<(usize, usize)>::empty(),
{
    s.clear()
}

/// Returns the number of addresses of a set.
pub fn len(s: &Ranges) -> (n: usize)
    ensures
        n == total(ranges_of(*s), ranges_of(*s).len()),
{
    let ranges: Vec<(usize, usize)> = to_ranges(s);
    let mut n: usize = 0;
    let mut i: usize = 0;
    while i < ranges.len()
        invariant
            in_order(ranges@),
            i <= ranges@.len(),
            n == total(ranges@, i as nat),
            n <= if i == 0 { 0 } else { ranges@[i - 1].1 },
        decreases ranges@.len() - i,
    {
        assert(i > 0 ==> ranges@[i - 1].1 < ranges@[i as int].0);
        assert(ranges@[i as int].0 < ranges@[i as int].1);
        n = n + (ranges[i].1 - ranges[i].0);
        i = i + 1;
    }
    n
}

/// A single range covers its addresses.
pub proof fn lemma_span(start: usize, end: usize)
    ensures
        addresses(if start < end {
            seq![(start, end)]
        } else {
            Seq::empty()
        }) == span(start as int, end as int),
{
    let r: Seq<(usize, usize)> = if start < end {
        seq![(start, end)]
    } else {
        Seq::empty()
    };
    assert forall|x: int| addresses(r).contains(x) == span(start as int, end as int).contains(x) by {
        if start <= x < end {
            assert(r[0].0 <= x < r[0].1);
        }
    }
    assert(addresses(r) =~= span(start as int, end as int));
}

} // verus!
