//! Possibility sets: sets of pattern indices held in `bit_set::BitSet`.

use vstd::prelude::*;
use bit_set::BitSet;

verus! {

#[verifier::external_type_specification]
#[verifier::external_body]
#[verifier::reject_recursive_types(B)]
pub struct ExBitSet<B>(bit_set::BitSet<B>);

/// The indices that a bit set holds.
pub uninterp spec fn bits_of(b: BitSet) -> Set<usize>;

/// Relies on `BitSet::new`: a new set holds nothing.
#[verifier::external_body]
pub(crate) fn set_new() -> (r: BitSet)
    ensures
        bits_of(r) == Set::<usize>::empty(),
{
    BitSet::new()
}

/// Relies on `BitSet::insert`: afterwards the set holds `v` as well.
#[verifier::external_body]
pub(crate) fn set_insert(s: &mut BitSet, v: usize)
    requires
        v < usize::MAX,
    ensures
        bits_of(*final(s)) == bits_of(*old(s)).insert(v),
{
    s.insert(v);
}

/// Relies on `BitSet::contains`: membership of `v`.
#[verifier::external_body]
pub(crate) fn set_contains(s: &BitSet, v: usize) -> (r: bool)
    ensures
        r == bits_of(*s).contains(v),
{
    s.contains(v)
}

/// Relies on `BitSet::len`: the number of indices held.
#[verifier::external_body]
pub(crate) fn set_len(s: &BitSet) -> (r: usize)
    ensures
        r == bits_of(*s).len(),
{
    s.len()
}

/// Relies on `BitSet::union_with`: afterwards `a` holds what either set held.
#[verifier::external_body]
pub(crate) fn set_union_with(a: &mut BitSet, b: &BitSet)
    ensures
        bits_of(*final(a)) == bits_of(*old(a)).union(bits_of(*b)),
{
    a.union_with(b);
}

/// Relies on `BitSet::intersect_with`: afterwards `a` holds what both sets held.
#[verifier::external_body]
pub(crate) fn set_intersect_with(a: &mut BitSet, b: &BitSet)
    ensures
        bits_of(*final(a)) == bits_of(*old(a)).intersect(bits_of(*b)),
{
    a.intersect_with(b);
}

/// Relies on `BitSet::clear`: afterwards the set holds nothing.
#[verifier::external_body]
pub(crate) fn set_clear(s: &mut BitSet)
    ensures
        bits_of(*final(s)) == Set::<usize>::empty(),
{
    s.clear();
}

/// Relies on `BitSet::iter`: it yields each index held once, in increasing order.
#[verifier::external_body]
pub(crate) fn set_elements(s: &BitSet) -> (r: Vec<usize>)
    ensures
        forall|i: int, j: int| 0 <= i < j < r@.len() ==> r@[i] < r@[j],
        forall|v: usize| bits_of(*s).contains(v) <==> r@.contains(v),
{
    s.iter().collect()
}

/// The set `{0, 1, ..., n - 1}`.
pub fn full_set(n: usize) -> (r: BitSet)
    ensures
        bits_of(r) == Set::new(|i: usize| i < n),
{
    let mut s = set_new();
    let mut i: usize = 0;
    while i < n
        invariant
            i <= n,
            bits_of(s) == Set::new(|k: usize| k < i),
        decreases n - i,
    {
        set_insert(&mut s, i);
        assert(bits_of(s) =~= Set::new(|k: usize| k < i + 1));
        i += 1;
    }
    s
}

} // verus!
