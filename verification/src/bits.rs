//! The boundary to the `bit_set` crate.
//!
//! A `bit_set::BitSet` is opaque to the verifier. Its contents are named by
//! [`members`], and every method the parser calls is reached through one of
//! the functions below, whose contracts are taken on trust from the crate's
//! source and are not proved here.

use vstd::prelude::*;

verus! {

/// `bit_set::BitSet`, a set of small integers kept as bits. Nothing of its
/// inside is known here.
#[verifier::external_type_specification]
#[verifier::external_body]
#[verifier::reject_recursive_types(B)]
pub struct ExBitSet<B>(bit_set::BitSet<B>);

/// The integers that a bit set holds.
pub uninterp spec fn members(s: bit_set::BitSet) -> Set<int>;

/// `BitSet::with_capacity`: a set that holds nothing. The capacity only
/// sizes the first allocation and is not part of the contents.
#[verifier::external_body]
pub(crate) fn bits_with_capacity(nbits: usize) -> (r: bit_set::BitSet)
    ensures
        members(r) == Set::<int>::empty(),
{
    bit_set::BitSet::with_capacity(nbits)
}

/// `BitSet::insert`: adds `value` and reports whether it was absent before.
/// The set grows to `value + 1` bits, which must fit in a `usize`.
#[verifier::external_body]
pub(crate) fn bits_insert(s: &mut bit_set::BitSet, value: usize) -> (fresh: bool)
    requires
        value < usize::MAX,
    ensures
        members(*final(s)) == members(*old(s)).insert(value as int),
        fresh == !members(*old(s)).contains(value as int),
{
    s.insert(value)
}

/// `BitSet::remove`: takes `value` out and reports whether it was present.
#[verifier::external_body]
pub(crate) fn bits_remove(s: &mut bit_set::BitSet, value: usize) -> (present: bool)
    ensures
        members(*final(s)) == members(*old(s)).remove(value as int),
        present == members(*old(s)).contains(value as int),
{
    s.remove(value)
}

/// `BitSet::contains`: membership of `value`.
#[verifier::external_body]
pub(crate) fn bits_contains(s: &bit_set::BitSet, value: usize) -> (present: bool)
    ensures
        present == members(*s).contains(value as int),
{
    s.contains(value)
}

/// `BitSet::is_empty`: whether no bit is set.
#[verifier::external_body]
pub(crate) fn bits_is_empty(s: &bit_set::BitSet) -> (none: bool)
    ensures
        none == (forall|v: int| !members(*s).contains(v)),
{
    s.is_empty()
}

/// `idxs` lists the members of `s`: all of them, each once, in ascending
/// order.
pub open spec fn lists(idxs: Seq<usize>, s: Set<int>) -> bool {
    &&& forall|a: int, b: int| 0 <= a < b < idxs.len() ==> idxs[a] < idxs[b]
    &&& forall|k: int| 0 <= k < idxs.len() ==> s.contains(#[trigger] idxs[k] as int)
    &&& forall|v: int| #[trigger]
        s.contains(v) ==> exists|k: int| 0 <= k < idxs.len() && idxs[k] as int == v
}

/// `BitSet::iter`: the members, block by block and lowest bit first, which
/// is ascending order; each member is produced once.
#[verifier::external_body]
pub(crate) fn bits_ascending(s: &bit_set::BitSet) -> (r: Vec<usize>)
    ensures
        lists(r@, members(*s)),
{
    s.iter().collect()
}

} // verus!
