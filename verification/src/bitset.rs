//! Signer bitsets, backed by `nimiq_collections::BitSet`.
//!
//! The collection is opaque to the verifier; `bits_of` names the set of
//! bit positions it holds, and each wrapper states how one operation of
//! the outside crate acts on that set.

use vstd::prelude::*;

verus! {

use nimiq_collections::BitSet;

#[verifier::external_type_specification]
#[verifier::external_body]
pub struct ExBitSet(BitSet);

/// The set of bit positions held by a `BitSet`.
pub uninterp spec fn bits_of(s: BitSet) -> Set<int>;

/// A bitset as this crate uses it: finitely many bits, all at positions
/// that fit the 16-bit wire format for ids.
pub open spec fn bitset_wf(s: BitSet) -> bool {
    &&& bits_of(s).finite()
    &&& forall|v: int| bits_of(s).contains(v) ==> 0 <= v <= 0xffff
}

/// Relies on `BitSet::new`: the fresh bitset has no bit set.
#[verifier::external_body]
pub fn new_bitset() -> (r: BitSet)
    ensures
        bits_of(r) == Set::<int>::empty(),
{
    BitSet::new()
}

/// Relies on `BitSet`'s `Clone`, which copies the stored blocks.
#[verifier::external_body]
pub fn bitset_clone(b: &BitSet) -> (r: BitSet)
    ensures
        bits_of(r) == bits_of(*b),
{
    b.clone()
}

/// Relies on `BitSet::len`: the maintained count is the number of set bits.
#[verifier::external_body]
pub fn bitset_len(b: &BitSet) -> (r: usize)
    requires
        bits_of(*b).finite(),
    ensures
        r == bits_of(*b).len(),
{
    b.len()
}

/// Relies on `BitSet::contains`: tests the bit at the given position.
#[verifier::external_body]
pub fn bitset_contains(b: &BitSet, value: usize) -> (r: bool)
    ensures
        r == bits_of(*b).contains(value as int),
{
    b.contains(value)
}

/// Relies on `BitSet::insert`: sets the bit at the given position.
#[verifier::external_body]
pub fn bitset_insert(b: &mut BitSet, value: usize)
    requires
        value <= 0xffff,
    ensures
        bits_of(*final(b)) == bits_of(*old(b)).insert(value as int),
{
    b.insert(value)
}

/// Relies on `BitSet`'s `BitOr`, which ors the stored blocks pairwise.
#[verifier::external_body]
pub fn bitset_union(a: &BitSet, b: &BitSet) -> (r: BitSet)
    ensures
        bits_of(r) == bits_of(*a).union(bits_of(*b)),
{
    a | b
}

/// Relies on `BitSet`'s `BitAnd`, which ands the stored blocks pairwise.
#[verifier::external_body]
pub fn bitset_intersection(a: &BitSet, b: &BitSet) -> (r: BitSet)
    ensures
        bits_of(r) == bits_of(*a).intersect(bits_of(*b)),
{
    a & b
}

/// Relies on `BitSet`'s `BitXor`, which xors the stored blocks pairwise:
/// the result holds the bits set in exactly one of the two.
#[verifier::external_body]
pub fn bitset_xor(a: &BitSet, b: &BitSet) -> (r: BitSet)
    ensures
        bits_of(r) == bits_of(*a).difference(bits_of(*b)).union(
            bits_of(*b).difference(bits_of(*a))),
{
    a ^ b
}

/// Relies on `BitSet::is_superset`: every block of `b` is covered by `a`.
#[verifier::external_body]
pub fn bitset_is_superset(a: &BitSet, b: &BitSet) -> (r: bool)
    ensures
        r == bits_of(*b).subset_of(bits_of(*a)),
{
    a.is_superset(b)
}

/// Relies on `BitSet::intersection_size`: counts the bits set in both.
#[verifier::external_body]
pub fn bitset_intersection_size(a: &BitSet, b: &BitSet) -> (r: usize)
    requires
        bits_of(*a).finite(),
        bits_of(*b).finite(),
    ensures
        r == bits_of(*a).intersect(bits_of(*b)).len(),
{
    a.intersection_size(b)
}

/// Relies on `BitSet::is_empty`: the maintained count is zero exactly
/// when no bit is set.
#[verifier::external_body]
pub fn bitset_is_empty(b: &BitSet) -> (r: bool)
    requires
        bits_of(*b).finite(),
    ensures
        r == (bits_of(*b) == Set::<int>::empty()),
{
    b.is_empty()
}

/// Relies on `BitSet::iter`: yields the set bit positions in ascending
/// order, each exactly once.
#[verifier::external_body]
pub fn bitset_elements(b: &BitSet) -> (r: Vec<usize>)
    requires
        bits_of(*b).finite(),
    ensures
        r@.len() == bits_of(*b).len(),
        forall|i: int, j: int| 0 <= i < j < r@.len() ==> r@[i] < r@[j],
        forall|i: int| 0 <= i < r@.len() ==> bits_of(*b).contains(r@[i] as int),
{
    b.iter().collect()
}

/// A set of 16-bit values has at most `2^16` elements.
pub proof fn lemma_bounded_set_len(s: Set<int>)
    requires
        s.finite(),
        forall|v: int| s.contains(v) ==> 0 <= v <= 0xffff,
    ensures
        s.len() <= 0x10000,
{
    let full = vstd::set_lib::set_int_range(0, 0x10000);
    vstd::set_lib::lemma_int_range(0, 0x10000);
    assert(s.subset_of(full));
    vstd::set_lib::lemma_len_subset(s, full);
}

/// What `bitset_elements` returns is also complete: a strictly
/// ascending vector, as long as the set and contained in it, holds
/// every element of the set.
pub proof fn lemma_elements_complete(s: Set<int>, r: Seq<usize>)
    requires
        s.finite(),
        r.len() == s.len(),
        forall|i: int, j: int| 0 <= i < j < r.len() ==> r[i] < r[j],
        forall|i: int| 0 <= i < r.len() ==> s.contains(r[i] as int),
    ensures
        forall|v: int|
            #[trigger] s.contains(v) <==> (0 <= v <= usize::MAX && r.contains(v as usize)),
{
    let m = r.map_values(|x: usize| x as int);
    assert(m.no_duplicates()) by {
        assert forall|i: int, j: int| 0 <= i < m.len() && 0 <= j < m.len() && i != j implies m[i]
            != m[j] by {
            if i < j {
                assert(r[i] < r[j]);
            } else {
                assert(r[j] < r[i]);
            }
        }
    }
    m.unique_seq_to_set();
    assert(m.to_set().subset_of(s)) by {
        assert forall|v: int| m.to_set().contains(v) implies s.contains(v) by {
            let i = choose|i: int| 0 <= i < m.len() && m[i] == v;
            assert(s.contains(r[i] as int));
        }
    }
    broadcast use vstd::seq_lib::seq_to_set_is_finite;

    assert(m.to_set().finite());
    vstd::set_lib::lemma_set_difference_len(s, m.to_set());
    assert(s.intersect(m.to_set()) =~= m.to_set());
    assert(s.difference(m.to_set()).len() == 0);
    s.difference(m.to_set()).lemma_len0_is_empty();
    assert forall|v: int| s.contains(v) implies (0 <= v <= usize::MAX && r.contains(
        v as usize)) by {
        assert(!s.difference(m.to_set()).contains(v));
        assert(m.to_set().contains(v));
        let i = choose|i: int| 0 <= i < m.len() && m[i] == v;
        assert(r[i] == v as usize);
    }
    assert forall|v: int| (0 <= v <= usize::MAX && r.contains(v as usize)) implies s.contains(
        v) by {
        let i = choose|i: int| 0 <= i < r.len() && r[i] == v as usize;
        assert(s.contains(r[i] as int));
    }
}

} // verus!
