//! A multi-signature: an aggregate signature together with the bitset
//! of the ids that contributed to it.

use vstd::prelude::*;

verus! {

use nimiq_collections::BitSet;
use crate::bitset::{
    bits_of, bitset_wf, new_bitset, bitset_clone, bitset_len, bitset_contains, bitset_insert,
    bitset_union, bitset_intersection, bitset_is_empty,
};
use crate::bls::{Signature, AggregateSignature, seq_bytes};

/// Failure of a merge or an individual add.
pub enum MultiSigError {
    /// The signer sets overlap; the overlap is returned.
    Overlapping(BitSet),
    /// The individual signer is already contained.
    Contained(usize),
}

/// The meaning of a multi-signature: the byte strings of the aggregated
/// parts, in fold order, and the set of contributing signer ids.
pub ghost struct MultiSigView {
    pub parts: Seq<Seq<u8>>,
    pub signers: Set<int>,
}

/// An aggregate signature with the bitset of its signers.
pub struct MultiSignature {
    pub signature: AggregateSignature,
    pub signers: BitSet,
}

impl MultiSignature {
    /// The set of contributing signer ids.
    pub open spec fn signers_set(self) -> Set<int> {
        bits_of(self.signers)
    }

    /// The byte strings of the aggregated parts, in fold order.
    pub open spec fn parts(self) -> Seq<Seq<u8>> {
        seq_bytes(self.signature.parts@)
    }

    /// Both facets at once.
    pub open spec fn mview(self) -> MultiSigView {
        MultiSigView { parts: self.parts(), signers: self.signers_set() }
    }

    /// The signer bitset is finite and holds ids that fit the wire format.
    pub open spec fn wf(self) -> bool {
        bitset_wf(self.signers)
    }

    pub fn from_aggregate(signature: AggregateSignature, signers: BitSet) -> (r: MultiSignature)
        ensures
            r.parts() == seq_bytes(signature.parts@),
            r.signers_set() == bits_of(signers),
    {
        MultiSignature { signature, signers }
    }

    /// The singleton multi-signature of one individual signature.
    pub fn from_individual(signature: &Signature, signer: usize) -> (r: MultiSignature)
        requires
            signer <= 0xffff,
        ensures
            r.parts() == seq![signature.bytes@],
            r.signers_set() == Set::<int>::empty().insert(signer as int),
            r.wf(),
    {
        let mut aggregate = AggregateSignature::new();
        let mut signers = new_bitset();
        aggregate.aggregate(signature);
        bitset_insert(&mut signers, signer);
        proof {
            assert(seq_bytes(aggregate.parts@) =~= seq![signature.bytes@]);
        }
        MultiSignature { signature: aggregate, signers }
    }

    /// The number of contributing signers.
    pub fn len(&self) -> (r: usize)
        requires
            self.wf(),
        ensures
            r == self.signers_set().len(),
    {
        bitset_len(&self.signers)
    }

    /// Merges another multi-signature into this one. Fails, leaving
    /// this one unchanged, exactly when the signer sets overlap; on
    /// success the signer set is the union and the aggregate the sum.
    pub fn add_multisig(&mut self, other: &MultiSignature) -> (r: Result<(), MultiSigError>)
        requires
            old(self).wf(),
            other.wf(),
        ensures
            final(self).wf(),
            old(self).signers_set().disjoint(other.signers_set()) ==> {
                &&& r is Ok
                &&& final(self).signers_set() == old(self).signers_set() + other.signers_set()
                &&& final(self).parts() == old(self).parts() + other.parts()
            },
            !old(self).signers_set().disjoint(other.signers_set()) ==> {
                &&& final(self).signers_set() == old(self).signers_set()
                &&& final(self).parts() == old(self).parts()
                &&& match r {
                    Err(MultiSigError::Overlapping(o)) => bits_of(o) == old(
                        self).signers_set().intersect(other.signers_set()),
                    _ => false,
                }
            },
    {
        let overlap = bitset_intersection(&self.signers, &other.signers);
        proof {
            if old(self).signers_set().disjoint(other.signers_set()) {
                assert(bits_of(overlap) =~= Set::<int>::empty());
            } else {
                let w = choose|w: int|
                    old(self).signers_set().contains(w) && other.signers_set().contains(w);
                assert(bits_of(overlap).contains(w));
            }
        }
        if bitset_is_empty(&overlap) {
            self.signature.merge_into(&other.signature);
            let merged = bitset_union(&self.signers, &other.signers);
            self.signers = merged;
            Ok(())
        } else {
            Err(MultiSigError::Overlapping(overlap))
        }
    }

    /// Adds one individual signature. Fails, leaving this one
    /// unchanged, exactly when the signer is already contained.
    pub fn add_individual(&mut self, other: &Signature, peer_id: usize) -> (r: Result<
        (),
        MultiSigError,
    >)
        requires
            old(self).wf(),
            peer_id <= 0xffff,
        ensures
            final(self).wf(),
            old(self).signers_set().contains(peer_id as int) ==> {
                &&& final(self).mview() == old(self).mview()
                &&& r == Err::<(), MultiSigError>(MultiSigError::Contained(peer_id))
            },
            !old(self).signers_set().contains(peer_id as int) ==> {
                &&& r is Ok
                &&& final(self).signers_set() == old(self).signers_set().insert(peer_id as int)
                &&& final(self).parts() == old(self).parts().push(other.bytes@)
            },
    {
        if bitset_contains(&self.signers, peer_id) {
            Err(MultiSigError::Contained(peer_id))
        } else {
            self.signature.aggregate(other);
            bitset_insert(&mut self.signers, peer_id);
            Ok(())
        }
    }
}

/// One step of the combining fold: merge `m` into `acc` if the signer
/// sets are disjoint, else keep `acc`.
pub open spec fn combine_step(acc: MultiSigView, m: MultiSigView) -> MultiSigView {
    if acc.signers.disjoint(m.signers) {
        MultiSigView { parts: acc.parts + m.parts, signers: acc.signers + m.signers }
    } else {
        acc
    }
}

/// The combining fold over a non-empty sequence, starting from its
/// first element.
pub open spec fn combine_fold(s: Seq<MultiSigView>) -> MultiSigView
    decreases s.len(),
{
    if s.len() <= 1 {
        s[0]
    } else {
        combine_step(combine_fold(s.drop_last()), s.last())
    }
}

/// The views of a sequence of multi-signatures.
pub open spec fn views_of(s: Seq<MultiSignature>) -> Seq<MultiSigView> {
    s.map_values(|m: MultiSignature| m.mview())
}

impl Clone for MultiSignature {
    fn clone(&self) -> (r: Self)
        ensures
            r.mview() == self.mview(),
            self.wf() ==> r.wf(),
    {
        MultiSignature {
            signature: self.signature.clone(),
            signers: bitset_clone(&self.signers),
        }
    }
}

} // verus!
