//! Verification of individual and multi-signatures against the
//! identity roster.

use vstd::prelude::*;

verus! {

use crate::bls::{Signature, sign_of, signature_of_key, seq_bytes};
use crate::bitset::{bits_of, bitset_contains, bitset_elements, lemma_elements_complete};
use crate::multisig::MultiSignature;
use crate::identity::{Identity, IdentityRegistry};

/// The outcome of a verification.
#[derive(Clone, Debug, PartialEq, Eq, Structural)]
pub enum VerifyResult {
    /// The signature verifies; `votes` is the weight it carries.
    Valid { votes: usize },
    /// A claimed signer is not in the roster.
    UnknownSigner { signer: usize },
    /// The signature does not verify.
    InvalidSignature,
    /// The weight stays below the required threshold.
    ThresholdNotReached { votes: usize, threshold: usize },
}

/// The total weight of the roster entries whose id is in `s`.
pub open spec fn spec_set_weight(entries: Seq<Identity>, s: Set<int>) -> nat
    decreases entries.len(),
{
    if entries.len() == 0 {
        0
    } else {
        spec_set_weight(entries.drop_last(), s) + if s.contains(entries.last().id as int) {
            entries.last().weight as nat
        } else {
            0
        }
    }
}

/// The signatures the roster's keys produce on `hash`, for the entries
/// whose id is in `s`, in roster order.
pub open spec fn spec_expected_sigs(entries: Seq<Identity>, s: Set<int>, hash: Seq<u8>) -> Seq<
    Seq<u8>,
>
    decreases entries.len(),
{
    if entries.len() == 0 {
        Seq::empty()
    } else {
        spec_expected_sigs(entries.drop_last(), s, hash) + if s.contains(
            entries.last().id as int) {
            seq![sign_of(entries.last().public_key.bytes@, hash)]
        } else {
            Seq::empty()
        }
    }
}

/// Whether some signer in `s` is missing from the roster.
pub open spec fn spec_has_unknown(reg: IdentityRegistry, s: Set<int>) -> bool {
    exists|v: int| s.contains(v) && !reg.spec_has_id(v)
}

/// Checks signatures against the roster's keys and the configured
/// message hash, and counts their weight.
#[derive(Debug)]
pub struct StrictVerifier {
    pub threshold: usize,
    pub message_hash: Vec<u8>,
    pub identities: IdentityRegistry,
}

impl StrictVerifier {
    pub fn new(threshold: usize, message_hash: Vec<u8>, identities: IdentityRegistry) -> (r:
        StrictVerifier)
        ensures
            r.threshold == threshold,
            r.message_hash@ == message_hash@,
            r.identities == identities,
    {
        StrictVerifier { threshold, message_hash, identities }
    }

    /// Verifies one individual signature: the id must be in the
    /// roster and the signature must be the one its key produces on
    /// the message hash; the weight returned is the signer's.
    pub fn verify_individual(&self, signature: &Signature, signer: usize) -> (r: VerifyResult)
        requires
            self.identities.wf(),
        ensures
            ({
                let reg = self.identities;
                if !reg.spec_has_id(signer as int) {
                    r == (VerifyResult::UnknownSigner { signer })
                } else if signature.bytes@ == sign_of(
                    reg.identities@[reg.spec_index_of(signer as int)].public_key.bytes@,
                    self.message_hash@,
                ) {
                    r == (VerifyResult::Valid {
                        votes: reg.identities@[reg.spec_index_of(signer as int)].weight,
                    })
                } else {
                    r == VerifyResult::InvalidSignature
                }
            }),
    {
        match self.identities.get_by_id(signer) {
            Some(identity) => {
                if identity.public_key.verify_hash(&self.message_hash, signature) {
                    VerifyResult::Valid { votes: identity.weight }
                } else {
                    VerifyResult::InvalidSignature
                }
            },
            None => VerifyResult::UnknownSigner { signer },
        }
    }

    /// Verifies a multi-signature: every claimed signer must be in the
    /// roster; their weights are summed; optionally the threshold is
    /// checked; and the aggregate must be exactly the fold of the
    /// signers' signatures on the message hash.
    pub fn verify_multisig(&self, signature: &MultiSignature, check_threshold: bool) -> (r:
        VerifyResult)
        requires
            self.identities.wf(),
            signature.wf(),
        ensures
            ({
                let s = signature.signers_set();
                let reg = self.identities;
                let votes = spec_set_weight(reg.identities@, s);
                if spec_has_unknown(reg, s) {
                    r matches VerifyResult::UnknownSigner { signer } && s.contains(signer as int)
                        && !reg.spec_has_id(signer as int)
                } else if check_threshold && votes < self.threshold {
                    r == (VerifyResult::ThresholdNotReached { votes: votes as usize,
                        threshold: self.threshold })
                } else if signature.signature.parts_ms() == spec_expected_sigs(
                    reg.identities@, s, self.message_hash@).to_multiset() {
                    r == (VerifyResult::Valid { votes: votes as usize })
                } else {
                    r == VerifyResult::InvalidSignature
                }
            }),
    {
        let ghost s = signature.signers_set();
        let ghost reg = self.identities;
        // every claimed signer must be in the roster
        let ids = bitset_elements(&signature.signers);
        proof {
            lemma_elements_complete(s, ids@);
        }
        let mut i: usize = 0;
        while i < ids.len()
            invariant
                0 <= i <= ids@.len(),
                self.identities.wf(),
                reg == self.identities,
                s == signature.signers_set(),
                forall|k: int| 0 <= k < ids@.len() ==> s.contains(#[trigger] ids@[k] as int),
                forall|v: int|
                    #[trigger] s.contains(v) <==> (0 <= v <= usize::MAX && ids@.contains(
                        v as usize)),
                forall|k: int| 0 <= k < i ==> reg.spec_has_id(#[trigger] ids@[k] as int),
            decreases ids@.len() - i,
        {
            let id = ids[i];
            match self.identities.get_by_id(id) {
                Some(_) => {},
                None => {
                    proof {
                        assert(s.contains(id as int));
                        assert(spec_has_unknown(reg, s));
                    }
                    return VerifyResult::UnknownSigner { signer: id };
                },
            }
            i = i + 1;
        }
        proof {
            assert(!spec_has_unknown(reg, s)) by {
                if spec_has_unknown(reg, s) {
                    let v = choose|v: int| s.contains(v) && !reg.spec_has_id(v);
                    let k = choose|k: int| 0 <= k < ids@.len() && ids@[k] == v as usize;
                    assert(reg.spec_has_id(ids@[k] as int));
                }
            }
        }
        proof {
            self.identities.lemma_registry_len();
        }
        // sum the weights and build the expected aggregate
        let mut votes: usize = 0;
        let mut expected: Vec<Signature> = Vec::new();
        let mut j: usize = 0;
        while j < self.identities.identities.len()
            invariant
                0 <= j <= self.identities.identities@.len(),
                self.identities.wf(),
                reg == self.identities,
                s == signature.signers_set(),
                signature.wf(),
                self.identities.identities@.len() <= 0x10000,
                votes == spec_set_weight(reg.identities@.take(j as int), s),
                votes <= j * 0x8000,
                j <= 0x10000,
                seq_bytes(expected@) == spec_expected_sigs(reg.identities@.take(j as int), s,
                    self.message_hash@),
            decreases self.identities.identities@.len() - j,
        {
            let ident = &self.identities.identities[j];
            let ghost pre_votes = votes;
            let ghost pre_exp = expected@;
            proof {
                assert(reg.identities@[j as int].wf());
                assert(votes + ident.weight <= (j + 1) * 0x8000) by (nonlinear_arith)
                    requires
                        votes <= j * 0x8000,
                        ident.weight <= 0x7fff,
                ;
                assert((j + 1) * 0x8000 <= 0x10001 * 0x8000) by (nonlinear_arith)
                    requires
                        j <= 0x10000,
                ;
            }
            if bitset_contains(&signature.signers, ident.id) {
                votes = votes + ident.weight;
                expected.push(signature_of_key(&ident.public_key.bytes, &self.message_hash));
            }
            proof {
                let t = reg.identities@.take(j as int + 1);
                assert(t.drop_last() =~= reg.identities@.take(j as int));
                assert(t.last() == reg.identities@[j as int]);
                assert(seq_bytes(expected@) =~= spec_expected_sigs(t, s, self.message_hash@));
            }
            j = j + 1;
        }
        proof {
            assert(reg.identities@.take(reg.identities@.len() as int) =~= reg.identities@);
        }
        if check_threshold && votes < self.threshold {
            return VerifyResult::ThresholdNotReached { votes, threshold: self.threshold };
        }
        if signature.signature.matches_parts(&expected) {
            VerifyResult::Valid { votes }
        } else {
            VerifyResult::InvalidSignature
        }
    }
}

/// The total weight the roster assigns to a set of signers.
pub fn weight_of_signers(reg: &IdentityRegistry, signers: &nimiq_collections::BitSet) -> (r:
    usize)
    requires
        reg.wf(),
    ensures
        r == spec_set_weight(reg.identities@, bits_of(*signers)),
{
    proof {
        reg.lemma_registry_len();
    }
    let ghost s = bits_of(*signers);
    let mut votes: usize = 0;
    let mut j: usize = 0;
    while j < reg.identities.len()
        invariant
            0 <= j <= reg.identities@.len(),
            reg.identities@.len() <= 0x10000,
            reg.wf(),
            s == bits_of(*signers),
            votes == spec_set_weight(reg.identities@.take(j as int), s),
            votes <= j * 0x8000,
            j <= 0x10000,
        decreases reg.identities@.len() - j,
    {
        let ident = &reg.identities[j];
        proof {
            assert(reg.identities@[j as int].wf());
            assert(votes + ident.weight <= (j + 1) * 0x8000) by (nonlinear_arith)
                requires
                    votes <= j * 0x8000,
                    ident.weight <= 0x7fff,
            ;
            assert((j + 1) * 0x8000 <= 0x10001 * 0x8000) by (nonlinear_arith)
                requires
                    j <= 0x10000,
            ;
        }
        if bitset_contains(signers, ident.id) {
            votes = votes + ident.weight;
        }
        proof {
            let t = reg.identities@.take(j as int + 1);
            assert(t.drop_last() =~= reg.identities@.take(j as int));
            assert(t.last() == reg.identities@[j as int]);
        }
        j = j + 1;
    }
    proof {
        assert(reg.identities@.take(reg.identities@.len() as int) =~= reg.identities@);
    }
    votes
}

/// Accepts every signature; only sums weights against the roster.
#[derive(Debug)]
pub struct DummyVerifier {
    pub threshold: usize,
    pub identities: IdentityRegistry,
}

impl DummyVerifier {
    pub fn new(threshold: usize, identities: IdentityRegistry) -> (r: DummyVerifier)
        ensures
            r.threshold == threshold,
            r.identities == identities,
    {
        DummyVerifier { threshold, identities }
    }

    /// Trusts every individual signature and counts it as one vote.
    pub fn verify_individual(&self, signature: &Signature, signer: usize) -> (r: VerifyResult)
        ensures
            r == (VerifyResult::Valid { votes: 1 }),
    {
        let _ = signature;
        let _ = signer;
        VerifyResult::Valid { votes: 1 }
    }

    /// Sums the weights of the claimed signers; rejects only an
    /// unknown signer or, when asked, a weight below the threshold.
    pub fn verify_multisig(&self, signature: &MultiSignature, check_threshold: bool) -> (r:
        VerifyResult)
        requires
            self.identities.wf(),
            signature.wf(),
        ensures
            ({
                let s = signature.signers_set();
                let reg = self.identities;
                let votes = spec_set_weight(reg.identities@, s);
                if spec_has_unknown(reg, s) {
                    r matches VerifyResult::UnknownSigner { signer } && s.contains(signer as int)
                        && !reg.spec_has_id(signer as int)
                } else if check_threshold && votes < self.threshold {
                    r == (VerifyResult::ThresholdNotReached { votes: votes as usize,
                        threshold: self.threshold })
                } else {
                    r == (VerifyResult::Valid { votes: votes as usize })
                }
            }),
    {
        let ghost s = signature.signers_set();
        let ghost reg = self.identities;
        let ids = bitset_elements(&signature.signers);
        proof {
            lemma_elements_complete(s, ids@);
        }
        let mut i: usize = 0;
        while i < ids.len()
            invariant
                0 <= i <= ids@.len(),
                self.identities.wf(),
                reg == self.identities,
                s == signature.signers_set(),
                forall|k: int| 0 <= k < ids@.len() ==> s.contains(#[trigger] ids@[k] as int),
                forall|v: int|
                    #[trigger] s.contains(v) <==> (0 <= v <= usize::MAX && ids@.contains(
                        v as usize)),
                forall|k: int| 0 <= k < i ==> reg.spec_has_id(#[trigger] ids@[k] as int),
            decreases ids@.len() - i,
        {
            let id = ids[i];
            match self.identities.get_by_id(id) {
                Some(_) => {},
                None => {
                    proof {
                        assert(s.contains(id as int));
                        assert(spec_has_unknown(reg, s));
                    }
                    return VerifyResult::UnknownSigner { signer: id };
                },
            }
            i = i + 1;
        }
        proof {
            assert(!spec_has_unknown(reg, s)) by {
                if spec_has_unknown(reg, s) {
                    let v = choose|v: int| s.contains(v) && !reg.spec_has_id(v);
                    let k = choose|k: int| 0 <= k < ids@.len() && ids@[k] == v as usize;
                    assert(reg.spec_has_id(ids@[k] as int));
                }
            }
        }
        proof {
            self.identities.lemma_registry_len();
        }
        let mut votes: usize = 0;
        let mut j: usize = 0;
        while j < self.identities.identities.len()
            invariant
                0 <= j <= self.identities.identities@.len(),
                self.identities.identities@.len() <= 0x10000,
                self.identities.wf(),
                reg == self.identities,
                s == signature.signers_set(),
                votes == spec_set_weight(reg.identities@.take(j as int), s),
                votes <= j * 0x8000,
                j <= 0x10000,
            decreases self.identities.identities@.len() - j,
        {
            let ident = &self.identities.identities[j];
            proof {
                assert(reg.identities@[j as int].wf());
                assert(votes + ident.weight <= (j + 1) * 0x8000) by (nonlinear_arith)
                    requires
                        votes <= j * 0x8000,
                        ident.weight <= 0x7fff,
                ;
                assert((j + 1) * 0x8000 <= 0x10001 * 0x8000) by (nonlinear_arith)
                    requires
                        j <= 0x10000,
                ;
            }
            if bitset_contains(&signature.signers, ident.id) {
                votes = votes + ident.weight;
            }
            proof {
                let t = reg.identities@.take(j as int + 1);
                assert(t.drop_last() =~= reg.identities@.take(j as int));
                assert(t.last() == reg.identities@[j as int]);
            }
            j = j + 1;
        }
        proof {
            assert(reg.identities@.take(reg.identities@.len() as int) =~= reg.identities@);
        }
        if check_threshold && votes < self.threshold {
            return VerifyResult::ThresholdNotReached { votes, threshold: self.threshold };
        }
        VerifyResult::Valid { votes }
    }
}

} // verus!
