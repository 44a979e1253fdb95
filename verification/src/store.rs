//! The replace-policy signature store: per level, the best
//! multi-signature seen so far, the verified individual signatures, and
//! the scoring that decides which pending signature is worth applying
//! next.

use vstd::prelude::*;

verus! {

use nimiq_collections::BitSet;
use crate::bitset::{
    bits_of, bitset_wf, new_bitset, bitset_len, bitset_insert, bitset_union,
    bitset_intersection, bitset_xor, bitset_is_superset, bitset_intersection_size,
    bitset_elements, lemma_bounded_set_len, lemma_elements_complete,
};
use crate::bls::Signature;
use crate::multisig::{MultiSignature, MultiSigView, combine_fold, combine_step, views_of};
use crate::partitioner::BinomialPartitioner;

/// No two entries share a key.
pub open spec fn keys_unique(s: Seq<(usize, Signature)>) -> bool {
    forall|i: int, j: int| 0 <= i < j < s.len() ==> (#[trigger] s[i]).0 != (#[trigger] s[j]).0
}

/// Some entry has this key.
pub open spec fn has_key(s: Seq<(usize, Signature)>, id: int) -> bool {
    exists|i: int| 0 <= i < s.len() && (#[trigger] s[i]).0 == id
}

/// The bytes stored under a key.
pub open spec fn value_bytes(s: Seq<(usize, Signature)>, id: int) -> Seq<u8> {
    let i = choose|i: int| 0 <= i < s.len() && (#[trigger] s[i]).0 == id;
    s[i].1.bytes@
}

/// Looks a signature up by id.
fn assoc_get(s: &Vec<(usize, Signature)>, id: usize) -> (r: Option<Signature>)
    requires
        keys_unique(s@),
    ensures
        match r {
            Some(sig) => has_key(s@, id as int) && sig.bytes@ == value_bytes(s@, id as int),
            None => !has_key(s@, id as int),
        },
{
    let mut i: usize = 0;
    while i < s.len()
        invariant
            0 <= i <= s@.len(),
            keys_unique(s@),
            forall|k: int| 0 <= k < i ==> (#[trigger] s@[k]).0 != id,
        decreases s@.len() - i,
    {
        if s[i].0 == id {
            return Some(s[i].1.clone());
        }
        i = i + 1;
    }
    None
}

/// Whether a signature is stored under this id.
fn assoc_contains(s: &Vec<(usize, Signature)>, id: usize) -> (r: bool)
    ensures
        r == has_key(s@, id as int),
{
    let mut i: usize = 0;
    while i < s.len()
        invariant
            0 <= i <= s@.len(),
            forall|k: int| 0 <= k < i ==> (#[trigger] s@[k]).0 != id,
        decreases s@.len() - i,
    {
        if s[i].0 == id {
            return true;
        }
        i = i + 1;
    }
    false
}

/// Stores a signature under an id, replacing what was there.
fn assoc_insert(s: &mut Vec<(usize, Signature)>, id: usize, sig: Signature)
    requires
        keys_unique(old(s)@),
    ensures
        keys_unique(final(s)@),
        has_key(final(s)@, id as int),
        value_bytes(final(s)@, id as int) == sig.bytes@,
        forall|x: int| x != id ==> has_key(final(s)@, x) == has_key(old(s)@, x),
        forall|x: int|
            x != id && has_key(old(s)@, x) ==> value_bytes(final(s)@, x) == value_bytes(
                old(s)@, x),
{
    let ghost pre = s@;
    let mut i: usize = 0;
    while i < s.len()
        invariant
            0 <= i <= s@.len(),
            s@ == pre,
            pre == old(s)@,
            keys_unique(pre),
            forall|k: int| 0 <= k < i ==> (#[trigger] pre[k]).0 != id,
        decreases s@.len() - i,
    {
        if s[i].0 == id {
            let _old = s.remove(i);
            s.insert(i, (id, sig));
            proof {
                assert(s@.len() == pre.len());
                assert(forall|k: int| 0 <= k < pre.len() && k != i ==> s@[k] == pre[k]);
                assert(s@[i as int].0 == id);
                assert forall|x: int| x != id implies has_key(s@, x) == has_key(pre, x) by {
                    if has_key(pre, x) {
                        let k = choose|k: int| 0 <= k < pre.len() && (#[trigger] pre[k]).0 == x;
                        assert(s@[k] == pre[k]);
                        assert(has_key(s@, x));
                    }
                    if has_key(s@, x) {
                        let k = choose|k: int| 0 <= k < s@.len() && (#[trigger] s@[k]).0 == x;
                        assert(pre[k] == s@[k]);
                        assert(has_key(pre, x));
                    }
                }
                assert forall|x: int| x != id && has_key(pre, x) implies value_bytes(s@, x)
                    == value_bytes(pre, x) by {
                    let k = choose|k: int| 0 <= k < pre.len() && (#[trigger] pre[k]).0 == x;
                    assert(s@[k] == pre[k]);
                    assert(has_key(s@, x));
                    let k2 = choose|k2: int| 0 <= k2 < s@.len() && (#[trigger] s@[k2]).0 == x;
                    if k2 != k {
                        assert(s@[k2].0 == s@[k].0);
                        if k2 != i && k != i {
                            assert(pre[k2].0 == pre[k].0);
                        }
                    }
                }
            }
            return ;
        }
        i = i + 1;
    }
    s.push((id, sig));
    proof {
        assert(forall|k: int| 0 <= k < pre.len() ==> s@[k] == pre[k]);
        assert(s@[pre.len() as int].0 == id);
        assert forall|x: int| x != id implies has_key(s@, x) == has_key(pre, x) by {
            if has_key(pre, x) {
                let k = choose|k: int| 0 <= k < pre.len() && (#[trigger] pre[k]).0 == x;
                assert(s@[k] == pre[k]);
                assert(has_key(s@, x));
            }
            if has_key(s@, x) {
                let k = choose|k: int| 0 <= k < s@.len() && (#[trigger] s@[k]).0 == x;
                assert(k < pre.len());
                assert(pre[k] == s@[k]);
                assert(has_key(pre, x));
            }
        }
        assert forall|x: int| x != id && has_key(pre, x) implies value_bytes(s@, x) == value_bytes(
            pre, x) by {
            let k = choose|k: int| 0 <= k < pre.len() && (#[trigger] pre[k]).0 == x;
            assert(s@[k] == pre[k]);
            assert(has_key(s@, x));
            let k2 = choose|k2: int| 0 <= k2 < s@.len() && (#[trigger] s@[k2]).0 == x;
            if k2 != k {
                assert(s@[k2].0 == s@[k].0);
            }
        }
    }
}

/// The per-level "replace" signature store.
pub struct ReplaceStore {
    pub partitioner: BinomialPartitioner,
    pub best_level: usize,
    /// Ids of all individual signatures received, kept for bookkeeping.
    pub individual_received: BitSet,
    /// Per level, the ids whose individual signatures were verified.
    pub individual_verified: Vec<BitSet>,
    /// Per level, the verified individual signatures by id.
    pub individual_signatures: Vec<Vec<(usize, Signature)>>,
    /// Per level, the best multi-signature so far.
    pub multisig_best: Vec<Option<MultiSignature>>,
}

impl ReplaceStore {
    /// The number of levels.
    pub open spec fn num_levels(self) -> nat {
        self.partitioner.num_levels as nat
    }

    /// The partitioner the store was built over.
    pub open spec fn spec_partitioner(self) -> BinomialPartitioner {
        self.partitioner
    }

    /// The best multi-signature at a level.
    pub open spec fn best_at(self, l: nat) -> Option<MultiSignature> {
        self.multisig_best@[l as int]
    }

    /// Whether a level has a best multi-signature.
    pub open spec fn present(self, l: nat) -> bool {
        self.best_at(l) is Some
    }

    /// The signer set of the best multi-signature at a level, empty if
    /// none.
    pub open spec fn best_signers(self, l: nat) -> Set<int> {
        match self.best_at(l) {
            Some(b) => b.signers_set(),
            None => Set::empty(),
        }
    }

    /// The ids verified individually at a level.
    pub open spec fn verified_at(self, l: nat) -> Set<int> {
        bits_of(self.individual_verified@[l as int])
    }

    /// The stored individual signatures at a level.
    pub open spec fn sigs_at(self, l: nat) -> Seq<(usize, Signature)> {
        self.individual_signatures@[l as int]@
    }

    /// The recorded best level.
    pub open spec fn spec_best_level(self) -> nat {
        self.best_level as nat
    }

    /// Every element of `s` is an id of level `l`.
    pub open spec fn set_in_level(self, s: Set<int>, l: nat) -> bool {
        forall|v: int|
            #[trigger] s.contains(v) ==> 0 <= v <= 0xffff && self.partitioner.in_range(
                v as usize, l)
    }

    /// The invariant of one level: bitsets well-formed and within the
    /// level's id range, and the signature map keyed exactly by the
    /// verified ids.
    pub open spec fn level_inv(self, l: nat) -> bool {
        &&& bitset_wf(self.individual_verified@[l as int])
        &&& self.set_in_level(self.verified_at(l), l)
        &&& match self.best_at(l) {
            Some(b) => b.wf() && self.set_in_level(b.signers_set(), l),
            None => true,
        }
        &&& keys_unique(self.sigs_at(l))
        &&& forall|id: int| has_key(self.sigs_at(l), id) <==> self.verified_at(l).contains(id)
    }

    /// The store invariant.
    pub open spec fn inv(self) -> bool {
        &&& self.partitioner.wf()
        &&& self.multisig_best@.len() == self.num_levels()
        &&& self.individual_verified@.len() == self.num_levels()
        &&& self.individual_signatures@.len() == self.num_levels()
        &&& self.best_level < self.num_levels()
        &&& forall|l: nat| l < self.num_levels() ==> self.level_inv(l)
    }

    pub fn new(partitioner: BinomialPartitioner) -> (r: ReplaceStore)
        requires
            partitioner.wf(),
        ensures
            r.inv(),
            r.spec_partitioner() == partitioner,
            forall|l: nat| l < r.num_levels() ==> !r.present(l),
            forall|l: nat| l < r.num_levels() ==> r.verified_at(l) == Set::<int>::empty(),
            r.spec_best_level() == 0,
    {
        let n = partitioner.num_levels;
        let mut individual_verified: Vec<BitSet> = Vec::new();
        let mut individual_signatures: Vec<Vec<(usize, Signature)>> = Vec::new();
        let mut multisig_best: Vec<Option<MultiSignature>> = Vec::new();
        let mut i: usize = 0;
        while i < n
            invariant
                0 <= i <= n,
                individual_verified@.len() == i,
                individual_signatures@.len() == i,
                multisig_best@.len() == i,
                forall|k: int|
                    0 <= k < i ==> bits_of(#[trigger] individual_verified@[k]) == Set::<
                        int,
                    >::empty(),
                forall|k: int| 0 <= k < i ==> (#[trigger] individual_signatures@[k])@.len() == 0,
                forall|k: int| 0 <= k < i ==> (#[trigger] multisig_best@[k]) is None,
            decreases n - i,
        {
            individual_verified.push(new_bitset());
            individual_signatures.push(Vec::new());
            multisig_best.push(None);
            i = i + 1;
        }
        ReplaceStore {
            partitioner,
            best_level: 0,
            individual_received: new_bitset(),
            individual_verified,
            individual_signatures,
            multisig_best,
        }
    }

    /// The number of signatures a level is waiting for.
    pub open spec fn spec_to_receive(self, l: nat) -> nat {
        self.partitioner.spec_size(l)
    }

    /// The score of the branchless tail of the evaluation: how valuable
    /// applying a candidate would be given what it adds.
    pub open spec fn spec_score(
        l: nat,
        to_receive: int,
        new_total: int,
        added: int,
        combined: int,
        c_len: int,
    ) -> int {
        if added == 0 {
            if c_len == 1 {
                1
            } else {
                0
            }
        } else if new_total == to_receive {
            1000000 - l * 10 - combined
        } else {
            100000 - l * 100 + added * 10 - combined
        }
    }

    /// The score of a candidate signer set at a level, against the
    /// current best and the verified individuals.
    pub open spec fn spec_evaluate(self, c: Set<int>, l: nat) -> int {
        let to_receive = self.spec_to_receive(l) as int;
        let with_i = c.union(self.verified_at(l));
        match self.best_at(l) {
            Some(b) => {
                let bs = b.signers_set();
                if bs.len() == to_receive {
                    0
                } else if c.subset_of(bs) {
                    0
                } else if c.intersect(bs).len() > 0 {
                    let new_total = with_i.len() as int;
                    let added = if new_total >= bs.len() {
                        new_total - bs.len()
                    } else {
                        0
                    };
                    Self::spec_score(l, to_receive, new_total, added, new_total - c.len(),
                        c.len() as int)
                } else {
                    let fin = with_i.union(bs);
                    let new_total = fin.len() as int;
                    let added = new_total - bs.len();
                    let combined = fin.difference(bs.union(c)).len() as int;
                    Self::spec_score(l, to_receive, new_total, added, combined, c.len() as int)
                }
            },
            None => {
                let new_total = with_i.len() as int;
                Self::spec_score(l, to_receive, new_total, new_total, new_total - c.len(),
                    c.len() as int)
            },
        }
    }

    /// Scores a multi-signature candidate for a level; 0 means it is
    /// not worth applying.
    pub fn evaluate_multisig(&self, multisig: &MultiSignature, level: usize, votes: usize) -> (r:
        usize)
        requires
            self.inv(),
            multisig.wf(),
            level < self.num_levels(),
        ensures
            r == self.spec_evaluate(multisig.signers_set(), level as nat),
    {
        let _ = votes;
        let ghost c = multisig.signers_set();
        let ghost l = level as nat;
        proof {
            assert(self.level_inv(l));
            self.partitioner.lemma_levels_bound();
            lemma_bounded_set_len(c);
            lemma_bounded_set_len(self.verified_at(l));
        }
        let to_receive = self.partitioner.size(level);
        proof {
            self.partitioner.lemma_size_bounded(l);
            assert(to_receive <= 0x10000);
        }
        let with_individuals = bitset_union(&multisig.signers, &self.individual_verified[level]);
        proof {
            lemma_bounded_set_len(bits_of(with_individuals));
            vstd::set_lib::lemma_len_subset(c, bits_of(with_individuals));
        }
        match &self.multisig_best[level] {
            Some(best_signature) => {
                let ghost bs = best_signature.signers_set();
                proof {
                    lemma_bounded_set_len(bs);
                }
                let best_len = best_signature.len();
                if to_receive == best_len {
                    return 0;
                }
                if bitset_is_superset(&best_signature.signers, &multisig.signers) {
                    return 0;
                }
                let mlen = multisig.len();
                if bitset_intersection_size(&multisig.signers, &best_signature.signers) > 0 {
                    let new_total = bitset_len(&with_individuals);
                    let added = if new_total >= best_len {
                        new_total - best_len
                    } else {
                        0
                    };
                    let combined = new_total - mlen;
                    Self::score(level, to_receive, new_total, added, combined, mlen)
                } else {
                    let final_sig = bitset_union(&with_individuals, &best_signature.signers);
                    proof {
                        lemma_bounded_set_len(bits_of(final_sig));
                        vstd::set_lib::lemma_len_subset(bs, bits_of(final_sig));
                    }
                    let new_total = bitset_len(&final_sig);
                    let added = new_total - best_len;
                    let bc = bitset_union(&best_signature.signers, &multisig.signers);
                    let x = bitset_xor(&final_sig, &bc);
                    proof {
                        assert(bits_of(bc).subset_of(bits_of(final_sig)));
                        assert(bits_of(x) =~= bits_of(final_sig).difference(bs.union(c)));
                        lemma_bounded_set_len(bits_of(x));
                        vstd::set_lib::lemma_len_subset(bits_of(x), bits_of(final_sig));
                    }
                    let combined = bitset_len(&x);
                    Self::score(level, to_receive, new_total, added, combined, mlen)
                }
            },
            None => {
                let mlen = multisig.len();
                let new_total = bitset_len(&with_individuals);
                let combined = new_total - mlen;
                Self::score(level, to_receive, new_total, new_total, combined, mlen)
            },
        }
    }

    /// The branchless tail of the evaluation.
    fn score(level: usize, to_receive: usize, new_total: usize, added: usize, combined: usize,
        c_len: usize) -> (r: usize)
        requires
            level <= 16,
            to_receive <= 0x10000,
            new_total <= 0x10000,
            added <= 0x10000,
            combined <= new_total,
        ensures
            r == Self::spec_score(level as nat, to_receive as int, new_total as int, added as int,
                combined as int, c_len as int),
    {
        if added == 0 {
            if c_len == 1 {
                1
            } else {
                0
            }
        } else if new_total == to_receive {
            1000000 - level * 10 - combined
        } else {
            (100000 + added * 10) - level * 100 - combined
        }
    }

    /// Scores an individual signature: 0 when the id's signature is
    /// already stored, else the score of its singleton multi-signature.
    pub fn evaluate_individual(&self, individual: &Signature, level: usize, peer_id: usize) -> (r:
        usize)
        requires
            self.inv(),
            level < self.num_levels(),
            peer_id <= 0xffff,
        ensures
            r == self.spec_evaluate_individual(individual.bytes@, level as nat, peer_id as int),
    {
        if assoc_contains(&self.individual_signatures[level], peer_id) {
            0
        } else {
            let m = MultiSignature::from_individual(individual, peer_id);
            self.evaluate_multisig(&m, level, 1)
        }
    }

    /// The score of an individual signature.
    pub open spec fn spec_evaluate_individual(self, bytes: Seq<u8>, l: nat, id: int) -> int {
        if has_key(self.sigs_at(l), id) {
            0
        } else {
            self.spec_evaluate(Set::<int>::empty().insert(id), l)
        }
    }

    /// A candidate's signer set after the merge attempt with the
    /// current best: the union if they are disjoint, else the
    /// candidate alone.
    pub open spec fn spec_with_best(self, c: Set<int>, l: nat) -> Set<int> {
        match self.best_at(l) {
            Some(b) => if c.disjoint(b.signers_set()) {
                c + b.signers_set()
            } else {
                c
            },
            None => c,
        }
    }

    /// The signer set a candidate would put in place: the merge
    /// attempt's result joined with every verified individual.
    pub open spec fn spec_merged(self, c: Set<int>, l: nat) -> Set<int> {
        self.spec_with_best(c, l) + self.verified_at(l)
    }

    /// Whether that signer set replaces the current best: always when
    /// there is none, else only when strictly larger.
    pub open spec fn spec_accepts(self, c: Set<int>, l: nat) -> bool {
        match self.best_at(l) {
            Some(b) => self.spec_merged(c, l).len() > b.signers_set().len(),
            None => true,
        }
    }

    /// Whether every signer in the bitset belongs to the level.
    fn signers_in_level(&self, signers: &BitSet, level: usize) -> (r: bool)
        requires
            self.inv(),
            bitset_wf(*signers),
            level < self.num_levels(),
        ensures
            r == self.set_in_level(bits_of(*signers), level as nat),
    {
        let ghost l = level as nat;
        let bounds = self.partitioner.range(level);
        let (lo, hi) = match bounds {
            Ok(b) => b,
            Err(_) => {
                proof {
                    assert(false);
                }
                (0, 0)
            },
        };
        let ids = bitset_elements(signers);
        proof {
            lemma_elements_complete(bits_of(*signers), ids@);
        }
        let mut i: usize = 0;
        while i < ids.len()
            invariant
                0 <= i <= ids@.len(),
                l == level as nat,
                Some((lo, hi)) == self.partitioner.spec_range(l),
                forall|k: int| 0 <= k < ids@.len() ==> bits_of(*signers).contains(ids@[k] as int),
                forall|v: int|
                    #[trigger] bits_of(*signers).contains(v) ==> (0 <= v <= usize::MAX
                        && ids@.contains(v as usize)),
                forall|k: int| 0 <= k < i ==> lo <= #[trigger] ids@[k] <= hi,
            decreases ids@.len() - i,
        {
            let id = ids[i];
            if id < lo || id > hi {
                proof {
                    assert(bits_of(*signers).contains(id as int));
                    assert(!self.partitioner.in_range(id, l));
                }
                return false;
            }
            i = i + 1;
        }
        proof {
            assert forall|v: int| #[trigger] bits_of(*signers).contains(v) implies (0 <= v
                <= 0xffff && self.partitioner.in_range(v as usize, l)) by {
                let k = choose|k: int| 0 <= k < ids@.len() && ids@[k] == v as usize;
                assert(lo <= ids@[k] <= hi);
            }
        }
        true
    }

    /// Builds the multi-signature a candidate would put in place:
    /// merges the current best in when the signer sets are disjoint,
    /// folds in every verified individual signature not yet covered,
    /// and hands the result back only if it beats the current best.
    fn check_merge(&self, multisig: &MultiSignature, level: usize) -> (r: Option<MultiSignature>)
        requires
            self.inv(),
            multisig.wf(),
            level < self.num_levels(),
        ensures
            match r {
                Some(m) => {
                    &&& self.spec_accepts(multisig.signers_set(), level as nat)
                    &&& m.wf()
                    &&& m.signers_set() == self.spec_merged(multisig.signers_set(), level as nat)
                },
                None => !self.spec_accepts(multisig.signers_set(), level as nat),
            },
    {
        let ghost c = multisig.signers_set();
        let ghost l = level as nat;
        proof {
            assert(self.level_inv(l));
            lemma_bounded_set_len(c);
        }
        let mut m = multisig.clone();
        let mut has_best = false;
        let mut best_len: usize = 0;
        match &self.multisig_best[level] {
            Some(best) => {
                // A failed merge is ignored: the candidate stands alone.
                let _ = m.add_multisig(best);
                has_best = true;
                best_len = best.len();
            },
            None => {},
        }
        let ghost wb = m.signers_set();
        proof {
            assert(wb == self.spec_with_best(c, l));
            lemma_bounded_set_len(wb);
        }
        let iv = &self.individual_verified[level];
        let inter = bitset_intersection(&m.signers, iv);
        let complements = bitset_xor(&inter, iv);
        let ghost comp = bits_of(complements);
        proof {
            assert(comp =~= self.verified_at(l).difference(wb));
            lemma_bounded_set_len(comp);
            assert(wb.disjoint(comp));
            vstd::set_lib::lemma_set_disjoint_lens(wb, comp);
            assert(wb + comp =~= self.spec_merged(c, l));
        }
        if has_best {
            let cl = bitset_len(&complements);
            let ml = m.len();
            if cl + ml <= best_len {
                return None;
            }
        }
        let ids = bitset_elements(&complements);
        proof {
            lemma_elements_complete(comp, ids@);
        }
        let mut i: usize = 0;
        while i < ids.len()
            invariant
                0 <= i <= ids@.len(),
                self.inv(),
                self.level_inv(l),
                l == level as nat,
                level < self.num_levels(),
                comp == bits_of(complements),
                comp.finite(),
                wb.disjoint(comp),
                comp.subset_of(self.verified_at(l)),
                forall|k: int| 0 <= k < ids@.len() ==> comp.contains(#[trigger] ids@[k] as int),
                forall|k1: int, k2: int| 0 <= k1 < k2 < ids@.len() ==> ids@[k1] < ids@[k2],
                forall|v: int| comp.contains(v) ==> 0 <= v <= 0xffff,
                m.wf(),
                m.signers_set() == wb + ids_set(ids@.take(i as int)),
            decreases ids@.len() - i,
        {
            let id = ids[i];
            proof {
                assert(comp.contains(id as int));
                assert(comp.subset_of(self.verified_at(l)));
                assert(has_key(self.sigs_at(l), id as int));
            }
            match assoc_get(&self.individual_signatures[level], id) {
                Some(sig) => {
                    proof {
                        assert(!m.signers_set().contains(id as int)) by {
                            assert(!wb.contains(id as int));
                            if ids_set(ids@.take(i as int)).contains(id as int) {
                                lemma_ids_set_contains(ids@.take(i as int), id as int);
                                let q = choose|q: int|
                                    0 <= q < ids@.take(i as int).len() && (#[trigger] ids@.take(
                                        i as int)[q]) as int == id as int;
                                assert(ids@[q] == id);
                                assert(ids@[q] < ids@[i as int]);
                            }
                        }
                    }
                    let res = m.add_individual(&sig, id);
                    proof {
                        assert(res is Ok);
                        assert(ids@.take(i as int + 1) =~= ids@.take(i as int).push(id));
                        assert(ids@.take(i as int + 1).map_values(|u: usize| u as int)
                            =~= ids@.take(i as int).map_values(|u: usize| u as int).push(
                            id as int));
                        Seq::lemma_push_to_set_commute(
                            ids@.take(i as int).map_values(|u: usize| u as int), id as int);
                        assert(m.signers_set() =~= wb + ids_set(ids@.take(i as int + 1)));
                    }
                },
                None => {
                    proof {
                        assert(false);
                    }
                    return None;
                },
            }
            i = i + 1;
        }
        proof {
            assert(ids@.take(ids@.len() as int) =~= ids@);
            assert(ids_set(ids@) =~= comp) by {
                assert forall|v: int| ids_set(ids@).contains(v) implies comp.contains(v) by {
                    lemma_ids_set_contains(ids@, v);
                    let q = choose|q: int|
                        0 <= q < ids@.len() && (#[trigger] ids@[q]) as int == v;
                    assert(comp.contains(ids@[q] as int));
                }
                assert forall|v: int| comp.contains(v) implies ids_set(ids@).contains(v) by {
                    assert(ids@.contains(v as usize));
                    let q = choose|q: int| 0 <= q < ids@.len() && (#[trigger] ids@[q]) == v as usize;
                    assert(ids@[q] as int == v);
                    lemma_ids_set_contains(ids@, v);
                }
            }
            assert(m.signers_set() =~= self.spec_merged(c, l));
            if self.best_at(l) is Some {
                let b = self.best_at(l)->0;
                assert(self.spec_merged(c, l).len() == wb.len() + comp.len());
            }
        }
        Some(m)
    }
    /// Everything `put_multisig` guarantees, over the old and the new
    /// store, for a candidate signer set `c` aimed at level `l`.
    pub open spec fn put_multisig_post(pre: ReplaceStore, post: ReplaceStore, c: Set<int>, l: nat) -> bool {
        &&& post.inv()
        &&& post.spec_partitioner() == pre.spec_partitioner()
        &&& post.num_levels() == pre.num_levels()
        &&& forall|k: nat| k < pre.num_levels() ==> post.verified_at(k) == pre.verified_at(k)
        &&& forall|k: nat| k < pre.num_levels() ==> post.sigs_at(k) == pre.sigs_at(k)
        &&& forall|k: nat| k < pre.num_levels() && k != l ==> post.best_at(k) == pre.best_at(k)
        &&& if pre.set_in_level(c, l) && pre.spec_accepts(c, l) {
            &&& post.present(l)
            &&& post.best_signers(l) == pre.spec_merged(c, l)
            &&& post.spec_best_level() == if l > pre.spec_best_level() {
                l
            } else {
                pre.spec_best_level()
            }
        } else {
            &&& post.best_at(l) == pre.best_at(l)
            &&& post.spec_best_level() == pre.spec_best_level()
        }
    }

    /// Everything `put_individual` guarantees, over the old and the
    /// new store, for a signature with these bytes from `id` at `l`.
    pub open spec fn put_individual_post(
        pre: ReplaceStore,
        post: ReplaceStore,
        bytes: Seq<u8>,
        l: nat,
        id: int,
    ) -> bool {
        &&& post.inv()
        &&& post.spec_partitioner() == pre.spec_partitioner()
        &&& post.num_levels() == pre.num_levels()
        &&& forall|k: nat|
            k < pre.num_levels() && k != l ==> post.verified_at(k) == pre.verified_at(k)
        &&& forall|k: nat| k < pre.num_levels() && k != l ==> post.sigs_at(k) == pre.sigs_at(k)
        &&& forall|k: nat| k < pre.num_levels() && k != l ==> post.best_at(k) == pre.best_at(k)
        &&& if !pre.spec_partitioner().in_range(id as usize, l) || !(0 <= id <= 0xffff) {
            &&& post.verified_at(l) == pre.verified_at(l)
            &&& post.sigs_at(l) == pre.sigs_at(l)
            &&& post.best_at(l) == pre.best_at(l)
            &&& post.spec_best_level() == pre.spec_best_level()
        } else {
            let iv2 = pre.verified_at(l).insert(id);
            let wb2 = match pre.best_at(l) {
                Some(b) => if b.signers_set().contains(id) {
                    Set::<int>::empty().insert(id)
                } else {
                    Set::<int>::empty().insert(id) + b.signers_set()
                },
                None => Set::<int>::empty().insert(id),
            };
            let merged2 = wb2 + iv2;
            let accepts2 = match pre.best_at(l) {
                Some(b) => merged2.len() > b.signers_set().len(),
                None => true,
            };
            &&& post.verified_at(l) == iv2
            &&& has_key(post.sigs_at(l), id)
            &&& value_bytes(post.sigs_at(l), id) == bytes
            &&& forall|x: int|
                x != id ==> has_key(post.sigs_at(l), x) == has_key(pre.sigs_at(l), x)
            &&& if accepts2 {
                &&& post.present(l)
                &&& post.best_signers(l) == merged2
                &&& post.spec_best_level() == if l > pre.spec_best_level() {
                    l
                } else {
                    pre.spec_best_level()
                }
            } else {
                &&& post.best_at(l) == pre.best_at(l)
                &&& post.spec_best_level() == pre.spec_best_level()
            }
        }
    }

    /// Puts a multi-signature into the store: merges it with the
    /// current best and the verified individuals, and replaces the
    /// best exactly when the merge covers strictly more signers. A
    /// candidate with a signer outside the level is discarded whole.
    pub fn put_multisig(&mut self, multisig: MultiSignature, level: usize)
        requires
            old(self).inv(),
            multisig.wf(),
            level < old(self).num_levels(),
        ensures
            final(self).inv(),
            final(self).spec_partitioner() == old(self).spec_partitioner(),
            final(self).num_levels() == old(self).num_levels(),
            forall|k: nat|
                k < old(self).num_levels() ==> final(self).verified_at(k) == old(
                    self).verified_at(k),
            forall|k: nat|
                k < old(self).num_levels() ==> final(self).sigs_at(k) == old(self).sigs_at(k),
            forall|k: nat|
                k < old(self).num_levels() && k != level as nat ==> final(self).best_at(k) == old(
                    self).best_at(k),
            ({
                let c = multisig.signers_set();
                let l = level as nat;
                if old(self).set_in_level(c, l) && old(self).spec_accepts(c, l) {
                    &&& final(self).present(l)
                    &&& final(self).best_signers(l) == old(self).spec_merged(c, l)
                    &&& final(self).spec_best_level() == if level > old(self).best_level {
                        l
                    } else {
                        old(self).spec_best_level()
                    }
                } else {
                    &&& final(self).best_at(l) == old(self).best_at(l)
                    &&& final(self).spec_best_level() == old(self).spec_best_level()
                }
            }),
            Self::put_multisig_post(*old(self), *final(self), multisig.signers_set(),
                level as nat),
    {
        let ghost c = multisig.signers_set();
        let ghost l = level as nat;
        if !self.signers_in_level(&multisig.signers, level) {
            return ;
        }
        match self.check_merge(&multisig, level) {
            Some(best_multisig) => {
                proof {
                    assert(self.level_inv(l));
                    assert(self.set_in_level(best_multisig.signers_set(), l)) by {
                        assert forall|v: int|
                            #[trigger] best_multisig.signers_set().contains(v) implies (0 <= v
                            <= 0xffff && self.partitioner.in_range(v as usize, l)) by {
                            if self.spec_with_best(c, l).contains(v) {
                                if c.contains(v) {
                                } else {
                                    assert(self.best_signers(l).contains(v));
                                }
                            } else {
                                assert(self.verified_at(l).contains(v));
                            }
                        }
                    }
                }
                self.multisig_best[level] = Some(best_multisig);
                if level > self.best_level {
                    self.best_level = level;
                }
                proof {
                    assert forall|k: nat| k < self.num_levels() implies self.level_inv(k) by {
                        assert(old(self).level_inv(k));
                        if k != l {
                            assert(self.best_at(k) == old(self).best_at(k));
                        }
                    }
                    assert(self.inv());
                }
            },
            None => {},
        }
    }

    /// Records a verified individual signature: marks the id verified,
    /// stores the signature, then puts its singleton multi-signature.
    /// An id outside the level is discarded.
    pub fn put_individual(&mut self, individual: Signature, level: usize, peer_id: usize)
        requires
            old(self).inv(),
            level < old(self).num_levels(),
            peer_id <= 0xffff,
        ensures
            final(self).inv(),
            final(self).spec_partitioner() == old(self).spec_partitioner(),
            final(self).num_levels() == old(self).num_levels(),
            forall|k: nat|
                k < old(self).num_levels() && k != level as nat ==> final(self).verified_at(k)
                    == old(self).verified_at(k),
            forall|k: nat|
                k < old(self).num_levels() && k != level as nat ==> final(self).sigs_at(k) == old(
                    self).sigs_at(k),
            forall|k: nat|
                k < old(self).num_levels() && k != level as nat ==> final(self).best_at(k) == old(
                    self).best_at(k),
            !old(self).spec_partitioner().in_range(peer_id, level as nat) ==> {
                &&& final(self).verified_at(level as nat) == old(self).verified_at(level as nat)
                &&& final(self).sigs_at(level as nat) == old(self).sigs_at(level as nat)
                &&& final(self).best_at(level as nat) == old(self).best_at(level as nat)
                &&& final(self).spec_best_level() == old(self).spec_best_level()
            },
            old(self).spec_partitioner().in_range(peer_id, level as nat) ==> ({
                let l = level as nat;
                let id = peer_id as int;
                let iv2 = old(self).verified_at(l).insert(id);
                let wb2 = match old(self).best_at(l) {
                    Some(b) => if b.signers_set().contains(id) {
                        Set::<int>::empty().insert(id)
                    } else {
                        Set::<int>::empty().insert(id) + b.signers_set()
                    },
                    None => Set::<int>::empty().insert(id),
                };
                let merged2 = wb2 + iv2;
                let accepts2 = match old(self).best_at(l) {
                    Some(b) => merged2.len() > b.signers_set().len(),
                    None => true,
                };
                &&& final(self).verified_at(l) == iv2
                &&& has_key(final(self).sigs_at(l), id)
                &&& value_bytes(final(self).sigs_at(l), id) == individual.bytes@
                &&& forall|x: int|
                    x != id ==> has_key(final(self).sigs_at(l), x) == has_key(
                        old(self).sigs_at(l), x)
                &&& if accepts2 {
                    &&& final(self).present(l)
                    &&& final(self).best_signers(l) == merged2
                    &&& final(self).spec_best_level() == if level > old(self).best_level {
                        l
                    } else {
                        old(self).spec_best_level()
                    }
                } else {
                    &&& final(self).best_at(l) == old(self).best_at(l)
                    &&& final(self).spec_best_level() == old(self).spec_best_level()
                }
            }),
            Self::put_individual_post(*old(self), *final(self), individual.bytes@, level as nat,
                peer_id as int),
    {
        let ghost l = level as nat;
        let ghost id = peer_id as int;
        let bounds = self.partitioner.range(level);
        let (lo, hi) = match bounds {
            Ok(b) => b,
            Err(_) => {
                proof {
                    assert(false);
                }
                (0, 0)
            },
        };
        if peer_id < lo || peer_id > hi {
            return ;
        }
        let multisig = MultiSignature::from_individual(&individual, peer_id);
        proof {
            assert(old(self).level_inv(l));
        }
        bitset_insert(&mut self.individual_verified[level], peer_id);
        assoc_insert(&mut self.individual_signatures[level], peer_id, individual);
        proof {
            assert(old(self).level_inv(l));
            assert forall|k: nat| k < self.num_levels() implies self.level_inv(k) by {
                assert(old(self).level_inv(k));
                if k != l {
                    assert(self.verified_at(k) == old(self).verified_at(k));
                    assert(self.sigs_at(k) == old(self).sigs_at(k));
                }
            }
            assert(self.inv());
        }
        let ghost mid = *self;
        self.put_multisig(multisig, level);
        proof {
            assert(multisig.signers_set() =~= Set::<int>::empty().insert(id));
            assert(mid.set_in_level(multisig.signers_set(), l));
            assert(mid.spec_with_best(multisig.signers_set(), l) =~= ({
                match old(self).best_at(l) {
                    Some(b) => if b.signers_set().contains(id) {
                        Set::<int>::empty().insert(id)
                    } else {
                        Set::<int>::empty().insert(id) + b.signers_set()
                    },
                    None => Set::<int>::empty().insert(id),
                }
            }));
        }
    }

    /// The number of leading levels, below `n`, that all have a best
    /// multi-signature.
    pub open spec fn lead(self, n: nat) -> nat
        decreases n,
    {
        if n == 0 {
            0
        } else if self.lead((n - 1) as nat) == n - 1 && self.present((n - 1) as nat) {
            n
        } else {
            self.lead((n - 1) as nat)
        }
    }

    /// The views of the best multi-signatures of the first `n` levels.
    pub open spec fn best_views_prefix(self, n: nat) -> Seq<MultiSigView> {
        Seq::new(n, |i: int| self.best_at(i as nat)->0.mview())
    }

    /// Whether `combined` returns a multi-signature for this level: at
    /// least level 0 has a best, and no level beyond the solid prefix
    /// of bests has one (a gap is fatal).
    pub open spec fn spec_combined_some(self, level: nat) -> bool {
        &&& self.lead(level + 1) > 0
        &&& forall|j: nat| self.lead(level + 1) <= j <= level ==> !self.present(j)
    }

    /// Once the solid prefix has stopped, it stays stopped.
    proof fn lemma_lead_stuck(self, i: nat, n: nat)
        requires
            i <= n,
            self.lead(i) < i,
        ensures
            self.lead(n) == self.lead(i),
        decreases n - i,
    {
        if n > i {
            self.lemma_lead_stuck(i, (n - 1) as nat);
        }
    }

    /// The best multi-signature at a level, if any.
    pub fn best(&self, level: usize) -> (r: Option<&MultiSignature>)
        requires
            self.inv(),
            level < self.num_levels(),
        ensures
            match r {
                Some(m) => self.best_at(level as nat) == Some(*m),
                None => self.best_at(level as nat) is None,
            },
    {
        match &self.multisig_best[level] {
            Some(m) => Some(m),
            None => None,
        }
    }

    /// The merger of the best multi-signatures of levels `0 ..= level`.
    /// `None` when level 0 has none, or when some level with a best
    /// sits above a level without one.
    pub fn combined(&self, level: usize) -> (r: Option<MultiSignature>)
        requires
            self.inv(),
            level < self.num_levels(),
        ensures
            r is Some <==> self.spec_combined_some(level as nat),
            match r {
                Some(c) => c.wf() && c.mview() == combine_fold(
                    self.best_views_prefix(self.lead(level as nat + 1))),
                None => true,
            },
    {
        let mut signatures: Vec<MultiSignature> = Vec::new();
        let mut i: usize = 0;
        while i <= level
            invariant
                self.inv(),
                level < self.num_levels(),
                0 <= i <= level + 1,
                signatures@.len() <= i,
                forall|j: nat| j < i ==> (self.present(j) <==> j < signatures@.len()),
                self.lead(i as nat) == signatures@.len(),
                views_of(signatures@) == self.best_views_prefix(signatures@.len() as nat),
                forall|k: int|
                    0 <= k < signatures@.len() ==> (#[trigger] signatures@[k]).wf(),
            decreases level + 1 - i,
        {
            let ghost pre_len = signatures@.len();
            let ghost pre_sigs = signatures@;
            match &self.multisig_best[i] {
                Some(m) => {
                    if signatures.len() < i {
                        proof {
                            self.lemma_lead_stuck(i as nat, level as nat + 1);
                            assert(self.present(i as nat));
                            assert(!self.spec_combined_some(level as nat));
                        }
                        return None;
                    }
                    let cl = m.clone();
                    proof {
                        assert(pre_len == i);
                        assert(self.best_at(i as nat) == Some(*m));
                    }
                    signatures.push(cl);
                    proof {
                        assert(self.level_inv(i as nat));
                        assert(signatures@ == pre_sigs.push(cl));
                        assert forall|k: int| 0 <= k < signatures@.len() implies views_of(
                            signatures@)[k] == self.best_views_prefix(
                            signatures@.len() as nat)[k] by {
                            if k < pre_len {
                                assert(signatures@[k] == pre_sigs[k]);
                                assert(views_of(pre_sigs)[k] == self.best_views_prefix(
                                    pre_len as nat)[k]);
                            } else {
                                assert(signatures@[k] == cl);
                            }
                        }
                        assert(views_of(signatures@) =~= self.best_views_prefix(
                            signatures@.len() as nat));
                    }
                },
                None => {},
            }
            i = i + 1;
        }
        proof {
            assert(i == level + 1);
            if signatures@.len() > 0 {
                assert(self.spec_combined_some(level as nat));
            } else {
                assert(!self.spec_combined_some(level as nat));
            }
        }
        let level2 = if level + 1 < self.partitioner.num_levels {
            level + 1
        } else {
            level
        };
        self.partitioner.combine(&signatures, level2)
    }

    /// Every signer of a level's best multi-signature belongs to that
    /// level's id range.
    pub proof fn lemma_best_within_level(self, l: nat)
        requires
            self.inv(),
            l < self.num_levels(),
            self.present(l),
        ensures
            self.set_in_level(self.best_signers(l), l),
    {
        assert(self.level_inv(l));
    }

    /// An id has a stored individual signature at a level exactly when
    /// it is marked individually verified there.
    pub proof fn lemma_individual_recorded(self, l: nat, id: int)
        requires
            self.inv(),
            l < self.num_levels(),
        ensures
            has_key(self.sigs_at(l), id) <==> self.verified_at(l).contains(id),
    {
        assert(self.level_inv(l));
    }

    /// Replacement never shrinks a level's best: a candidate is
    /// accepted against an existing best only when its merged signer
    /// set is strictly larger.
    pub proof fn lemma_best_len_monotone(self, c: Set<int>, l: nat)
        requires
            self.inv(),
            l < self.num_levels(),
        ensures
            self.spec_accepts(c, l) && self.present(l) ==> self.spec_merged(c, l).len()
                > self.best_signers(l).len(),
    {
    }

    /// Putting a candidate a second time, right after it was accepted,
    /// is a no-op: the second merge cannot beat the best the first put
    /// installed.
    pub proof fn lemma_put_idempotent(pre: ReplaceStore, post: ReplaceStore, c: Set<int>, l: nat)
        requires
            pre.inv(),
            post.inv(),
            l < pre.num_levels(),
            c.finite(),
            post.present(l),
            post.best_signers(l) == pre.spec_merged(c, l),
            post.verified_at(l) == pre.verified_at(l),
        ensures
            !post.spec_accepts(c, l),
    {
        let merged1 = pre.spec_merged(c, l);
        assert(c.subset_of(merged1));
        if c =~= Set::<int>::empty() {
            assert(post.spec_with_best(c, l) =~= c + merged1);
            assert(post.spec_merged(c, l) =~= merged1);
        } else {
            let w = c.choose();
            assert(c.contains(w));
            assert(merged1.contains(w));
            assert(!c.disjoint(merged1));
            assert(post.spec_with_best(c, l) == c);
            assert(post.spec_merged(c, l).subset_of(merged1));
            assert(pre.level_inv(l));
            assert(merged1.finite());
            vstd::set_lib::lemma_len_subset(post.spec_merged(c, l), merged1);
        }
    }

    /// Scoring monotonicity, for a candidate `t` that overlaps the
    /// best in place before the put: after any accepted put at its
    /// level, its score does not increase. (A candidate disjoint from
    /// the old best can grow in score when the put lets it complete
    /// the level, so this law is stated for the overlapping ones.)
    pub proof fn lemma_score_monotone(
        pre: ReplaceStore,
        post: ReplaceStore,
        t: Set<int>,
        l: nat,
    )
        requires
            pre.inv(),
            post.inv(),
            l < pre.num_levels(),
            post.spec_partitioner() == pre.spec_partitioner(),
            t.finite(),
            pre.set_in_level(t, l),
            pre.best_at(l) is Some,
            t.intersect(pre.best_signers(l)).len() > 0,
            post.present(l),
            pre.best_signers(l).subset_of(post.best_signers(l)),
            post.verified_at(l) == pre.verified_at(l),
        ensures
            post.spec_evaluate(t, l) <= pre.spec_evaluate(t, l),
    {
        broadcast use vstd::set_lib::lemma_set_difference_len;

        assert(pre.level_inv(l));
        assert(post.level_inv(l));
        pre.spec_partitioner().lemma_levels_bound();
        pre.spec_partitioner().lemma_size_bounded(l);
        pre.spec_partitioner().lemma_range_bounded(l);
        let (rlo, rhi) = pre.spec_partitioner().spec_range(l)->0;
        let range_set = vstd::set_lib::set_int_range(rlo as int, rhi + 1);
        vstd::set_lib::lemma_int_range(rlo as int, rhi + 1);
        let to_receive = pre.spec_to_receive(l) as int;
        assert(range_set.len() == to_receive) by {
            if l >= 1 {
                pre.spec_partitioner().lemma_range_size(l);
            }
        }
        let iv = pre.verified_at(l);
        let with_i = t.union(iv);
        let b = pre.best_signers(l);
        let bp = post.best_signers(l);
        assert(t.subset_of(range_set));
        assert(iv.subset_of(range_set));
        assert(b.subset_of(range_set)) by {
            assert(pre.set_in_level(b, l));
        }
        assert(bp.subset_of(range_set)) by {
            assert(post.set_in_level(bp, l));
        }
        vstd::set_lib::lemma_len_subset(with_i, range_set);
        vstd::set_lib::lemma_len_subset(t, range_set);
        vstd::set_lib::lemma_len_subset(iv, range_set);
        vstd::set_lib::lemma_len_subset(b, range_set);
        vstd::set_lib::lemma_len_subset(bp, range_set);
        vstd::set_lib::lemma_len_subset(b, bp);
        assert(t.subset_of(with_i));
        vstd::set_lib::lemma_len_subset(t, with_i);
        // the candidate also overlaps the new best
        assert(t.intersect(b).subset_of(t.intersect(bp)));
        assert(t.intersect(b).finite()) by {
            vstd::set_lib::lemma_len_intersect(t, b);
        }
        vstd::set_lib::lemma_len_subset(t.intersect(b), t.intersect(bp));
        assert(t.intersect(bp).len() > 0);
        if b.len() == to_receive {
            // the old best was full; the new one still is
            assert(bp.len() == to_receive) by {
                vstd::set_lib::lemma_len_subset(b, bp);
                vstd::set_lib::lemma_len_subset(bp, range_set);
            }
            assert(pre.spec_evaluate(t, l) == 0);
            assert(post.spec_evaluate(t, l) == 0);
        } else if t.subset_of(b) {
            assert(t.subset_of(bp));
            assert(pre.spec_evaluate(t, l) == 0);
            assert(post.spec_evaluate(t, l) == 0);
        } else if bp.len() == to_receive || t.subset_of(bp) {
            assert(post.spec_evaluate(t, l) == 0);
            pre.lemma_score_nonneg(t, l);
        } else {
            // both sides score on the overlap branch with the same
            // new_total and combined count; only `added` can shrink
            let nt = with_i.len() as int;
            let comb = nt - t.len();
            let added_pre: int = if nt >= b.len() {
                nt - b.len()
            } else {
                0
            };
            let added_post: int = if nt >= bp.len() {
                nt - bp.len()
            } else {
                0
            };
            assert(added_post <= added_pre);
            assert(pre.spec_evaluate(t, l) == Self::spec_score(l, to_receive, nt, added_pre,
                comb, t.len() as int));
            assert(post.spec_evaluate(t, l) == Self::spec_score(l, to_receive, nt, added_post,
                comb, t.len() as int));
            if added_post == 0 && added_pre > 0 {
                assert(Self::spec_score(l, to_receive, nt, added_post, comb, t.len() as int)
                    <= 1);
                assert(comb <= 0x10000);
                assert(Self::spec_score(l, to_receive, nt, added_pre, comb, t.len() as int)
                    >= 2);
            } else if added_post > 0 {
                assert(added_pre > 0);
                if nt == to_receive {
                } else {
                    assert(added_post * 10 <= added_pre * 10) by (nonlinear_arith)
                        requires
                            added_post <= added_pre,
                    ;
                }
            }
        }
    }

    /// A candidate whose score is zero stays at zero through any
    /// accepted put at its level: dead candidates never come back.
    pub proof fn lemma_score_zero_sticky(
        pre: ReplaceStore,
        post: ReplaceStore,
        t: Set<int>,
        l: nat,
    )
        requires
            pre.inv(),
            post.inv(),
            l < pre.num_levels(),
            post.spec_partitioner() == pre.spec_partitioner(),
            t.finite(),
            pre.set_in_level(t, l),
            post.present(l),
            pre.best_at(l) is Some ==> pre.best_signers(l).subset_of(post.best_signers(l)),
            post.verified_at(l) == pre.verified_at(l),
            pre.spec_evaluate(t, l) == 0,
        ensures
            post.spec_evaluate(t, l) == 0,
    {
        broadcast use vstd::set_lib::lemma_set_difference_len;

        assert(pre.level_inv(l));
        assert(post.level_inv(l));
        pre.spec_partitioner().lemma_levels_bound();
        pre.spec_partitioner().lemma_size_bounded(l);
        pre.spec_partitioner().lemma_range_bounded(l);
        let (rlo, rhi) = pre.spec_partitioner().spec_range(l)->0;
        let range_set = vstd::set_lib::set_int_range(rlo as int, rhi + 1);
        vstd::set_lib::lemma_int_range(rlo as int, rhi + 1);
        let to_receive = pre.spec_to_receive(l) as int;
        assert(range_set.len() == to_receive) by {
            if l >= 1 {
                pre.spec_partitioner().lemma_range_size(l);
            }
        }
        let iv = pre.verified_at(l);
        let with_i = t.union(iv);
        let bp = post.best_signers(l);
        assert(t.subset_of(range_set));
        assert(iv.subset_of(range_set));
        assert(bp.subset_of(range_set)) by {
            assert(post.set_in_level(bp, l));
        }
        vstd::set_lib::lemma_len_subset(with_i, range_set);
        vstd::set_lib::lemma_len_subset(bp, range_set);
        vstd::set_lib::lemma_len_subset(t, with_i);
        match pre.best_at(l) {
            Some(bm) => {
                let b = bm.signers_set();
                assert(b.subset_of(range_set)) by {
                    assert(pre.set_in_level(b, l));
                }
                vstd::set_lib::lemma_len_subset(b, range_set);
                vstd::set_lib::lemma_len_subset(b, bp);
                if b.len() == to_receive {
                    assert(bp.len() == to_receive);
                    assert(post.spec_evaluate(t, l) == 0);
                } else if t.subset_of(b) {
                    assert(t.subset_of(bp));
                    assert(post.spec_evaluate(t, l) == 0);
                } else {
                    // pre scored zero on the added-nothing branch
                    let nt_pre: int = if t.intersect(b).len() > 0 {
                        with_i.len() as int
                    } else {
                        with_i.union(b).len() as int
                    };
                    let added_pre: int = if t.intersect(b).len() > 0 {
                        if with_i.len() >= b.len() {
                            with_i.len() - b.len()
                        } else {
                            0
                        }
                    } else {
                        with_i.union(b).len() - b.len()
                    };
                    assert(added_pre == 0 && t.len() != 1) by {
                        vstd::set_lib::lemma_len_subset(with_i.union(b), range_set);
                        vstd::set_lib::lemma_len_subset(b, with_i.union(b));
                        if added_pre != 0 || t.len() == 1 {
                            assert(pre.spec_evaluate(t, l) != 0);
                        }
                    }
                    // every way post can score needs something added
                    if bp.len() == to_receive || t.subset_of(bp) {
                        assert(post.spec_evaluate(t, l) == 0);
                    } else {
                        Self::lemma_added_shrinks(b, bp, t, iv, range_set);
                        vstd::set_lib::lemma_len_subset(bp, with_i.union(bp));
                        vstd::set_lib::lemma_len_subset(with_i.union(bp), range_set);
                        vstd::set_lib::lemma_len_subset(with_i.union(b), range_set);
                        vstd::set_lib::lemma_len_subset(b, with_i.union(b));
                        assert(post.spec_evaluate(t, l) == 0);
                    }
                }
            },
            None => {
                // no best: zero score means nothing at all was added
                assert(with_i.len() == 0 && t.len() != 1) by {
                    if with_i.len() != 0 || t.len() == 1 {
                        assert(pre.spec_evaluate(t, l) != 0);
                    }
                }
                assert(t.len() == 0);
                t.lemma_len0_is_empty();
                assert(t.subset_of(bp));
                assert(post.spec_evaluate(t, l) == 0);
            },
        }
    }

    /// Growing the best can only shrink what a candidate adds.
    proof fn lemma_added_shrinks(b: Set<int>, bp: Set<int>, t: Set<int>, iv: Set<int>,
        range_set: Set<int>)
        requires
            range_set.finite(),
            t.subset_of(range_set),
            iv.subset_of(range_set),
            b.subset_of(range_set),
            bp.subset_of(range_set),
            b.subset_of(bp),
        ensures
            ({
                let with_i = t.union(iv);
                let added_pre: int = if t.intersect(b).len() > 0 {
                    if with_i.len() >= b.len() {
                        with_i.len() - b.len()
                    } else {
                        0
                    }
                } else {
                    with_i.union(b).len() - b.len()
                };
                let added_post: int = if t.intersect(bp).len() > 0 {
                    if with_i.len() >= bp.len() {
                        with_i.len() - bp.len()
                    } else {
                        0
                    }
                } else {
                    with_i.union(bp).len() - bp.len()
                };
                added_post <= added_pre
            }),
    {
        broadcast use vstd::set_lib::lemma_set_difference_len;

        let with_i = t.union(iv);
        vstd::set_lib::lemma_len_subset(with_i, range_set);
        vstd::set_lib::lemma_len_subset(b, range_set);
        vstd::set_lib::lemma_len_subset(bp, range_set);
        vstd::set_lib::lemma_len_subset(b, bp);
        assert(with_i.union(b).len() - b.len() == with_i.difference(b).len()) by {
            assert(with_i.union(b).difference(b) =~= with_i.difference(b));
            vstd::set_lib::lemma_set_difference_len(with_i.union(b), b);
            assert(with_i.union(b).intersect(b) =~= b);
            vstd::set_lib::lemma_len_subset(with_i.union(b), range_set);
        }
        assert(with_i.union(bp).len() - bp.len() == with_i.difference(bp).len()) by {
            assert(with_i.union(bp).difference(bp) =~= with_i.difference(bp));
            vstd::set_lib::lemma_set_difference_len(with_i.union(bp), bp);
            assert(with_i.union(bp).intersect(bp) =~= bp);
            vstd::set_lib::lemma_len_subset(with_i.union(bp), range_set);
        }
        assert(with_i.difference(bp).subset_of(with_i.difference(b)));
        vstd::set_lib::lemma_len_subset(with_i.difference(bp), with_i.difference(b));
        vstd::set_lib::lemma_len_subset(with_i.difference(b), with_i);
        assert(with_i.difference(b).len() == with_i.len() - with_i.intersect(b).len()) by {
            vstd::set_lib::lemma_set_difference_len(with_i, b);
        }
        assert(with_i.difference(bp).len() == with_i.len() - with_i.intersect(bp).len()) by {
            vstd::set_lib::lemma_set_difference_len(with_i, bp);
        }
        assert(with_i.intersect(b).subset_of(bp));
        assert(with_i.intersect(b).finite()) by {
            vstd::set_lib::lemma_len_intersect(with_i, b);
        }
        vstd::set_lib::lemma_len_subset(with_i.intersect(b), bp);
        assert(t.intersect(b).finite()) by {
            vstd::set_lib::lemma_len_intersect(t, b);
        }
        assert(t.intersect(bp).finite()) by {
            vstd::set_lib::lemma_len_intersect(t, bp);
        }
        if t.intersect(b).len() > 0 {
            // the overlap survives into the larger best
            assert(t.intersect(bp).len() > 0) by {
                assert(t.intersect(b).subset_of(t.intersect(bp)));
                vstd::set_lib::lemma_len_subset(t.intersect(b), t.intersect(bp));
            }
        }
        if t.intersect(bp).len() > 0 && t.intersect(b).len() == 0 {
            // pre scored on the disjoint branch, post on the overlap
            // branch: |bp| covers at least what b shares with with_i
            assert(with_i.intersect(b).len() <= bp.len());
        }
    }

    /// Scores are never negative.
    pub proof fn lemma_score_nonneg(self, t: Set<int>, l: nat)
        requires
            self.inv(),
            l < self.num_levels(),
            t.finite(),
            self.set_in_level(t, l),
        ensures
            self.spec_evaluate(t, l) >= 0,
    {
        broadcast use vstd::set_lib::lemma_set_difference_len;

        assert(self.level_inv(l));
        self.spec_partitioner().lemma_levels_bound();
        self.spec_partitioner().lemma_size_bounded(l);
        self.spec_partitioner().lemma_range_bounded(l);
        let (rlo, rhi) = self.spec_partitioner().spec_range(l)->0;
        let range_set = vstd::set_lib::set_int_range(rlo as int, rhi + 1);
        vstd::set_lib::lemma_int_range(rlo as int, rhi + 1);
        assert(range_set.len() == self.spec_to_receive(l)) by {
            if l >= 1 {
                self.spec_partitioner().lemma_range_size(l);
            }
        }
        let iv = self.verified_at(l);
        assert(t.subset_of(range_set));
        assert(iv.subset_of(range_set));
        let with_i = t.union(iv);
        vstd::set_lib::lemma_len_subset(with_i, range_set);
        assert(t.subset_of(with_i));
        vstd::set_lib::lemma_len_subset(t, with_i);
        match self.best_at(l) {
            Some(bm) => {
                let b = bm.signers_set();
                assert(b.subset_of(range_set)) by {
                    assert(self.set_in_level(b, l));
                }
                vstd::set_lib::lemma_len_subset(b, range_set);
                vstd::set_lib::lemma_len_subset(with_i.union(b), range_set);
                vstd::set_lib::lemma_len_subset(b, with_i.union(b));
                vstd::set_lib::lemma_len_subset(
                    with_i.union(b).difference(b.union(t)), range_set);
            },
            None => {},
        }
    }

    /// A candidate inside its level that still scores positively is
    /// either accepted by the replace policy, or is a lone signer
    /// collecting the byway score of 1.
    pub proof fn lemma_positive_accepts(self, c: Set<int>, l: nat)
        requires
            self.inv(),
            l < self.num_levels(),
            c.finite(),
            self.set_in_level(c, l),
            self.spec_evaluate(c, l) > 0,
        ensures
            self.spec_accepts(c, l) || c.len() == 1,
    {
        assert(self.level_inv(l));
        let iv = self.verified_at(l);
        let wi = c.union(iv);
        match self.best_at(l) {
            Some(bm) => {
                let bs = bm.signers_set();
                assert(c.intersect(bs).finite()) by {
                    vstd::set_lib::lemma_len_intersect(c, bs);
                }
                if c.intersect(bs).len() > 0 {
                    assert(!c.disjoint(bs)) by {
                        if c.disjoint(bs) {
                            assert(c.intersect(bs) =~= Set::<int>::empty());
                        }
                    }
                    assert(self.spec_with_best(c, l) == c);
                    assert(self.spec_merged(c, l) =~= wi);
                    if wi.len() > bs.len() {
                        assert(self.spec_accepts(c, l));
                    } else {
                        // `added` clamps to zero: only the byway scores
                        assert(c.len() == 1);
                    }
                } else {
                    assert(c.disjoint(bs)) by {
                        if !c.disjoint(bs) {
                            let w = choose|w: int| c.contains(w) && bs.contains(w);
                            assert(c.intersect(bs).contains(w));
                            if c.intersect(bs).len() == 0 {
                                c.intersect(bs).lemma_len0_is_empty();
                            }
                        }
                    }
                    assert(self.spec_with_best(c, l) == c + bs);
                    assert(self.spec_merged(c, l) =~= wi + bs);
                    assert(bs.subset_of(wi.union(bs)));
                    vstd::set_lib::lemma_len_subset(bs, wi.union(bs));
                    if wi.union(bs).len() > bs.len() {
                        assert(self.spec_accepts(c, l));
                    } else {
                        assert(wi.union(bs).len() - bs.len() == 0);
                        assert(c.len() == 1);
                    }
                }
            },
            None => {
                assert(self.spec_accepts(c, l));
            },
        }
    }

    /// The union of the best signer sets of the first `n` levels.
    pub open spec fn union_signers(self, n: nat) -> Set<int>
        decreases n,
    {
        if n == 0 {
            Set::empty()
        } else {
            self.union_signers((n - 1) as nat) + self.best_signers((n - 1) as nat)
        }
    }

    /// The concatenation of the best aggregates' parts of the first
    /// `n` levels.
    pub open spec fn concat_parts(self, n: nat) -> Seq<Seq<u8>>
        decreases n,
    {
        if n == 0 {
            Seq::empty()
        } else {
            self.concat_parts((n - 1) as nat) + match self.best_at((n - 1) as nat) {
                Some(b) => b.parts(),
                None => Seq::empty(),
            }
        }
    }

    /// Membership in the union of best signer sets.
    proof fn lemma_union_signers_contains(self, n: nat, v: int)
        ensures
            self.union_signers(n).contains(v) <==> exists|i: nat|
                i < n && (#[trigger] self.best_signers(i)).contains(v),
        decreases n,
    {
        if n > 0 {
            self.lemma_union_signers_contains((n - 1) as nat, v);
        }
    }

    /// What `combined` returns is built over exactly the union of the
    /// levels' best signer sets, which are pairwise disjoint, and its
    /// aggregate is exactly the fold of the levels' best aggregates.
    pub proof fn lemma_combined_exact(self, level: nat)
        requires
            self.inv(),
            level < self.num_levels(),
        ensures
            forall|i: nat, j: nat|
                i < j <= level ==> (#[trigger] self.best_signers(i)).disjoint(
                    #[trigger] self.best_signers(j)),
            ({
                let n = self.lead(level + 1);
                let c = combine_fold(self.best_views_prefix(n));
                self.spec_combined_some(level) ==> {
                    &&& c.signers == self.union_signers(n)
                    &&& c.parts == self.concat_parts(n)
                    &&& self.union_signers(n) == self.union_signers(level + 1)
                }
            }),
    {
        assert forall|i: nat, j: nat| i < j <= level implies (#[trigger] self.best_signers(
            i)).disjoint(#[trigger] self.best_signers(j)) by {
            self.lemma_levels_disjoint(i, j);
        }
        let n = self.lead(level + 1);
        if self.spec_combined_some(level) {
            assert(n <= level + 1) by {
                self.lemma_lead_le(level + 1);
            }
            self.lemma_lead_present(level + 1);
            self.lemma_fold_exact(n);
            assert(self.union_signers(n) =~= self.union_signers(level + 1)) by {
                self.lemma_lead_le(level + 1);
                assert forall|k: nat| n <= k <= level implies self.best_signers(k) =~= Set::<
                    int,
                >::empty() by {
                    assert(!self.present(k));
                }
                self.lemma_union_stable(n, level + 1);
            }
        }
    }

    /// Every level below the solid prefix has a best.
    proof fn lemma_lead_present(self, m: nat)
        ensures
            forall|k: nat| k < self.lead(m) ==> self.present(k),
        decreases m,
    {
        if m > 0 {
            self.lemma_lead_present((m - 1) as nat);
            self.lemma_lead_le((m - 1) as nat);
        }
    }

    /// `lead` never exceeds its argument.
    proof fn lemma_lead_le(self, n: nat)
        ensures
            self.lead(n) <= n,
        decreases n,
    {
        if n > 0 {
            self.lemma_lead_le((n - 1) as nat);
        }
    }

    /// Bests at distinct levels never share a signer.
    pub proof fn lemma_levels_disjoint(self, i: nat, j: nat)
        requires
            self.inv(),
            i < j,
            j < self.num_levels(),
        ensures
            self.best_signers(i).disjoint(self.best_signers(j)),
    {
        assert(self.level_inv(i));
        assert(self.level_inv(j));
        assert forall|v: int|
            self.best_signers(i).contains(v) && self.best_signers(j).contains(
                v) implies false by {
            self.partitioner.lemma_ranges_disjoint(v as usize, i, j);
        }
    }

    /// Extending the union over absent levels changes nothing.
    proof fn lemma_union_stable(self, n: nat, m: nat)
        requires
            n <= m,
            forall|k: nat| n <= k < m ==> !self.present(k),
        ensures
            self.union_signers(m) =~= self.union_signers(n),
        decreases m - n,
    {
        if m > n {
            self.lemma_union_stable(n, (m - 1) as nat);
            assert(!self.present((m - 1) as nat));
            assert(self.best_signers((m - 1) as nat) =~= Set::empty());
        }
    }

    /// Over a solid, pairwise-disjoint prefix the combining fold is
    /// the plain union of signers and concatenation of parts.
    proof fn lemma_fold_exact(self, n: nat)
        requires
            self.inv(),
            n <= self.num_levels(),
            forall|k: nat| k < n ==> self.present(k),
            forall|i: nat, j: nat|
                i < j < n ==> (#[trigger] self.best_signers(i)).disjoint(
                    #[trigger] self.best_signers(j)),
            n > 0,
        ensures
            combine_fold(self.best_views_prefix(n)).signers == self.union_signers(n),
            combine_fold(self.best_views_prefix(n)).parts == self.concat_parts(n),
        decreases n,
    {
        let s = self.best_views_prefix(n);
        if n == 1 {
            assert(s.len() == 1);
            assert(combine_fold(s) == s[0]);
            assert(self.present(0));
            assert(s[0] == self.best_at(0)->0.mview());
            assert(self.union_signers(0) == Set::<int>::empty());
            assert(self.union_signers(1) == self.union_signers(0) + self.best_signers(0));
            assert(self.concat_parts(0) == Seq::<Seq<u8>>::empty());
            assert(self.concat_parts(1) == self.concat_parts(0) + self.best_at(0)->0.parts());
            assert(s[0].signers =~= self.union_signers(1));
            assert(s[0].parts =~= self.concat_parts(1));
        } else {
            let m = (n - 1) as nat;
            self.lemma_fold_exact(m);
            assert(s.drop_last() =~= self.best_views_prefix(m));
            let acc = combine_fold(self.best_views_prefix(m));
            let last = s.last();
            assert(self.present(m));
            assert(last == self.best_at(m)->0.mview());
            assert(last.signers == self.best_signers(m));
            assert(last.parts == self.best_at(m)->0.parts());
            assert(acc.signers.disjoint(last.signers)) by {
                assert forall|v: int|
                    acc.signers.contains(v) && last.signers.contains(v) implies false by {
                    self.lemma_union_signers_contains(m, v);
                    let i = choose|i: nat|
                        i < m && (#[trigger] self.best_signers(i)).contains(v);
                    assert(self.best_signers(i).disjoint(self.best_signers(m)));
                }
            }
            assert(combine_fold(s) == combine_step(combine_fold(s.drop_last()), s.last()));
            assert(combine_fold(s.drop_last()) == acc) by {
                assert(s.drop_last() =~= self.best_views_prefix(m));
            }
            assert(combine_step(acc, last).signers == acc.signers + last.signers);
            assert(combine_step(acc, last).parts == acc.parts + last.parts);
            assert(self.union_signers(n) == self.union_signers(m) + self.best_signers(m));
            assert(self.concat_parts(n) == self.concat_parts(m) + self.best_at(m)->0.parts());
            assert(self.present(m));
            assert(combine_fold(s).signers =~= self.union_signers(n));
            assert(combine_fold(s).parts =~= self.concat_parts(n));
        }
    }
}

/// The elements of an id vector, as a set.
pub open spec fn ids_set(s: Seq<usize>) -> Set<int> {
    s.map_values(|u: usize| u as int).to_set()
}

/// Membership in `ids_set` is witnessed by an index.
pub proof fn lemma_ids_set_contains(s: Seq<usize>, v: int)
    ensures
        ids_set(s).contains(v) <==> exists|k: int|
            0 <= k < s.len() && (#[trigger] s[k]) as int == v,
{
    let ms = s.map_values(|u: usize| u as int);
    if ids_set(s).contains(v) {
        assert(ms.contains(v));
        let k = choose|k: int| 0 <= k < ms.len() && #[trigger] ms[k] == v;
        assert(s[k] as int == v);
    }
    if exists|k: int| 0 <= k < s.len() && (#[trigger] s[k]) as int == v {
        let k = choose|k: int| 0 <= k < s.len() && (#[trigger] s[k]) as int == v;
        assert(ms[k] == v);
        assert(ms.contains(v));
    }
}

} // verus!
