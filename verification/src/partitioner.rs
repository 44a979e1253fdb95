use vstd::prelude::*;

verus! {

use vstd::arithmetic::power2::{pow2, lemma_pow2_unfold, lemma_pow2_strictly_increases, lemma_pow2_pos};
use vstd::bits::{lemma_usize_pow2_no_overflow, lemma_usize_shl_is_mul};
use crate::utils::{log2, log_2, lemma_log2_bounds, lemma_log2_below_pow2, lemma_log2_le};
use crate::multisig::{MultiSignature, MultiSigView, combine_step, combine_fold, views_of};

/// Failure of a level query.
#[derive(Clone, Debug, PartialEq, Eq, Structural)]
pub enum PartitioningError {
    InvalidLevel(usize),
}

/// Partitions the id space `[0, max_id]` into levels by XOR distance from
/// `node_id`: level `l >= 1` holds the ids that agree with `node_id` on all
/// bits above `l - 1` and differ on bit `l - 1`; level 0 is the node itself.
#[derive(Clone, Debug)]
pub struct BinomialPartitioner {
    /// The id of the node itself.
    pub node_id: usize,
    /// The largest id in the roster, ideally `2^k - 1`.
    pub max_id: usize,
    /// The number of levels.
    pub num_levels: usize,
}

/// The largest id the partitioner accepts; ids travel as 16-bit values.
pub const MAX_NODE_ID: usize = 0xffff;

impl BinomialPartitioner {
    /// Both ids fit the wire format and the node is part of the id space.
    pub open spec fn wf(self) -> bool {
        &&& 1 <= self.max_id <= MAX_NODE_ID
        &&& self.node_id <= self.max_id
        &&& self.num_levels == log2(self.max_id as nat) + 2
    }

    /// Lower bound of the id range of level `l`, for `1 <= l < num_levels`.
    pub open spec fn spec_min(self, l: nat) -> usize {
        let f = (1usize << (l - 1) as usize) as usize;
        let m = (f - 1) as usize;
        ((self.node_id ^ f) & !m) as usize
    }

    /// Upper bound of the id range of level `l`, for `1 <= l < num_levels`.
    pub open spec fn spec_max(self, l: nat) -> usize {
        let f = (1usize << (l - 1) as usize) as usize;
        let m = (f - 1) as usize;
        ((self.node_id ^ f) | m) as usize
    }

    /// The id range of level `l` as a pair of inclusive bounds, or `None`
    /// for a level the partitioner does not have.
    pub open spec fn spec_range(self, l: nat) -> Option<(usize, usize)> {
        if l == 0 {
            Some((self.node_id, self.node_id))
        } else if l >= self.num_levels {
            None
        } else {
            Some((self.spec_min(l), self.spec_max(l)))
        }
    }

    /// Membership of `id` in the range of level `l`.
    pub open spec fn in_range(self, id: usize, l: nat) -> bool {
        match self.spec_range(l) {
            Some((lo, hi)) => lo <= id <= hi,
            None => false,
        }
    }

    pub fn new(node_id: usize, max_id: usize) -> (r: BinomialPartitioner)
        requires
            1 <= max_id <= MAX_NODE_ID,
            node_id <= max_id,
        ensures
            r.wf(),
            r.node_id == node_id,
            r.max_id == max_id,
    {
        let levels = log_2(max_id);
        proof {
            lemma_log2_le(max_id as nat);
        }
        BinomialPartitioner { node_id, max_id, num_levels: levels + 2 }
    }

    /// The number of ids level `l` can hold: 1 at level 0, else `2^(l-1)`.
    pub open spec fn spec_size(self, l: nat) -> nat {
        if l == 0 {
            1
        } else {
            pow2((l - 1) as nat)
        }
    }

    pub fn size(&self, level: usize) -> (r: usize)
        requires
            self.wf(),
            level < self.num_levels,
        ensures
            r == self.spec_size(level as nat),
    {
        if level == 0 {
            1
        } else {
            proof {
                self.lemma_shift_fits((level - 1) as nat);
            }
            1usize << (level - 1)
        }
    }

    /// `pow2(l)` fits in a usize for every `l <= num_levels - 2`, because
    /// `pow2(num_levels - 2) <= max_id`.
    proof fn lemma_shift_fits(self, l: nat)
        requires
            self.wf(),
            l <= self.num_levels - 2,
        ensures
            pow2(l) <= self.max_id,
            l <= 15,
            (1usize << l) == pow2(l),
            1usize << l >= 1,
    {
        vstd::arithmetic::power2::lemma2_to64();
        lemma_log2_below_pow2(self.max_id as nat, 15);
        lemma_log2_bounds(self.max_id as nat);
        if l < log2(self.max_id as nat) {
            lemma_pow2_strictly_increases(l, log2(self.max_id as nat));
        }
        lemma_pow2_pos(l);
        lemma_usize_pow2_no_overflow(l);
        lemma_usize_shl_is_mul(1, l as usize);
    }

    /// The inclusive id range of a level. Level 0 is the node itself;
    /// levels `1 .. num_levels` are the XOR ranges; anything else fails.
    pub fn range(&self, level: usize) -> (r: Result<(usize, usize), PartitioningError>)
        requires
            self.wf(),
        ensures
            match self.spec_range(level as nat) {
                Some(b) => r == Ok::<(usize, usize), PartitioningError>(b),
                None => r == Err::<(usize, usize), PartitioningError>(
                    PartitioningError::InvalidLevel(level)),
            },
            r is Ok ==> r.unwrap().0 <= r.unwrap().1,
    {
        if level == 0 {
            Ok((self.node_id, self.node_id))
        } else if level >= self.num_levels {
            Err(PartitioningError::InvalidLevel(level))
        } else {
            proof {
                self.lemma_shift_fits((level - 1) as nat);
            }
            let f: usize = 1usize << (level - 1);
            let m: usize = f - 1;
            let min = (self.node_id ^ f) & !m;
            let max = (self.node_id ^ f) | m;
            proof {
                let x = (self.node_id ^ f) as usize;
                assert((x & !m) <= (x | m)) by (bit_vector);
            }
            Ok((min, max))
        }
    }
    /// Merges an ordered list of multi-signatures into one, skipping
    /// any whose signer set overlaps what has been merged so far. The
    /// level partitioning guarantees callers that level bests never
    /// overlap, so nothing is skipped for them.
    pub fn combine(&self, signatures: &Vec<MultiSignature>, level: usize) -> (r: Option<
        MultiSignature,
    >)
        requires
            forall|i: int| 0 <= i < signatures@.len() ==> (#[trigger] signatures@[i]).wf(),
        ensures
            signatures@.len() == 0 ==> r is None,
            signatures@.len() > 0 ==> match r {
                Some(c) => c.wf() && c.mview() == combine_fold(views_of(signatures@)),
                None => false,
            },
    {
        let _ = level;
        if signatures.len() == 0 {
            return None;
        }
        let ghost views = views_of(signatures@);
        let mut combined = signatures[0].clone();
        let mut i: usize = 1;
        proof {
            assert(views.take(1) =~= seq![views[0]]);
            assert(combine_fold(views.take(1)) == views[0]);
        }
        while i < signatures.len()
            invariant
                1 <= i <= signatures@.len(),
                views == views_of(signatures@),
                forall|k: int| 0 <= k < signatures@.len() ==> (#[trigger] signatures@[k]).wf(),
                combined.wf(),
                combined.mview() == combine_fold(views.take(i as int)),
            decreases signatures@.len() - i,
        {
            let ghost pre = combined.mview();
            // A failed merge is intentionally ignored: the candidate is skipped.
            let merged = combined.add_multisig(&signatures[i]);
            proof {
                let t = views.take(i as int + 1);
                assert(t.drop_last() =~= views.take(i as int));
                assert(t.last() == views[i as int]);
                if pre.signers.disjoint(views[i as int].signers) {
                    assert(combined.mview() == combine_step(pre, views[i as int]));
                } else {
                    assert(combined.mview().signers == pre.signers);
                    assert(combined.mview().parts == pre.parts);
                    assert(combined.mview() == combine_step(pre, views[i as int]));
                }
            }
            i = i + 1;
        }
        proof {
            assert(views.take(signatures@.len() as int) =~= views);
        }
        Some(combined)
    }

    /// The level count never exceeds 17, because ids fit in 16 bits.
    pub proof fn lemma_levels_bound(self)
        requires
            self.wf(),
        ensures
            log2(self.max_id as nat) <= 15,
            self.num_levels <= 17,
    {
        vstd::arithmetic::power2::lemma2_to64();
        lemma_log2_below_pow2(self.max_id as nat, 15);
    }

    /// A left shift of 1 by at most 16 is the matching power of two.
    proof fn lemma_shl_pow2(l: nat)
        requires
            l <= 16,
        ensures
            (1usize << l) == pow2(l),
            1 <= pow2(l) <= 0x10000,
    {
        vstd::arithmetic::power2::lemma2_to64();
        lemma_usize_pow2_no_overflow(l);
        lemma_usize_shl_is_mul(1, l as usize);
    }

    /// Level ranges stay within the 16-bit id space.
    pub proof fn lemma_range_bounded(self, l: nat)
        requires
            self.wf(),
            l < self.num_levels,
        ensures
            match self.spec_range(l) {
                Some((lo, hi)) => lo <= hi <= 0xffff,
                None => false,
            },
    {
        if l >= 1 {
            self.lemma_levels_bound();
            Self::lemma_shl_pow2((l - 1) as nat);
            let n = self.node_id;
            let lm = (l - 1) as usize;
            let f = 1usize << lm;
            assert({
                let m = (f - 1) as usize;
                ((n ^ f) & !m) <= ((n ^ f) | m) && ((n ^ f) | m) <= 0xffff
            }) by (bit_vector)
                requires
                    f == 1usize << lm,
                    lm < 16,
                    n <= 0xffff,
            ;
        }
    }

    /// The size of a level never exceeds the id space.
    pub proof fn lemma_size_bounded(self, l: nat)
        requires
            self.wf(),
            l < self.num_levels,
        ensures
            1 <= self.spec_size(l) <= 0x10000,
    {
        if l >= 1 {
            self.lemma_levels_bound();
            Self::lemma_shl_pow2((l - 1) as nat);
        }
    }

    /// An id lies in the range of level `l >= 1` exactly when the highest
    /// bit on which it differs from `node_id` is bit `l - 1`.
    pub proof fn lemma_level_member(self, id: usize, l: nat)
        requires
            self.wf(),
            1 <= l < self.num_levels,
        ensures
            self.in_range(id, l) <==> pow2((l - 1) as nat) <= (id ^ self.node_id) < pow2(l),
    {
        self.lemma_levels_bound();
        Self::lemma_shl_pow2((l - 1) as nat);
        Self::lemma_shl_pow2(l);
        let n = self.node_id;
        let lm = (l - 1) as usize;
        let f = 1usize << lm;
        lemma_pow2_unfold(l);
        assert((1usize << ((lm + 1) as usize)) == pow2(l)) by {
            Self::lemma_shl_pow2(l);
        }
        assert({
            let m = (f - 1) as usize;
            (((n ^ f) & !m) <= id && id <= ((n ^ f) | m)) <==> (f <= (id ^ n) && (id ^ n)
                < (1usize << ((lm + 1) as usize)))
        }) by (bit_vector)
            requires
                f == 1usize << lm,
                lm < 16,
        ;
    }

    /// The node itself is in no range of a level above 0.
    pub proof fn lemma_node_not_in_own_range(self, l: nat)
        requires
            self.wf(),
            1 <= l < self.num_levels,
        ensures
            !self.in_range(self.node_id, l),
    {
        self.lemma_level_member(self.node_id, l);
        let n = self.node_id;
        assert((n ^ n) == 0) by (bit_vector);
        lemma_pow2_pos((l - 1) as nat);
    }

    /// The range of level `l >= 1` holds exactly `2^(l-1)` ids.
    pub proof fn lemma_range_size(self, l: nat)
        requires
            self.wf(),
            1 <= l < self.num_levels,
        ensures
            self.spec_max(l) - self.spec_min(l) + 1 == self.spec_size(l),
    {
        self.lemma_shift_fits((l - 1) as nat);
        let n = self.node_id;
        let lm = (l - 1) as usize;
        let f = 1usize << lm;
        assert({
            let m = (f - 1) as usize;
            ((n ^ f) | m) == ((n ^ f) & !m) + m
        }) by (bit_vector)
            requires
                f == 1usize << lm,
                lm < 16,
        ;
    }

    /// Ranges of distinct levels never share an id.
    pub proof fn lemma_ranges_disjoint(self, id: usize, l1: nat, l2: nat)
        requires
            self.wf(),
            l1 < l2 < self.num_levels,
        ensures
            !(self.in_range(id, l1) && self.in_range(id, l2)),
    {
        self.lemma_level_member(id, l2);
        if l1 == 0 {
            if self.in_range(id, l1) && self.in_range(id, l2) {
                self.lemma_node_not_in_own_range(l2);
            }
        } else {
            self.lemma_level_member(id, l1);
            if pow2((l1 - 1) as nat) <= (id ^ self.node_id) < pow2(l1)
                && pow2((l2 - 1) as nat) <= (id ^ self.node_id) < pow2(l2) {
                if l1 <= l2 - 1 {
                    if l1 < l2 - 1 {
                        lemma_pow2_strictly_increases(l1, (l2 - 1) as nat);
                    }
                }
            }
        }
    }

    /// Together with `{node_id}`, the level ranges exactly cover the id
    /// space `[0, 2^(num_levels - 1))`.
    pub proof fn lemma_ranges_cover(self, id: usize)
        requires
            self.wf(),
        ensures
            (exists|l: nat| l < self.num_levels && self.in_range(id, l)) <==> id < pow2(
                (self.num_levels - 1) as nat),
    {
        let n = self.node_id;
        let bound = (self.num_levels - 1) as nat;  // log2(max_id) + 1
        self.lemma_levels_bound();
        self.lemma_shift_fits((bound - 1) as nat);
        lemma_pow2_unfold(bound);
        lemma_log2_bounds(self.max_id as nat);
        assert(n < pow2(bound));
        let k = (bound - 1) as usize;
        // XOR stays below a power of two that bounds both operands.
        assert(forall|a: usize, b: usize|
            a < (2usize * (1usize << k)) && b < (2usize * (1usize << k)) && k < 16 ==> (a ^ b)
                < (2usize * (1usize << k))) by (bit_vector);
        if id < pow2(bound) {
            if id == n {
                assert(self.in_range(id, 0));
            } else {
                let d = (id ^ n) as usize;
                assert(d < 2usize * (1usize << k));
                assert(d != 0) by {
                    assert(forall|a: usize, b: usize| (a ^ b) == 0usize ==> a == b) by (bit_vector);
                }
                lemma_log2_bounds(d as nat);
                let l = log2(d as nat) + 1;
                assert(l < self.num_levels) by {
                    lemma_log2_below_pow2(d as nat, (bound - 1) as nat);
                }
                self.lemma_level_member(id, l);
                assert(self.in_range(id, l));
            }
        } else {
            assert forall|l: nat| l < self.num_levels implies !self.in_range(id, l) by {
                if l == 0 {
                    assert(!self.in_range(id, 0));
                } else {
                    self.lemma_level_member(id, l);
                    if self.in_range(id, l) {
                        let d = (id ^ n) as usize;
                        assert(d < pow2(l));
                        if l < bound {
                            lemma_pow2_strictly_increases(l, bound);
                        }
                        assert(d < 2usize * (1usize << k));
                        assert(id == (d ^ n)) by {
                            assert(forall|a: usize, b: usize| ((a ^ b) ^ b) == a) by (bit_vector);
                            assert(d == (id ^ n));
                        }
                    }
                }
            }
        }
    }
}

} // verus!
