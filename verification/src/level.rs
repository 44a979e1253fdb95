//! Per-level peer state: the level's peers, the rotating send cursor,
//! and the size of the largest multi-signature already scheduled for
//! sending at this level.

use vstd::prelude::*;

verus! {

use rand::seq::SliceRandom;
use crate::multisig::MultiSignature;
use crate::partitioner::BinomialPartitioner;
use crate::config::Config;
use crate::store::ids_set;

/// The mutable part of a level.
#[derive(Clone, Debug, PartialEq, Eq, Structural)]
pub struct LevelState {
    pub send_started: bool,
    pub receive_completed: bool,
    pub send_peers_pos: usize,
    pub send_signature_size: usize,
    pub send_peers_count: usize,
}

/// One aggregation level of this node.
#[derive(Debug)]
pub struct Level {
    pub id: usize,
    pub peer_ids: Vec<usize>,
    pub send_expected_full_size: usize,
    pub state: LevelState,
}

/// Relies on rand's `SliceRandom::shuffle` with `thread_rng`: the
/// result holds the same ids, reordered.
#[verifier::external_body]
fn shuffle_ids(ids: &mut Vec<usize>)
    ensures
        final(ids)@.to_multiset() == old(ids)@.to_multiset(),
        final(ids)@.len() == old(ids)@.len(),
{
    ids.shuffle(&mut rand::thread_rng())
}

impl Level {
    /// The send cursor points at a peer (or at 0 when there are none),
    /// and every peer id fits the wire format.
    pub open spec fn wf(self) -> bool {
        &&& if self.peer_ids@.len() == 0 {
            self.state.send_peers_pos == 0
        } else {
            self.state.send_peers_pos < self.peer_ids@.len()
        }
        &&& forall|k: int| 0 <= k < self.peer_ids@.len() ==> (#[trigger] self.peer_ids@[k]) <= 0xffff
    }

    pub fn new(id: usize, peer_ids: Vec<usize>, send_expected_full_size: usize) -> (r: Level)
        requires
            forall|k: int| 0 <= k < peer_ids@.len() ==> (#[trigger] peer_ids@[k]) <= 0xffff,
        ensures
            r.wf(),
            r.id == id,
            r.peer_ids@ == peer_ids@,
            r.send_expected_full_size == send_expected_full_size,
            r.state == (LevelState {
                send_started: false,
                receive_completed: false,
                send_peers_pos: 0,
                send_signature_size: 0,
                send_peers_count: 0,
            }),
    {
        Level {
            id,
            peer_ids,
            send_expected_full_size,
            state: LevelState {
                send_started: false,
                receive_completed: false,
                send_peers_pos: 0,
                send_signature_size: 0,
                send_peers_count: 0,
            },
        }
    }

    /// The number of peers of this level.
    pub fn num_peers(&self) -> (r: usize)
        ensures
            r == self.peer_ids@.len(),
    {
        self.peer_ids.len()
    }

    /// Marks the level as started for sending.
    pub fn start(&mut self)
        ensures
            final(self).state == (LevelState { send_started: true, ..old(self).state }),
            final(self).id == old(self).id,
            final(self).peer_ids@ == old(self).peer_ids@,
            final(self).send_expected_full_size == old(self).send_expected_full_size,
            old(self).wf() ==> final(self).wf(),
    {
        self.state.send_started = true;
    }

    /// Whether the level still has peers to contact in this round.
    pub fn active(&self) -> (r: bool)
        ensures
            r == (self.state.send_started && self.state.send_peers_count < self.peer_ids@.len()),
    {
        self.state.send_started && self.state.send_peers_count < self.peer_ids.len()
    }

    /// The next `count` peers in rotation (all peers when fewer),
    /// advancing the cursor.
    pub fn select_next_peers(&mut self, count: usize) -> (r: Vec<usize>)
        requires
            old(self).wf(),
        ensures
            final(self).wf(),
            final(self).id == old(self).id,
            final(self).peer_ids@ == old(self).peer_ids@,
            final(self).send_expected_full_size == old(self).send_expected_full_size,
            final(self).state.send_started == old(self).state.send_started,
            final(self).state.receive_completed == old(self).state.receive_completed,
            final(self).state.send_signature_size == old(self).state.send_signature_size,
            final(self).state.send_peers_count == old(self).state.send_peers_count,
            r@.len() == if count <= old(self).peer_ids@.len() {
                count as int
            } else {
                old(self).peer_ids@.len() as int
            },
            forall|k: int|
                0 <= k < r@.len() ==> #[trigger] r@[k] == old(self).peer_ids@[(old(
                    self).state.send_peers_pos + k) % (old(self).peer_ids@.len() as int)],
            final(self).state.send_peers_pos == if old(self).peer_ids@.len() == 0 {
                0int
            } else {
                (old(self).state.send_peers_pos + r@.len()) % (old(self).peer_ids@.len() as int)
            },
    {
        let size = if count < self.peer_ids.len() {
            count
        } else {
            self.peer_ids.len()
        };
        let mut selected: Vec<usize> = Vec::new();
        if size == 0 {
            proof {
                if self.peer_ids@.len() > 0 {
                    let n = self.peer_ids@.len() as int;
                    let p0 = self.state.send_peers_pos as int;
                    assert(p0 % n == p0) by (nonlinear_arith)
                        requires
                            0 <= p0 < n,
                    ;
                }
            }
            return selected;
        }
        let mut j: usize = 0;
        let ghost n = self.peer_ids@.len() as int;
        let ghost p0 = old(self).state.send_peers_pos as int;
        proof {
            assert(p0 % n == p0) by (nonlinear_arith)
                requires
                    0 <= p0 < n,
            ;
        }
        while j < size
            invariant
                0 <= j <= size,
                size <= self.peer_ids@.len(),
                self.wf(),
                self.peer_ids@.len() > 0,
                self.peer_ids@.len() <= usize::MAX,
                n == self.peer_ids@.len() as int,
                p0 == old(self).state.send_peers_pos,
                p0 < n,
                self.id == old(self).id,
                self.peer_ids@ == old(self).peer_ids@,
                self.send_expected_full_size == old(self).send_expected_full_size,
                self.state.send_started == old(self).state.send_started,
                self.state.receive_completed == old(self).state.receive_completed,
                self.state.send_signature_size == old(self).state.send_signature_size,
                self.state.send_peers_count == old(self).state.send_peers_count,
                self.state.send_peers_pos == (p0 + j) % n,
                selected@.len() == j,
                forall|k: int|
                    0 <= k < j ==> #[trigger] selected@[k] == self.peer_ids@[(p0 + k) % n],
            decreases size - j,
        {
            selected.push(self.peer_ids[self.state.send_peers_pos]);
            let next = self.state.send_peers_pos + 1;
            if next >= self.peer_ids.len() {
                self.state.send_peers_pos = 0;
            } else {
                self.state.send_peers_pos = next;
            }
            proof {
                assert(self.state.send_peers_pos == (p0 + j + 1) % n) by {
                    assert((p0 + j) % n + 1 == (p0 + j + 1) % n || ((p0 + j) % n == n - 1 && (p0
                        + j + 1) % n == 0)) by (nonlinear_arith)
                        requires
                            n > 0,
                            p0 >= 0,
                            j >= 0,
                    ;
                }
            }
            j = j + 1;
        }
        selected
    }

    /// Remembers a multi-signature as the one to send when it covers
    /// strictly more signers than what was last scheduled; resets the
    /// per-round send counter and returns true exactly then. A
    /// candidate that reaches the full expected size also marks the
    /// level fully formed for sending.
    pub fn update_signature_to_send(&mut self, signature: &MultiSignature) -> (r: bool)
        requires
            old(self).wf(),
            signature.wf(),
        ensures
            final(self).wf(),
            final(self).id == old(self).id,
            final(self).peer_ids@ == old(self).peer_ids@,
            final(self).send_expected_full_size == old(self).send_expected_full_size,
            ({
                let slen = signature.signers_set().len() as int;
                if old(self).state.send_signature_size >= slen {
                    r == false && final(self).state == old(self).state
                } else {
                    &&& r == true
                    &&& final(self).state.send_signature_size == slen
                    &&& final(self).state.send_peers_count == 0
                    &&& final(self).state.send_peers_pos == old(self).state.send_peers_pos
                    &&& final(self).state.receive_completed == old(self).state.receive_completed
                    &&& final(self).state.send_started == (old(self).state.send_started || slen
                        == old(self).send_expected_full_size)
                }
            }),
    {
        let slen = signature.len();
        if self.state.send_signature_size >= slen {
            return false;
        }
        self.state.send_signature_size = slen;
        self.state.send_peers_count = 0;
        if slen == self.send_expected_full_size {
            self.state.send_started = true;
        }
        true
    }
}

/// The expected full signature size at a level: the total number of
/// ids of all lower levels, the largest send a level can achieve.
/// For `l >= 1` this is `2^(l-1)`.
pub open spec fn spec_expected_full_size(p: BinomialPartitioner, l: nat) -> nat
    decreases l,
{
    if l == 0 {
        0
    } else {
        spec_expected_full_size(p, (l - 1) as nat) + p.spec_size((l - 1) as nat)
    }
}

/// What a freshly created level vector looks like: one level per
/// partitioner level, each holding exactly its range's ids, all in
/// their born state, with only level 0 started.
pub open spec fn spec_fresh_levels(
    levels: Seq<Level>,
    p: BinomialPartitioner,
    disable_shuffling: bool,
) -> bool {
    &&& levels.len() == p.num_levels
    &&& forall|l: int|
        0 <= l < levels.len() ==> {
            let lv = #[trigger] levels[l];
            &&& lv.wf()
            &&& lv.id == l
            &&& lv.send_expected_full_size == spec_expected_full_size(p, l as nat)
            &&& lv.state.send_started == (l == 0)
            &&& !lv.state.receive_completed
            &&& lv.state.send_peers_pos == 0
            &&& lv.state.send_signature_size == 0
            &&& lv.state.send_peers_count == 0
            &&& lv.peer_ids@.len() == p.spec_size(l as nat)
            &&& ids_set(lv.peer_ids@) == ({
                let (lo, hi) = p.spec_range(l as nat)->0;
                vstd::set_lib::set_int_range(lo as int, hi + 1)
            })
            &&& (disable_shuffling ==> forall|k: int|
                0 <= k < lv.peer_ids@.len() ==> #[trigger] lv.peer_ids@[k] as int == ({
                    let (lo, hi) = p.spec_range(l as nat)->0;
                    lo + k
                }))
        }
}

/// Builds every level of a node: level `l` holds the ids of the
/// partitioner's level-`l` range, shuffled unless disabled, with level
/// 0 born started.
pub fn create_levels(config: &Config, partitioner: &BinomialPartitioner) -> (r: Vec<Level>)
    requires
        partitioner.wf(),
    ensures
        spec_fresh_levels(r@, *partitioner, config.disable_shuffling),
{
    let mut levels: Vec<Level> = Vec::new();
    let mut expected: usize = 0;
    let mut i: usize = 0;
    while i < partitioner.num_levels
        invariant
            0 <= i <= partitioner.num_levels,
            partitioner.wf(),
            levels@.len() == i,
            expected == spec_expected_full_size(*partitioner, i as nat),
            expected <= 0x1_0000,
            forall|l: int|
                0 <= l < i ==> {
                    let lv = #[trigger] levels@[l];
                    &&& lv.wf()
                    &&& lv.id == l
                    &&& lv.send_expected_full_size == spec_expected_full_size(
                        *partitioner, l as nat)
                    &&& lv.state.send_started == (l == 0)
                    &&& !lv.state.receive_completed
                    &&& lv.state.send_peers_pos == 0
                    &&& lv.state.send_signature_size == 0
                    &&& lv.state.send_peers_count == 0
                    &&& lv.peer_ids@.len() == partitioner.spec_size(l as nat)
                    &&& ids_set(lv.peer_ids@) == ({
                        let (lo, hi) = partitioner.spec_range(l as nat)->0;
                        vstd::set_lib::set_int_range(lo as int, hi + 1)
                    })
                    &&& (config.disable_shuffling ==> forall|k: int|
                        0 <= k < lv.peer_ids@.len() ==> #[trigger] lv.peer_ids@[k] as int == ({
                            let (lo, hi) = partitioner.spec_range(l as nat)->0;
                            lo + k
                        }))
                },
        decreases partitioner.num_levels - i,
    {
        let bounds = partitioner.range(i);
        let (lo, hi) = match bounds {
            Ok(b) => b,
            Err(_) => {
                proof {
                    assert(false);
                }
                (0, 0)
            },
        };
        proof {
            partitioner.lemma_range_bounded(i as nat);
            if i >= 1 {
                partitioner.lemma_range_size(i as nat);
            }
            partitioner.lemma_size_bounded(i as nat);
        }
        let mut ids: Vec<usize> = Vec::new();
        let mut v: usize = lo;
        while v <= hi
            invariant
                lo <= v <= hi + 1,
                hi <= 0xffff,
                ids@.len() == v - lo,
                forall|k: int| 0 <= k < ids@.len() ==> #[trigger] ids@[k] == lo + k,
            decreases hi + 1 - v,
        {
            ids.push(v);
            v = v + 1;
        }
        proof {
            assert(ids@.len() == hi - lo + 1);
            assert(ids_set(ids@) =~= vstd::set_lib::set_int_range(lo as int, hi + 1)) by {
                assert forall|x: int| ids_set(ids@).contains(x) implies (lo <= x <= hi) by {
                    crate::store::lemma_ids_set_contains(ids@, x);
                    let k = choose|k: int| 0 <= k < ids@.len() && (#[trigger] ids@[k]) as int == x;
                }
                assert forall|x: int| lo <= x <= hi implies ids_set(ids@).contains(x) by {
                    assert(ids@[x - lo] as int == x);
                    crate::store::lemma_ids_set_contains(ids@, x);
                }
            }
        }
        if !config.disable_shuffling {
            let ghost pre_shuffle = ids@;
            shuffle_ids(&mut ids);
            proof {
                lemma_ids_set_multiset(pre_shuffle, ids@);
                lemma_ids_bound_multiset(pre_shuffle, ids@);
            }
        }
        let size = ids.len();
        let level = Level::new(i, ids, expected);
        let mut level = level;
        if i == 0 {
            level.start();
        }
        levels.push(level);
        proof {
            assert(spec_expected_full_size(*partitioner, i as nat + 1) == expected
                + partitioner.spec_size(i as nat));
        }
        expected = expected + size;
        proof {
            lemma_expected_bounded(*partitioner, i as nat + 1);
        }
        i = i + 1;
    }
    levels
}

/// The expected full size never exceeds the id space.
proof fn lemma_expected_bounded(p: BinomialPartitioner, l: nat)
    requires
        p.wf(),
        l <= p.num_levels,
    ensures
        spec_expected_full_size(p, l) <= 0x1_0000,
{
    if l > 0 {
        lemma_expected_closed(p, l);
        p.lemma_levels_bound();
        crate::utils::lemma_pow2_le_16((l - 1) as nat);
    }
}

/// Reordering an id vector does not change its id set.
proof fn lemma_ids_set_multiset(a: Seq<usize>, b: Seq<usize>)
    requires
        a.to_multiset() == b.to_multiset(),
    ensures
        ids_set(a) == ids_set(b),
{
    broadcast use vstd::seq_lib::group_to_multiset_ensures;

    assert forall|x: int| ids_set(a).contains(x) implies ids_set(b).contains(x) by {
        crate::store::lemma_ids_set_contains(a, x);
        let k = choose|k: int| 0 <= k < a.len() && (#[trigger] a[k]) as int == x;
        assert(a.contains(a[k]));
        assert(a.to_multiset().count(a[k]) > 0);
        assert(b.contains(a[k]));
        let k2 = choose|k2: int| 0 <= k2 < b.len() && #[trigger] b[k2] == a[k];
        assert(b[k2] as int == x);
        crate::store::lemma_ids_set_contains(b, x);
    }
    assert forall|x: int| ids_set(b).contains(x) implies ids_set(a).contains(x) by {
        crate::store::lemma_ids_set_contains(b, x);
        let k = choose|k: int| 0 <= k < b.len() && (#[trigger] b[k]) as int == x;
        assert(b.contains(b[k]));
        assert(b.to_multiset().count(b[k]) > 0);
        assert(a.contains(b[k]));
        let k2 = choose|k2: int| 0 <= k2 < a.len() && #[trigger] a[k2] == b[k];
        assert(a[k2] as int == x);
        crate::store::lemma_ids_set_contains(a, x);
    }
    assert(ids_set(a) =~= ids_set(b));
}

/// Reordering an id vector keeps its ids within bounds.
proof fn lemma_ids_bound_multiset(a: Seq<usize>, b: Seq<usize>)
    requires
        a.to_multiset() == b.to_multiset(),
        forall|k: int| 0 <= k < a.len() ==> (#[trigger] a[k]) <= 0xffff,
    ensures
        forall|k: int| 0 <= k < b.len() ==> (#[trigger] b[k]) <= 0xffff,
{
    broadcast use vstd::seq_lib::group_to_multiset_ensures;

    assert forall|k: int| 0 <= k < b.len() implies (#[trigger] b[k]) <= 0xffff by {
        assert(b.contains(b[k]));
        assert(b.to_multiset().count(b[k]) > 0);
        assert(a.contains(b[k]));
        let j = choose|j: int| 0 <= j < a.len() && #[trigger] a[j] == b[k];
        assert(a[j] <= 0xffff);
    }
}

/// Closed form: for `l >= 1`, the expected full size is `2^(l-1)`.
proof fn lemma_expected_closed(p: BinomialPartitioner, l: nat)
    requires
        p.wf(),
        1 <= l <= p.num_levels,
    ensures
        spec_expected_full_size(p, l) == vstd::arithmetic::power2::pow2((l - 1) as nat),
    decreases l,
{
    vstd::arithmetic::power2::lemma2_to64();
    assert(spec_expected_full_size(p, 0) == 0);
    if l == 1 {
        assert(spec_expected_full_size(p, 1) == spec_expected_full_size(p, 0) + p.spec_size(0));
        assert(p.spec_size(0) == 1);
    } else {
        lemma_expected_closed(p, (l - 1) as nat);
        assert(spec_expected_full_size(p, l) == spec_expected_full_size(p, (l - 1) as nat)
            + p.spec_size((l - 1) as nat));
        assert(p.spec_size((l - 1) as nat) == vstd::arithmetic::power2::pow2((l - 2) as nat));
        vstd::arithmetic::power2::lemma_pow2_unfold((l - 1) as nat);
    }
}

} // verus!
