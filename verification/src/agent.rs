//! The aggregation agent: owns the store, the levels and the pending
//! work, applies verified signatures in order of value, activates
//! levels, and fires the final multi-signature exactly once.
//!
//! The agent is a single-owner state machine: callers hand it events
//! (an inbound message, a periodic tick, a level timeout) and take
//! back the datagrams to send. Signature verification may happen on
//! worker threads before an event is handed in.

use vstd::prelude::*;

verus! {

use crate::bls::Signature;
use crate::multisig::{MultiSignature, combine_fold};
use crate::partitioner::BinomialPartitioner;
use crate::store::ReplaceStore;
use crate::level::{Level, LevelState, create_levels};
use crate::config::Config;
use crate::identity::{IdentityRegistry, NetAddress};
use crate::verifiers::{StrictVerifier, VerifyResult, spec_set_weight};
use crate::message::Message;
use crate::timeout::LinearTimeout;

/// A pending verified signature, waiting to be applied to the store.
pub enum Todo {
    Individual { signature: Signature, level: usize, origin: usize },
    Multi { signature: MultiSignature, level: usize, votes: usize },
}

impl Todo {
    /// The level the todo aims at.
    pub open spec fn spec_level(self) -> usize {
        match self {
            Todo::Individual { level, .. } => level,
            Todo::Multi { level, .. } => level,
        }
    }

    /// Fit for a store with this many levels.
    pub open spec fn wf(self, num_levels: nat) -> bool {
        &&& (self.spec_level() as nat) < num_levels
        &&& match self {
            Todo::Individual { origin, .. } => origin <= 0xffff,
            Todo::Multi { signature, .. } => signature.wf(),
        }
    }

    /// The level the todo aims at.
    pub fn level(&self) -> (r: usize)
        ensures
            r == self.spec_level(),
    {
        match self {
            Todo::Individual { level, .. } => *level,
            Todo::Multi { level, .. } => *level,
        }
    }

    /// The todo's score against the store's current state.
    pub fn evaluate(&self, store: &ReplaceStore) -> (r: usize)
        requires
            store.inv(),
            self.wf(store.num_levels()),
        ensures
            r == self.spec_evaluate(*store),
    {
        match self {
            Todo::Multi { signature, level, votes } => store.evaluate_multisig(
                signature, *level, *votes),
            Todo::Individual { signature, level, origin } => store.evaluate_individual(
                signature, *level, *origin),
        }
    }

    /// The todo's score, at the spec level.
    pub open spec fn spec_evaluate(self, store: ReplaceStore) -> int {
        match self {
            Todo::Multi { signature, level, .. } => store.spec_evaluate(
                signature.signers_set(), level as nat),
            Todo::Individual { signature, level, origin } => store.spec_evaluate_individual(
                signature.bytes@, level as nat, origin as int),
        }
    }

    /// Applies the todo to the store: exactly `put_individual` or
    /// `put_multisig`, by variant. Level bests never shrink and the
    /// verified sets only grow.
    pub fn put(self, store: &mut ReplaceStore)
        requires
            old(store).inv(),
            self.wf(old(store).num_levels()),
        ensures
            final(store).inv(),
            final(store).spec_partitioner() == old(store).spec_partitioner(),
            final(store).num_levels() == old(store).num_levels(),
            match self {
                Todo::Multi { signature, level, .. } => ReplaceStore::put_multisig_post(
                    *old(store), *final(store), signature.signers_set(), level as nat),
                Todo::Individual { signature, level, origin } => ReplaceStore::put_individual_post(
                    *old(store), *final(store), signature.bytes@, level as nat, origin as int),
            },
            forall|k: nat|
                k < old(store).num_levels() ==> final(store).best_signers(k).len() >= old(
                    store).best_signers(k).len(),
            forall|k: nat|
                k < old(store).num_levels() ==> old(store).verified_at(k).subset_of(
                    final(store).verified_at(k)),
    {
        let ghost pre = *store;
        let ghost l = self.spec_level() as nat;
        match self {
            Todo::Individual { signature, level, origin } => {
                store.put_individual(signature, level, origin)
            },
            Todo::Multi { signature, level, .. } => {
                store.put_multisig(signature, level)
            },
        }
        proof {
            assert forall|k: nat| k < pre.num_levels() implies store.best_signers(k).len()
                >= pre.best_signers(k).len() by {
                if k != l {
                    assert(store.best_at(k) == pre.best_at(k));
                } else {
                    if store.best_at(k) == pre.best_at(k) {
                    } else {
                        match pre.best_at(k) {
                            Some(b) => {
                                assert(pre.level_inv(k));
                            },
                            None => {
                                assert(pre.best_signers(k) =~= Set::<int>::empty());
                            },
                        }
                    }
                }
            }
        }
    }
}

/// The agent state that inbound messages mutate.
pub struct HandelState {
    /// Whether the final signature has been produced.
    pub done: bool,
    /// Verified signatures not yet applied.
    pub todos: Vec<Todo>,
    /// The signature store.
    pub store: ReplaceStore,
}

/// A datagram to send: the message and the peer's address.
pub struct Outbound {
    pub message: Message,
    pub address: NetAddress,
}

/// The ids out of `ids`, in order, that a node actually sends to: not
/// itself, and present in the roster.
pub open spec fn spec_sendable(reg: IdentityRegistry, own: usize, ids: Seq<usize>) -> Seq<usize>
    decreases ids.len(),
{
    if ids.len() == 0 {
        Seq::empty()
    } else {
        let rest = spec_sendable(reg, own, ids.drop_last());
        if ids.last() != own && reg.spec_has_id(ids.last() as int) {
            rest.push(ids.last())
        } else {
            rest
        }
    }
}

/// A list of ids that are all foreign to the node and in the roster
/// is kept whole by the sendable filter.
pub proof fn lemma_sendable_full(reg: IdentityRegistry, own: usize, ids: Seq<usize>)
    requires
        forall|k: int|
            0 <= k < ids.len() ==> (#[trigger] ids[k]) != own && reg.spec_has_id(
                ids[k] as int),
    ensures
        spec_sendable(reg, own, ids) == ids,
    decreases ids.len(),
{
    if ids.len() > 0 {
        lemma_sendable_full(reg, own, ids.drop_last());
        assert(spec_sendable(reg, own, ids) =~= ids);
    } else {
        assert(spec_sendable(reg, own, ids) =~= ids);
    }
}

/// What one built datagram looks like: the message carries the given
/// origin, level, multi-signature and optional individual signature,
/// and goes to the roster address of `id`.
pub open spec fn spec_outbound_for(
    o: Outbound,
    reg: IdentityRegistry,
    own: usize,
    level: usize,
    m: MultiSignature,
    individual: Option<Signature>,
    id: usize,
) -> bool {
    &&& o.message.origin == own as u16
    &&& o.message.level == level as u8
    &&& o.message.multisig.mview() == m.mview()
    &&& (o.message.individual is Some <==> individual is Some)
    &&& (individual is Some ==> o.message.individual->0.bytes@ == individual->0.bytes@)
    &&& reg.spec_has_id(id as int)
    &&& ({
        let ident = reg.identities@[reg.spec_index_of(id as int)];
        o.address.ip@ == ident.address.ip@ && o.address.port == ident.address.port
    })
}

/// One aggregation node's agent.
pub struct HandelAgent {
    /// State that inbound messages mutate.
    pub state: HandelState,
    /// The node's configuration.
    pub config: Config,
    /// The shared identity roster.
    pub identities: IdentityRegistry,
    /// Verification of inbound signatures.
    pub verifier: StrictVerifier,
    /// Level activation deadlines.
    pub timeouts: LinearTimeout,
    /// This node's own individual signature.
    pub individual: Signature,
    /// The per-level peer state.
    pub levels: Vec<Level>,
    /// Whether the final signature was ever fired.
    pub result_fired: bool,
    /// The fired final signature, until it is taken.
    pub result: Option<MultiSignature>,
}

impl HandelAgent {
    /// The agent invariant: a coherent store, one well-formed level
    /// per store level, well-formed pending todos, and the final
    /// result fired at most once, in lock step with `done`.
    pub open spec fn inv(self) -> bool {
        &&& self.state.store.inv()
        &&& self.levels@.len() == self.state.store.num_levels()
        &&& forall|l: int|
            0 <= l < self.levels@.len() ==> (#[trigger] self.levels@[l]).wf()
                && self.levels@[l].id == l
        &&& forall|i: int|
            0 <= i < self.state.todos@.len() ==> (#[trigger] self.state.todos@[i]).wf(
                self.state.store.num_levels())
        &&& self.identities.wf()
        &&& self.verifier.identities.wf()
        &&& self.config.node_identity.id <= 0xffff
        &&& self.state.store.spec_partitioner().node_id == self.config.node_identity.id
        &&& self.state.done == self.result_fired
        &&& (self.result is Some ==> self.result_fired)
    }

    pub fn new(config: Config, identities: IdentityRegistry) -> (r: HandelAgent)
        requires
            identities.wf(),
            identities.identities@.len() > 0,
            config.node_identity.id <= identities.identities@.last().id,
            identities.identities@.last().id >= 1,
            config.node_identity.wf(),
        ensures
            r.inv(),
            !r.state.done,
            !r.result_fired,
            r.result is None,
            r.state.todos@.len() == 0,
            forall|l: nat| l < r.state.store.num_levels() ==> !r.state.store.present(l),
            // built over the roster's id space, for this node
            r.state.store.spec_partitioner().node_id == config.node_identity.id,
            r.state.store.spec_partitioner().max_id == identities.identities@.last().id,
            crate::level::spec_fresh_levels(
                r.levels@,
                r.state.store.spec_partitioner(),
                config.disable_shuffling,
            ),
            // the verifier checks against this configuration and roster
            r.verifier.threshold == config.threshold,
            r.verifier.message_hash@ == config.message_hash@,
            r.verifier.identities.identities@.len() == identities.identities@.len(),
            forall|k: int|
                0 <= k < identities.identities@.len() ==> {
                    let a = #[trigger] r.verifier.identities.identities@[k];
                    let b = identities.identities@[k];
                    a.id == b.id && a.weight == b.weight && a.public_key.bytes@
                        == b.public_key.bytes@
                },
            // the node's own signature on the configured hash
            r.individual.bytes@ == crate::bls::sign_of(
                config.key_pair.secret.bytes@,
                config.message_hash@,
            ),
            r.config == config,
            r.identities == identities,
            r.timeouts.period == config.timeout,
    {
        let n = identities.len();
        let max_id = identities.identities[n - 1].id;
        let partitioner = BinomialPartitioner::new(config.node_identity.id, max_id);
        let levels = create_levels(&config, &partitioner);
        let store = ReplaceStore::new(partitioner);
        let verifier = StrictVerifier::new(
            config.threshold,
            crate::bls::clone_bytes(&config.message_hash),
            identities.clone(),
        );
        let individual = config.individual_signature();
        let timeouts = LinearTimeout::new(config.timeout);
        HandelAgent {
            state: HandelState { done: false, todos: Vec::new(), store },
            config,
            identities,
            verifier,
            timeouts,
            individual,
            levels,
            result_fired: false,
            result: None,
        }
    }

    /// Takes the final signature, once it has been fired; a second
    /// take returns nothing.
    pub fn final_signature(&mut self) -> (r: Option<MultiSignature>)
        requires
            old(self).inv(),
        ensures
            final(self).inv(),
            final(self).result is None,
            match old(self).result {
                Some(m) => r matches Some(res) && res.mview() == m.mview(),
                None => r is None,
            },
    {
        match &self.result {
            Some(m) => {
                let taken = m.clone();
                self.result = None;
                Some(taken)
            },
            None => None,
        }
    }

    /// Builds the datagrams for a message to a list of peers: one per
    /// listed id, in order, skipping the node itself and ids missing
    /// from the roster.
    fn send_to(&self, to: &Vec<usize>, multisig: &MultiSignature, individual: Option<Signature>,
        level: usize, out: &mut Vec<Outbound>)
        requires
            self.inv(),
            multisig.wf(),
            level < self.levels@.len(),
        ensures
            ({
                let own = self.config.node_identity.id;
                let sendable = spec_sendable(self.identities, own, to@);
                &&& final(out)@.len() == old(out)@.len() + sendable.len()
                &&& (forall|k: int|
                    0 <= k < old(out)@.len() ==> #[trigger] final(out)@[k] == old(out)@[k])
                &&& (forall|k: int|
                    0 <= k < sendable.len() ==> spec_outbound_for(
                        #[trigger] final(out)@[old(out)@.len() + k],
                        self.identities,
                        own,
                        level,
                        *multisig,
                        individual,
                        sendable[k],
                    ))
            }),
    {
        proof {
            self.state.store.spec_partitioner().lemma_levels_bound();
        }
        let ghost own = self.config.node_identity.id;
        let mut i: usize = 0;
        while i < to.len()
            invariant
                0 <= i <= to@.len(),
                self.inv(),
                multisig.wf(),
                level < self.levels@.len(),
                level <= 0xff,
                own == self.config.node_identity.id,
                out@.len() == old(out)@.len() + spec_sendable(self.identities, own, to@.take(
                    i as int)).len(),
                forall|k: int| 0 <= k < old(out)@.len() ==> #[trigger] out@[k] == old(out)@[k],
                forall|k: int|
                    0 <= k < spec_sendable(self.identities, own, to@.take(i as int)).len()
                        ==> spec_outbound_for(
                        #[trigger] out@[old(out)@.len() + k],
                        self.identities,
                        own,
                        level,
                        *multisig,
                        individual,
                        spec_sendable(self.identities, own, to@.take(i as int))[k],
                    ),
            decreases to@.len() - i,
        {
            let ghost pre_send = spec_sendable(self.identities, own, to@.take(i as int));
            proof {
                assert(to@.take(i as int + 1).drop_last() =~= to@.take(i as int));
                assert(to@.take(i as int + 1).last() == to@[i as int]);
            }
            let id = to[i];
            if id != self.config.node_identity.id {
                match self.identities.get_by_id(id) {
                    Some(identity) => {
                        let message = Message {
                            origin: self.config.node_identity.id as u16,
                            level: level as u8,
                            multisig: multisig.clone(),
                            individual: match &individual {
                                Some(s) => Some(s.clone()),
                                None => None,
                            },
                        };
                        let address = identity.address.clone();
                        out.push(Outbound { message, address });
                    },
                    None => {
                        // an unknown destination id is skipped
                    },
                }
            }
            i = i + 1;
        }
        proof {
            assert(to@.take(to@.len() as int) =~= to@);
        }
    }

    /// The ids an update round for a level goes to: the next `count`
    /// peers in rotation (all of them when fewer).
    pub open spec fn spec_update_round(lv: Level, count: usize) -> Seq<usize> {
        let n = lv.peer_ids@.len() as int;
        if n == 0 {
            Seq::empty()
        } else {
            let k: int = if count as int <= n {
                count as int
            } else {
                n
            };
            Seq::new(k as nat, |j: int| lv.peer_ids@[(lv.state.send_peers_pos + j) % n])
        }
    }

    /// Sends an update for a level to its next peers in rotation,
    /// attaching the node's own individual signature until the level
    /// has received everything.
    fn send_update(&mut self, multisig: &MultiSignature, level: usize, count: usize, out: &mut Vec<
        Outbound,
    >)
        requires
            old(self).inv(),
            multisig.wf(),
            level < old(self).levels@.len(),
        ensures
            final(self).inv(),
            final(self).state == old(self).state,
            final(self).result == old(self).result,
            final(self).result_fired == old(self).result_fired,
            final(self).config == old(self).config,
            final(self).identities == old(self).identities,
            final(self).individual == old(self).individual,
            final(self).levels@.len() == old(self).levels@.len(),
            forall|l: int|
                0 <= l < old(self).levels@.len() && l != level ==> #[trigger] final(
                    self).levels@[l] == old(self).levels@[l],
            forall|l: int|
                0 <= l < old(self).levels@.len() ==> (#[trigger] final(
                    self).levels@[l]).state.send_started == old(
                    self).levels@[l].state.send_started && final(
                    self).levels@[l].state.receive_completed == old(
                    self).levels@[l].state.receive_completed && final(
                    self).levels@[l].state.send_signature_size == old(
                    self).levels@[l].state.send_signature_size && final(self).levels@[l].peer_ids@
                    == old(self).levels@[l].peer_ids@,
            ({
                let own = old(self).config.node_identity.id;
                let lv = old(self).levels@[level as int];
                let ids = Self::spec_update_round(lv, count);
                let sendable = spec_sendable(old(self).identities, own, ids);
                let ind: Option<Signature> = if lv.state.receive_completed {
                    None
                } else {
                    Some(old(self).individual)
                };
                &&& final(out)@.len() == old(out)@.len() + sendable.len()
                &&& (forall|k: int|
                    0 <= k < old(out)@.len() ==> #[trigger] final(out)@[k] == old(out)@[k])
                &&& (forall|k: int|
                    0 <= k < sendable.len() ==> spec_outbound_for(
                        #[trigger] final(out)@[old(out)@.len() + k],
                        old(self).identities,
                        own,
                        level,
                        *multisig,
                        ind,
                        sendable[k],
                    ))
                &&& final(self).levels@[level as int].state.send_peers_pos == ({
                    let n = lv.peer_ids@.len() as int;
                    if n == 0 {
                        0int
                    } else {
                        (lv.state.send_peers_pos + ids.len()) % n
                    }
                })
            }),
    {
        let ghost lv = self.levels@[level as int];
        let ghost ids = Self::spec_update_round(lv, count);
        let peer_ids = self.levels[level].select_next_peers(count);
        proof {
            assert(peer_ids@ =~= ids);
        }
        let individual = if self.levels[level].state.receive_completed {
            None
        } else {
            Some(self.individual.clone())
        };
        let ghost ind: Option<Signature> = if lv.state.receive_completed {
            None
        } else {
            Some(old(self).individual)
        };
        let ghost pre_out = out@;
        self.send_to(&peer_ids, multisig, individual, level, out);
        proof {
            let own = self.config.node_identity.id;
            let sendable = spec_sendable(self.identities, own, ids);
            assert forall|k: int| 0 <= k < sendable.len() implies spec_outbound_for(
                #[trigger] out@[pre_out.len() + k],
                self.identities,
                own,
                level,
                *multisig,
                ind,
                sendable[k],
            ) by {
                assert(spec_outbound_for(
                    out@[pre_out.len() + k],
                    self.identities,
                    own,
                    level,
                    *multisig,
                    individual,
                    sendable[k],
                ));
            }
        }
    }

    /// Activates a level: on an inactive level, marks it started and
    /// pushes out a first update built from everything below it; a
    /// level already started or already receive-completed is left
    /// entirely alone (activation only).
    pub fn start_level(&mut self, level: usize, out: &mut Vec<Outbound>)
        requires
            old(self).inv(),
            level < old(self).levels@.len(),
        ensures
            final(self).inv(),
            final(self).state == old(self).state,
            final(self).result == old(self).result,
            final(self).result_fired == old(self).result_fired,
            final(self).config == old(self).config,
            final(self).identities == old(self).identities,
            final(self).individual == old(self).individual,
            final(self).levels@.len() == old(self).levels@.len(),
            forall|l: int|
                0 <= l < old(self).levels@.len() ==> (#[trigger] final(
                    self).levels@[l]).state.send_signature_size == old(
                    self).levels@[l].state.send_signature_size && final(self).levels@[l].peer_ids@
                    == old(self).levels@[l].peer_ids@,
            final(self).levels@[level as int].state.send_started || final(
                self).levels@[level as int].state.receive_completed,
            old(self).levels@[level as int].state.send_started || old(
                self).levels@[level as int].state.receive_completed ==> *final(self) == *old(
                self) && final(out)@ == old(out)@,
            forall|l: int|
                0 <= l < old(self).levels@.len() && l != level ==> #[trigger] final(
                    self).levels@[l] == old(self).levels@[l],
            forall|l: int|
                0 <= l < old(self).levels@.len() ==> (#[trigger] final(
                    self).levels@[l]).state.receive_completed == old(
                    self).levels@[l].state.receive_completed,
            !old(self).levels@[level as int].state.send_started && !old(
                self).levels@[level as int].state.receive_completed ==> ({
                let store = old(self).state.store;
                if level == 0 || !store.spec_combined_some((level - 1) as nat) {
                    final(out)@ == old(out)@
                } else {
                    let c = combine_fold(
                        store.best_views_prefix(store.lead(level as nat)),
                    );
                    let own = old(self).config.node_identity.id;
                    let lv0 = Level {
                        state: LevelState {
                            send_started: true,
                            ..old(self).levels@[level as int].state
                        },
                        ..old(self).levels@[level as int]
                    };
                    let ids = Self::spec_update_round(lv0, old(self).config.peer_count);
                    let sendable = spec_sendable(old(self).identities, own, ids);
                    let ind: Option<Signature> = if lv0.state.receive_completed {
                        None
                    } else {
                        Some(old(self).individual)
                    };
                    &&& final(out)@.len() == old(out)@.len() + sendable.len()
                    &&& (forall|k: int|
                        0 <= k < old(out)@.len() ==> #[trigger] final(out)@[k] == old(out)@[k])
                    &&& (forall|k: int|
                        0 <= k < sendable.len() ==> (#[trigger] final(out)@[old(out)@.len()
                            + k]).message.origin == own as u16 && final(out)@[old(out)@.len()
                            + k].message.level == level as u8 && final(out)@[old(out)@.len()
                            + k].message.multisig.mview() == c && (final(out)@[old(out)@.len()
                            + k].message.individual is Some <==> ind is Some))
                }
            }),
    {
        if self.levels[level].state.send_started || self.levels[level].state.receive_completed {
            return ;
        }
        let lv = &mut self.levels[level];
        lv.start();
        if level > 0 {
            let combined = self.state.store.combined(level - 1);
            match combined {
                Some(best) => {
                    let count = self.config.peer_count;
                    self.send_update(&best, level, count, out);
                },
                None => {},
            }
        }
    }

    /// A level timeout: activation only; a level already started or
    /// already receive-completed is left entirely alone.
    pub fn on_timeout(&mut self, level: usize, out: &mut Vec<Outbound>)
        requires
            old(self).inv(),
            level < old(self).levels@.len(),
        ensures
            final(self).inv(),
            final(self).state == old(self).state,
            final(self).result == old(self).result,
            final(self).result_fired == old(self).result_fired,
            final(self).levels@[level as int].state.send_started || final(
                self).levels@[level as int].state.receive_completed,
            old(self).levels@[level as int].state.send_started || old(
                self).levels@[level as int].state.receive_completed ==> *final(self) == *old(
                self) && final(out)@ == old(out)@,
    {
        self.start_level(level, out);
    }

    /// The periodic tick: for every level above 0 whose lower levels
    /// combine, push that combined signature to the next peers in
    /// rotation, attaching the node's own individual signature until
    /// the level has received everything.
    pub fn on_update(&mut self, out: &mut Vec<Outbound>)
        requires
            old(self).inv(),
        ensures
            final(self).inv(),
            final(self).state == old(self).state,
            final(self).result == old(self).result,
            final(self).result_fired == old(self).result_fired,
            final(self).config == old(self).config,
            final(self).identities == old(self).identities,
            final(self).levels@.len() == old(self).levels@.len(),
            forall|l: int|
                0 <= l < old(self).levels@.len() ==> (#[trigger] final(
                    self).levels@[l]).state.send_started == old(
                    self).levels@[l].state.send_started && final(
                    self).levels@[l].state.receive_completed == old(
                    self).levels@[l].state.receive_completed && final(
                    self).levels@[l].state.send_signature_size == old(
                    self).levels@[l].state.send_signature_size,
            forall|k: int| 0 <= k < old(out)@.len() ==> #[trigger] final(out)@[k] == old(out)@[k],
            // every appended datagram is an update from this node for
            // a level whose lower levels combine, carrying their
            // combined multi-signature, with the own individual
            // signature attached exactly while the level receives
            forall|k: int|
                old(out)@.len() <= k < final(out)@.len() ==> ({
                    let o = #[trigger] final(out)@[k];
                    let store = old(self).state.store;
                    &&& o.message.origin == old(self).config.node_identity.id as u16
                    &&& 1 <= (o.message.level as int) && (o.message.level as int) < old(
                        self).levels@.len()
                    &&& store.spec_combined_some((o.message.level - 1) as nat)
                    &&& o.message.multisig.mview() == combine_fold(
                        store.best_views_prefix(store.lead(o.message.level as nat)))
                    &&& (o.message.individual is Some <==> !old(self).levels@[
                        o.message.level as int].state.receive_completed)
                }),
            // and a level that combines and has someone to contact
            // does get an update out
            forall|l: int|
                1 <= l < old(self).levels@.len() && old(self).state.store.spec_combined_some(
                    (l - 1) as nat) && spec_sendable(
                    old(self).identities,
                    old(self).config.node_identity.id,
                    Self::spec_update_round(
                        #[trigger] old(self).levels@[l],
                        old(self).config.update_count,
                    ),
                ).len() > 0 ==> exists|k: int|
                    old(out)@.len() <= k < final(out)@.len() && (#[trigger] final(
                        out)@[k]).message.level as int == l,
    {
        proof {
            self.state.store.spec_partitioner().lemma_levels_bound();
        }
        let mut l: usize = 1;
        while l < self.levels.len()
            invariant
                1 <= l,
                self.inv(),
                self.state == old(self).state,
                self.result == old(self).result,
                self.result_fired == old(self).result_fired,
                self.config == old(self).config,
                self.identities == old(self).identities,
                self.levels@.len() == old(self).levels@.len(),
                self.levels@.len() <= 17,
                forall|j: int|
                    0 <= j < old(self).levels@.len() && j >= l ==> #[trigger] self.levels@[j]
                        == old(self).levels@[j],
                forall|j: int|
                    0 <= j < old(self).levels@.len() ==> (#[trigger] self.levels@[
                        j]).state.send_started == old(self).levels@[j].state.send_started
                        && self.levels@[j].state.receive_completed == old(
                        self).levels@[j].state.receive_completed && self.levels@[
                        j].state.send_signature_size == old(
                        self).levels@[j].state.send_signature_size,
                out@.len() >= old(out)@.len(),
                forall|k: int| 0 <= k < old(out)@.len() ==> #[trigger] out@[k] == old(out)@[k],
                forall|k: int|
                    old(out)@.len() <= k < out@.len() ==> ({
                        let o = #[trigger] out@[k];
                        let store = old(self).state.store;
                        &&& o.message.origin == old(self).config.node_identity.id as u16
                        &&& 1 <= (o.message.level as int) && (o.message.level as int) < old(
                            self).levels@.len()
                        &&& (o.message.level as int) < l
                        &&& store.spec_combined_some((o.message.level - 1) as nat)
                        &&& o.message.multisig.mview() == combine_fold(
                            store.best_views_prefix(store.lead(o.message.level as nat)))
                        &&& (o.message.individual is Some <==> !old(self).levels@[
                            o.message.level as int].state.receive_completed)
                    }),
                forall|j: int|
                    1 <= j < l && old(self).state.store.spec_combined_some((j - 1) as nat)
                        && spec_sendable(
                        old(self).identities,
                        old(self).config.node_identity.id,
                        Self::spec_update_round(
                            #[trigger] old(self).levels@[j],
                            old(self).config.update_count,
                        ),
                    ).len() > 0 ==> exists|k: int|
                        old(out)@.len() <= k < out@.len() && (#[trigger] out@[
                            k]).message.level as int == j,
            decreases self.levels@.len() - l,
        {
            let ghost seg = out@;
            let combined = self.state.store.combined(l - 1);
            match combined {
                Some(multisig) => {
                    let count = self.config.update_count;
                    self.send_update(&multisig, l, count, out);
                    proof {
                        assert(forall|k: int| 0 <= k < seg.len() ==> #[trigger] out@[k] == seg[
                            k]);
                        assert forall|k: int|
                            seg.len() <= k < out@.len() implies ({
                            let o = #[trigger] out@[k];
                            let store = old(self).state.store;
                            &&& o.message.origin == old(self).config.node_identity.id as u16
                            &&& (o.message.level as int) == l
                            &&& o.message.multisig.mview() == combine_fold(
                                store.best_views_prefix(store.lead(l as nat)))
                            &&& (o.message.individual is Some <==> !old(self).levels@[
                                l as int].state.receive_completed)
                        }) by {
                            let k2 = k - seg.len();
                            assert(out@[seg.len() + k2] == out@[k]);
                        }
                        // witnesses for already-served levels persist,
                        // and this level's batch serves it
                        assert forall|j: int|
                            1 <= j < l + 1 && old(self).state.store.spec_combined_some(
                                (j - 1) as nat) && spec_sendable(
                                old(self).identities,
                                old(self).config.node_identity.id,
                                Self::spec_update_round(
                                    #[trigger] old(self).levels@[j],
                                    old(self).config.update_count,
                                ),
                            ).len() > 0 implies exists|k: int|
                            old(out)@.len() <= k < out@.len() && (#[trigger] out@[
                                k]).message.level as int == j by {
                            if j < l {
                                let k0 = choose|k: int|
                                    old(out)@.len() <= k < seg.len() && (#[trigger] seg[
                                        k]).message.level as int == j;
                                assert(out@[k0] == seg[k0]);
                                assert(out@[k0].message.level as int == j);
                            } else {
                                assert(out@.len() > seg.len());
                                assert(out@[seg.len() as int].message.level as int == l);
                            }
                        }
                    }
                },
                None => {},
            }
            l = l + 1;
        }
    }

    /// Picks the first highest-scoring todo, removes it, and returns
    /// it with its score; `None` exactly when every pending todo
    /// scores zero (in particular when none is pending).
    fn get_best_todo(&mut self) -> (r: Option<(Todo, usize)>)
        requires
            old(self).inv(),
        ensures
            final(self).inv(),
            final(self).state.store == old(self).state.store,
            final(self).state.done == old(self).state.done,
            final(self).levels == old(self).levels,
            final(self).result == old(self).result,
            final(self).result_fired == old(self).result_fired,
            match r {
                Some((todo, score)) => {
                    &&& score > 0
                    &&& todo.wf(old(self).state.store.num_levels())
                    &&& score == todo.spec_evaluate(old(self).state.store)
                    &&& forall|j: int|
                        0 <= j < old(self).state.todos@.len() ==> (#[trigger] old(
                            self).state.todos@[j]).spec_evaluate(old(self).state.store) <= score
                    &&& exists|i: int|
                        {
                            &&& 0 <= i < old(self).state.todos@.len()
                            &&& old(self).state.todos@[i as int] == todo
                            &&& (forall|j: int|
                                0 <= j < i ==> (#[trigger] old(self).state.todos@[
                                    j]).spec_evaluate(old(self).state.store) < score)
                            &&& final(self).state.todos@ == old(self).state.todos@.update(
                                i as int, old(self).state.todos@.last()).drop_last()
                        }
                },
                None => {
                    &&& *final(self) == *old(self)
                    &&& forall|j: int|
                        0 <= j < old(self).state.todos@.len() ==> (#[trigger] old(
                            self).state.todos@[j]).spec_evaluate(old(self).state.store) == 0
                },
            },
    {
        if self.state.todos.len() == 0 {
            return None;
        }
        let mut best_i: usize = 0;
        let mut best_score: usize = self.state.todos[0].evaluate(&self.state.store);
        let mut i: usize = 1;
        while i < self.state.todos.len()
            invariant
                1 <= i <= self.state.todos@.len(),
                best_i < i,
                self.inv(),
                best_score == self.state.todos@[best_i as int].spec_evaluate(self.state.store),
                forall|j: int|
                    0 <= j < i ==> (#[trigger] self.state.todos@[j]).spec_evaluate(
                        self.state.store) <= best_score,
                forall|j: int|
                    0 <= j < best_i ==> (#[trigger] self.state.todos@[j]).spec_evaluate(
                        self.state.store) < best_score,
                forall|j: int|
                    0 <= j < i ==> (#[trigger] self.state.todos@[j]).spec_evaluate(
                        self.state.store) >= 0,
            decreases self.state.todos@.len() - i,
        {
            let score = self.state.todos[i].evaluate(&self.state.store);
            if score > best_score {
                best_i = i;
                best_score = score;
            }
            i = i + 1;
        }
        if best_score > 0 {
            let ghost pre_todos = self.state.todos@;
            let todo = self.state.todos.swap_remove(best_i);
            proof {
                assert(pre_todos[best_i as int] == todo);
            }
            Some((todo, best_score))
        } else {
            None
        }
    }

    /// Whether applying a todo at this level has just covered every
    /// peer of the level.
    pub open spec fn spec_level_completes(self, level: usize) -> bool {
        &&& !self.levels@[level as int].state.receive_completed
        &&& self.state.store.present(level as nat)
        &&& self.state.store.best_signers(level as nat).len() == self.levels@[
            level as int].peer_ids@.len()
        &&& self.levels@[level as int].peer_ids@.len() > 0
    }

    /// After a todo was applied: if its level is now fully covered,
    /// mark it receive-completed and activate the next level; then let
    /// every higher level push a grown combined signature.
    pub fn check_completed_level(&mut self, level: usize, out: &mut Vec<Outbound>)
        requires
            old(self).inv(),
            level < old(self).levels@.len(),
        ensures
            final(self).inv(),
            final(self).state == old(self).state,
            final(self).result == old(self).result,
            final(self).result_fired == old(self).result_fired,
            final(self).config == old(self).config,
            final(self).identities == old(self).identities,
            final(self).individual == old(self).individual,
            final(self).levels@.len() == old(self).levels@.len(),
            // the level completes exactly when its best covers all
            // its peers, and then the next level starts
            final(self).levels@[level as int].state.receive_completed == (old(
                self).levels@[level as int].state.receive_completed || old(
                self).spec_level_completes(level)),
            old(self).spec_level_completes(level) && level + 1 < old(self).levels@.len()
                ==> final(self).levels@[level as int + 1].state.send_started || final(
                self).levels@[level as int + 1].state.receive_completed,
            // no other level's completion changes
            forall|l: int|
                0 <= l < old(self).levels@.len() && l != level ==> (#[trigger] final(
                    self).levels@[l]).state.receive_completed == old(
                    self).levels@[l].state.receive_completed,
            // peer lists never change, and the level's own send cursor
            // and the lower levels are untouched
            forall|l: int|
                0 <= l < old(self).levels@.len() ==> (#[trigger] final(self).levels@[l]).peer_ids@
                    == old(self).levels@[l].peer_ids@,
            final(self).levels@[level as int].state.send_peers_pos == old(
                self).levels@[level as int].state.send_peers_pos,
            forall|l: int|
                0 <= l < level ==> #[trigger] final(self).levels@[l] == old(self).levels@[l],
            // every higher level's scheduled send size is raised to a
            // strictly larger combined signature
            forall|i: int|
                level < i < old(self).levels@.len() ==> ({
                    let store = old(self).state.store;
                    let old_size = old(self).levels@[i].state.send_signature_size as int;
                    let new_size = (#[trigger] final(
                        self).levels@[i]).state.send_signature_size as int;
                    if store.spec_combined_some((i - 1) as nat) {
                        let clen = combine_fold(
                            store.best_views_prefix(store.lead(i as nat)),
                        ).signers.len() as int;
                        new_size == if clen > old_size {
                            clen
                        } else {
                            old_size
                        }
                    } else {
                        new_size == old_size
                    }
                }),
            // outbound grows only with this node's updates for levels
            // above the completed one, each carrying the combined
            // signature of everything below its level
            final(out)@.len() >= old(out)@.len(),
            forall|k: int| 0 <= k < old(out)@.len() ==> #[trigger] final(out)@[k] == old(out)@[k],
            forall|k: int|
                old(out)@.len() <= k < final(out)@.len() ==> ({
                    let o = #[trigger] final(out)@[k];
                    let store = old(self).state.store;
                    &&& o.message.origin == old(self).config.node_identity.id as u16
                    &&& level < (o.message.level as int) && (o.message.level as int) < old(
                        self).levels@.len()
                    &&& store.spec_combined_some((o.message.level - 1) as nat)
                    &&& o.message.multisig.mview() == combine_fold(
                        store.best_views_prefix(store.lead(o.message.level as nat)))
                }),
            // a grown level whose peers are all reachable does get its
            // update out
            forall|i: int|
                level < i < old(self).levels@.len() && ({
                    let store = old(self).state.store;
                    let lv = #[trigger] old(self).levels@[i];
                    &&& store.spec_combined_some((i - 1) as nat)
                    &&& combine_fold(
                        store.best_views_prefix(store.lead(i as nat)),
                    ).signers.len() > lv.state.send_signature_size
                    &&& lv.peer_ids@.len() > 0
                    &&& old(self).config.peer_count > 0
                    &&& (forall|q: int|
                        0 <= q < lv.peer_ids@.len() ==> (#[trigger] lv.peer_ids@[q]) != old(
                            self).config.node_identity.id && old(self).identities.spec_has_id(
                            lv.peer_ids@[q] as int))
                }) ==> exists|k: int|
                    old(out)@.len() <= k < final(out)@.len() && (#[trigger] final(
                        out)@[k]).message.level as int == i,
    {
        proof {
            self.state.store.spec_partitioner().lemma_levels_bound();
        }
        if !self.levels[level].state.receive_completed {
            proof {
                assert(self.state.store.level_inv(level as nat));
            }
            let best_len = match self.state.store.best(level) {
                Some(b) => b.len(),
                None => 0,
            };
            let num_peers = self.levels[level].num_peers();
            if best_len == num_peers && num_peers > 0 {
                let lv = &mut self.levels[level];
                lv.state.receive_completed = true;
                if level + 1 < self.levels.len() {
                    self.start_level(level + 1, out);
                }
            }
        }
        let ghost mid = *self;
        let ghost mid_out = out@;
        proof {
            assert(forall|l: int|
                0 <= l < old(self).levels@.len() ==> (#[trigger] mid.levels@[
                    l]).state.send_signature_size == old(
                    self).levels@[l].state.send_signature_size);
            assert(forall|l: int|
                0 <= l < old(self).levels@.len() ==> (#[trigger] mid.levels@[l]).peer_ids@
                    == old(self).levels@[l].peer_ids@);
            assert forall|k: int|
                old(out)@.len() <= k < mid_out.len() implies ({
                let o = #[trigger] mid_out[k];
                let store = old(self).state.store;
                &&& o.message.origin == old(self).config.node_identity.id as u16
                &&& level < (o.message.level as int) && (o.message.level as int) < old(
                    self).levels@.len()
                &&& store.spec_combined_some((o.message.level - 1) as nat)
                &&& o.message.multisig.mview() == combine_fold(
                    store.best_views_prefix(store.lead(o.message.level as nat)))
            }) by {
                let k2 = k - old(out)@.len();
                assert(out@[old(out)@.len() + k2] == mid_out[k]);
                assert(mid_out[k].message.level == (level + 1) as u8);
            }
        }
        let mut i: usize = level + 1;
        while i < self.levels.len()
            invariant
                level + 1 <= i,
                self.inv(),
                self.state == mid.state,
                self.result == mid.result,
                self.result_fired == mid.result_fired,
                self.config == mid.config,
                self.identities == mid.identities,
                self.levels@.len() == mid.levels@.len(),
                mid.levels@.len() <= 17,
                mid.state == old(self).state,
                mid.config == old(self).config,
                mid.identities == old(self).identities,
                mid.individual == old(self).individual,
                self.individual == mid.individual,
                mid.levels@.len() == old(self).levels@.len(),
                forall|l: int|
                    0 <= l < mid.levels@.len() ==> (#[trigger] self.levels@[
                        l]).state.receive_completed == mid.levels@[l].state.receive_completed,
                forall|l: int|
                    0 <= l < mid.levels@.len() && mid.levels@[l].state.send_started ==> (
                    #[trigger] self.levels@[l]).state.send_started,
                forall|l: int|
                    0 <= l < mid.levels@.len() ==> (#[trigger] self.levels@[l]).peer_ids@
                        == old(self).levels@[l].peer_ids@,
                forall|l: int|
                    0 <= l <= level && l < mid.levels@.len() ==> #[trigger] self.levels@[l]
                        == mid.levels@[l],
                // send sizes: evolved below i, untouched from i up
                forall|j: int|
                    i <= j < mid.levels@.len() ==> (#[trigger] self.levels@[
                        j]).state.send_signature_size == old(
                        self).levels@[j].state.send_signature_size,
                forall|j: int|
                    level < j < i ==> ({
                        let store = old(self).state.store;
                        let old_size = old(self).levels@[j].state.send_signature_size as int;
                        let new_size = (#[trigger] self.levels@[
                            j]).state.send_signature_size as int;
                        if store.spec_combined_some((j - 1) as nat) {
                            let clen = combine_fold(
                                store.best_views_prefix(store.lead(j as nat)),
                            ).signers.len() as int;
                            new_size == if clen > old_size {
                                clen
                            } else {
                                old_size
                            }
                        } else {
                            new_size == old_size
                        }
                    }),
                forall|j: int|
                    0 <= j <= level ==> (#[trigger] self.levels@[j]).state.send_signature_size
                        == old(self).levels@[j].state.send_signature_size,
                out@.len() >= mid_out.len(),
                mid_out.len() >= old(out)@.len(),
                forall|k: int| 0 <= k < mid_out.len() ==> #[trigger] out@[k] == mid_out[k],
                forall|k: int| 0 <= k < old(out)@.len() ==> #[trigger] mid_out[k] == old(out)@[k],
                forall|k: int|
                    old(out)@.len() <= k < out@.len() ==> ({
                        let o = #[trigger] out@[k];
                        let store = old(self).state.store;
                        &&& o.message.origin == mid.config.node_identity.id as u16
                        &&& level < (o.message.level as int) && (o.message.level as int)
                            < mid.levels@.len()
                        &&& store.spec_combined_some((o.message.level - 1) as nat)
                        &&& o.message.multisig.mview() == combine_fold(
                            store.best_views_prefix(store.lead(o.message.level as nat)))
                    }),
                forall|j: int|
                    level < j < i && ({
                        let store = old(self).state.store;
                        let lv = #[trigger] old(self).levels@[j];
                        &&& store.spec_combined_some((j - 1) as nat)
                        &&& combine_fold(
                            store.best_views_prefix(store.lead(j as nat)),
                        ).signers.len() > lv.state.send_signature_size
                        &&& lv.peer_ids@.len() > 0
                        &&& old(self).config.peer_count > 0
                        &&& (forall|q: int|
                            0 <= q < lv.peer_ids@.len() ==> (#[trigger] lv.peer_ids@[q]) != old(
                                self).config.node_identity.id && old(
                                self).identities.spec_has_id(lv.peer_ids@[q] as int))
                    }) ==> exists|k: int|
                        old(out)@.len() <= k < out@.len() && (#[trigger] out@[
                            k]).message.level as int == j,
            decreases self.levels@.len() - i,
        {
            let ghost seg = out@;
            let combined = self.state.store.combined(i - 1);
            match combined {
                Some(multisig) => {
                    let grown = self.levels[i].update_signature_to_send(&multisig);
                    if grown {
                        let count = self.config.peer_count;
                        let ghost lv_now = self.levels@[i as int];
                        self.send_update(&multisig, i, count, out);
                        proof {
                            assert forall|k: int|
                                seg.len() <= k < out@.len() implies ({
                                let o = #[trigger] out@[k];
                                let store = old(self).state.store;
                                &&& o.message.origin == mid.config.node_identity.id as u16
                                &&& level < (o.message.level as int) && (o.message.level as int)
                                    < mid.levels@.len()
                                &&& store.spec_combined_some((o.message.level - 1) as nat)
                                &&& o.message.multisig.mview() == combine_fold(
                                    store.best_views_prefix(
                                        store.lead(o.message.level as nat)))
                            }) by {
                                let k2 = k - seg.len();
                                assert(out@[seg.len() + k2] == out@[k]);
                                assert(out@[k].message.level == i as u8);
                            }
                            // a fully reachable peer list yields a
                            // nonempty batch
                            let store = old(self).state.store;
                            let lv_old = old(self).levels@[i as int];
                            if lv_old.peer_ids@.len() > 0 && old(self).config.peer_count > 0
                                && (forall|q: int|
                                0 <= q < lv_old.peer_ids@.len() ==> (#[trigger] lv_old.peer_ids@[
                                    q]) != old(self).config.node_identity.id && old(
                                    self).identities.spec_has_id(lv_old.peer_ids@[q] as int)) {
                                let ids = Self::spec_update_round(lv_now, count);
                                let n = lv_now.peer_ids@.len() as int;
                                assert(lv_now.peer_ids@ == lv_old.peer_ids@);
                                assert(ids.len() > 0);
                                assert forall|q: int|
                                    0 <= q < ids.len() implies (#[trigger] ids[q]) != old(
                                    self).config.node_identity.id && old(
                                    self).identities.spec_has_id(ids[q] as int) by {
                                    let pos = lv_now.state.send_peers_pos as int;
                                    assert(0 <= (pos + q) % n < n) by (nonlinear_arith)
                                        requires
                                            n > 0,
                                            pos >= 0,
                                            q >= 0,
                                    ;
                                    assert(ids[q] == lv_now.peer_ids@[(pos + q) % n]);
                                }
                                lemma_sendable_full(
                                    old(self).identities,
                                    old(self).config.node_identity.id,
                                    ids,
                                );
                                assert(out@.len() == seg.len() + ids.len());
                                assert(out@[seg.len() as int + 0] == out@[seg.len() as int]);
                                assert(out@[seg.len() as int].message.level == i as u8);
                            }
                            // earlier levels' emissions persist under
                            // the append
                            assert(forall|k: int|
                                0 <= k < seg.len() ==> #[trigger] out@[k] == seg[k]);
                            assert forall|j: int|
                                level < j < i && ({
                                    let store = old(self).state.store;
                                    let lv = #[trigger] old(self).levels@[j];
                                    &&& store.spec_combined_some((j - 1) as nat)
                                    &&& combine_fold(
                                        store.best_views_prefix(store.lead(j as nat)),
                                    ).signers.len() > lv.state.send_signature_size
                                    &&& lv.peer_ids@.len() > 0
                                    &&& old(self).config.peer_count > 0
                                    &&& (forall|q: int|
                                        0 <= q < lv.peer_ids@.len() ==> (#[trigger] lv.peer_ids@[
                                            q]) != old(self).config.node_identity.id && old(
                                            self).identities.spec_has_id(
                                            lv.peer_ids@[q] as int))
                                }) implies exists|k: int|
                                old(out)@.len() <= k < out@.len() && (#[trigger] out@[
                                    k]).message.level as int == j by {
                                let k0 = choose|k: int|
                                    old(out)@.len() <= k < seg.len() && (#[trigger] seg[
                                        k]).message.level as int == j;
                                assert(out@[k0] == seg[k0]);
                                assert(out@[k0].message.level as int == j);
                            }
                        }
                    }
                },
                None => {},
            }
            i = i + 1;
        }
    }

    /// Fires the final signature when the combined weight over all
    /// levels reaches the threshold; at most once, ever.
    pub fn check_final_signature(&mut self)
        requires
            old(self).inv(),
        ensures
            final(self).inv(),
            final(self).levels == old(self).levels,
            final(self).state.todos == old(self).state.todos,
            final(self).state.store == old(self).state.store,
            final(self).config == old(self).config,
            final(self).identities == old(self).identities,
            final(self).individual == old(self).individual,
            // fired at most once: a fired agent never fires again
            old(self).result_fired ==> final(self).result == old(self).result && final(
                self).result_fired && final(self).state.done,
            // fire exactly on reaching the threshold
            !old(self).result_fired ==> {
                let top = (old(self).state.store.num_levels() - 1) as nat;
                if old(self).state.store.spec_combined_some(top) {
                    let c = crate::multisig::combine_fold(
                        old(self).state.store.best_views_prefix(
                            old(self).state.store.lead(top + 1)));
                    if spec_set_weight(old(self).identities.identities@, c.signers) >= old(
                        self).config.threshold {
                        final(self).result_fired && final(self).state.done && match final(
                            self).result {
                            Some(m) => m.mview() == c,
                            None => false,
                        }
                    } else {
                        final(self).result == old(self).result && !final(self).result_fired
                            && !final(self).state.done
                    }
                } else {
                    final(self).result == old(self).result && !final(self).result_fired && !final(
                        self).state.done
                }
            },
    {
        let top = self.levels.len() - 1;
        let combined = self.state.store.combined(top);
        match combined {
            Some(combined) => {
                let votes = crate::verifiers::weight_of_signers(
                    &self.identities, &combined.signers);
                if votes >= self.config.threshold {
                    if !self.result_fired {
                        self.result_fired = true;
                        self.state.done = true;
                        self.result = Some(combined);
                    }
                    // a second reach of the threshold is dropped
                }
            },
            None => {},
        }
    }

    /// A multi-signature either remains pending, or its application
    /// grew its level's best over the snapshot, or it is a lone
    /// signer, or it holds a signer outside its level.
    pub open spec fn spec_multi_settled(self, snap: ReplaceStore, t: Todo) -> bool {
        match t {
            Todo::Multi { signature, level, .. } => {
                ||| self.state.todos@.contains(t)
                ||| self.state.store.best_signers(level as nat).len() > snap.best_signers(
                    level as nat).len()
                ||| signature.signers_set().len() == 1
                ||| !snap.set_in_level(signature.signers_set(), level as nat)
            },
            Todo::Individual { .. } => true,
        }
    }

    /// An individual signature either remains pending or has left its
    /// mark: the store has its origin verified at its level, unless
    /// the origin lies outside the level.
    pub open spec fn spec_individual_settled(self, t: Todo) -> bool {
        match t {
            Todo::Individual { level, origin, .. } => {
                ||| self.state.todos@.contains(t)
                ||| self.state.store.verified_at(level as nat).contains(origin as int)
                ||| !self.state.store.spec_partitioner().in_range(origin, level as nat)
            },
            Todo::Multi { .. } => true,
        }
    }

    /// A positively scoring candidate accepted against no best merges
    /// to something nonempty.
    proof fn lemma_merged_nonempty(store: ReplaceStore, c: Set<int>, l: nat)
        requires
            store.inv(),
            l < store.num_levels(),
            c.finite(),
            store.spec_evaluate(c, l) > 0,
            store.best_at(l) is None,
        ensures
            store.spec_merged(c, l).len() > 0,
    {
        assert(store.level_inv(l));
        let iv = store.verified_at(l);
        let wi = c.union(iv);
        assert(store.spec_merged(c, l) =~= wi);
        if wi.len() == 0 {
            wi.lemma_len0_is_empty();
            assert(c =~= Set::<int>::empty());
            assert(c.len() == 0);
        }
    }

    /// The drain loop: repeatedly apply the highest-scoring todo and
    /// let it complete levels and possibly finish the protocol, until
    /// nothing worth applying is pending. On return every remaining
    /// todo scores zero; a queue that already scored all zero leaves
    /// the agent and the outbound vector untouched.
    pub fn process_todos(&mut self, out: &mut Vec<Outbound>)
        requires
            old(self).inv(),
        ensures
            final(self).inv(),
            // the done flag only ever rises
            old(self).state.done ==> final(self).state.done,
            old(self).result_fired ==> final(self).result_fired && final(self).result == old(
                self).result,
            // level bests only ever grow, verified sets too
            final(self).state.store.num_levels() == old(self).state.store.num_levels(),
            final(self).state.store.spec_partitioner() == old(
                self).state.store.spec_partitioner(),
            forall|k: nat|
                k < old(self).state.store.num_levels() ==> final(
                    self).state.store.best_signers(k).len() >= old(self).state.store.best_signers(
                    k).len(),
            forall|k: nat|
                k < old(self).state.store.num_levels() ==> old(self).state.store.verified_at(
                    k).subset_of(final(self).state.store.verified_at(k)),
            // drained: nothing pending is worth applying any more
            forall|j: int|
                0 <= j < final(self).state.todos@.len() ==> (#[trigger] final(
                    self).state.todos@[j]).spec_evaluate(final(self).state.store) == 0,
            // a queue with nothing to do leaves everything untouched
            (forall|j: int|
                0 <= j < old(self).state.todos@.len() ==> (#[trigger] old(
                    self).state.todos@[j]).spec_evaluate(old(self).state.store) == 0) ==> *final(
                self) == *old(self) && final(out)@ == old(out)@,
            // every queued individual signature settles
            forall|j: int|
                0 <= j < old(self).state.todos@.len() ==> final(self).spec_individual_settled(
                    #[trigger] old(self).state.todos@[j]),
            // and every queued multi-signature settles
            forall|j: int|
                0 <= j < old(self).state.todos@.len() ==> final(self).spec_multi_settled(
                    old(self).state.store, #[trigger] old(self).state.todos@[j]),
    {
        loop
            invariant
                self.inv(),
                old(self).inv(),
                old(self).state.done ==> self.state.done,
                old(self).result_fired ==> self.result_fired && self.result == old(self).result,
                self.state.store.num_levels() == old(self).state.store.num_levels(),
                self.state.store.spec_partitioner() == old(self).state.store.spec_partitioner(),
                forall|k: nat|
                    k < old(self).state.store.num_levels() ==> self.state.store.best_signers(
                        k).len() >= old(self).state.store.best_signers(k).len(),
                forall|k: nat|
                    k < old(self).state.store.num_levels() ==> old(
                        self).state.store.verified_at(k).subset_of(self.state.store.verified_at(
                        k)),
                (forall|j: int|
                    0 <= j < old(self).state.todos@.len() ==> (#[trigger] old(
                        self).state.todos@[j]).spec_evaluate(old(self).state.store) == 0)
                    ==> *self == *old(self) && out@ == old(out)@,
                forall|j: int|
                    0 <= j < old(self).state.todos@.len() ==> self.spec_individual_settled(
                        #[trigger] old(self).state.todos@[j]),
                forall|j: int|
                    0 <= j < old(self).state.todos@.len() ==> self.spec_multi_settled(
                        old(self).state.store, #[trigger] old(self).state.todos@[j]),
            decreases self.state.todos@.len(),
        {
            let ghost pre = *self;
            let next = self.get_best_todo();
            match next {
                Some((todo, _score)) => {
                    proof {
                        // the removed todo is the only value that can
                        // have left the queue
                        let i = choose|i: int|
                            {
                                &&& 0 <= i < pre.state.todos@.len()
                                &&& pre.state.todos@[i as int] == todo
                                &&& (forall|j: int|
                                    0 <= j < i ==> (#[trigger] pre.state.todos@[
                                        j]).spec_evaluate(pre.state.store) < _score)
                                &&& self.state.todos@ == pre.state.todos@.update(
                                    i as int, pre.state.todos@.last()).drop_last()
                            };
                        assert forall|t: Todo|
                            pre.state.todos@.contains(t) && t != todo implies self.state.todos@.contains(
                            t) by {
                            let j = choose|j: int|
                                0 <= j < pre.state.todos@.len() && pre.state.todos@[j] == t;
                            if j < pre.state.todos@.len() - 1 {
                                if j == i {
                                    assert(false);
                                } else {
                                    assert(self.state.todos@[j] == t);
                                }
                            } else {
                                if i == j {
                                    assert(false);
                                } else {
                                    assert(self.state.todos@[i] == t);
                                }
                            }
                        }
                    }
                    let ghost mid = *self;
                    let level = todo.level();
                    todo.put(&mut self.state.store);
                    proof {
                        assert(self.inv());
                        assert forall|j: int|
                            0 <= j < old(self).state.todos@.len() implies self.spec_individual_settled(
                            #[trigger] old(self).state.todos@[j]) by {
                            let t = old(self).state.todos@[j];
                            match t {
                                Todo::Individual { signature, level: tl, origin } => {
                                    if mid.spec_individual_settled(t) {
                                        if mid.state.todos@.contains(t) && t != todo {
                                        } else if mid.state.todos@.contains(t) && t == todo {
                                            // just applied: the put marks it
                                        }
                                    }
                                },
                                Todo::Multi { .. } => {},
                            }
                        }
                        assert forall|j: int|
                            0 <= j < old(self).state.todos@.len() implies self.spec_multi_settled(
                            old(self).state.store, #[trigger] old(self).state.todos@[j]) by {
                            let snap = old(self).state.store;
                            let t = old(self).state.todos@[j];
                            match t {
                                Todo::Multi { signature, level: tl, .. } => {
                                    let c = signature.signers_set();
                                    // before this iteration, t was settled;
                                    // the removal dichotomy narrows the
                                    // queued case to t == todo
                                    assert(pre.spec_multi_settled(snap, t));
                                    assert(t.wf(old(self).state.store.num_levels()));
                                    assert((tl as nat) < mid.state.store.num_levels());
                                    if pre.state.todos@.contains(t) && !mid.state.todos@.contains(
                                        t) {
                                        assert(t == todo);
                                    }
                                    if mid.state.todos@.contains(t) {
                                        // still queued: the put leaves the
                                        // queue alone
                                        assert(self.state.todos@.contains(t));
                                    } else if !pre.state.todos@.contains(t) {
                                        // settled earlier by another route;
                                        // best lengths only grow
                                        assert(self.state.store.best_signers(tl as nat).len()
                                            >= mid.state.store.best_signers(tl as nat).len());
                                    } else {
                                        // t == todo: just applied against
                                        // the mid store
                                        assert(t == todo);
                                        assert(signature.wf());
                                        assert(_score == t.spec_evaluate(mid.state.store));
                                        assert(mid.state.store.spec_evaluate(c, tl as nat) > 0);
                                        if snap.set_in_level(c, tl as nat) {
                                            assert(mid.state.store.set_in_level(c, tl as nat));
                                            mid.state.store.lemma_positive_accepts(c, tl as nat);
                                            if mid.state.store.spec_accepts(c, tl as nat) {
                                                let merged = mid.state.store.spec_merged(
                                                    c, tl as nat);
                                                assert(self.state.store.best_signers(tl as nat)
                                                    == merged);
                                                match mid.state.store.best_at(tl as nat) {
                                                    Some(b) => {
                                                        assert(merged.len()
                                                            > mid.state.store.best_signers(
                                                            tl as nat).len());
                                                        assert(mid.state.store.best_signers(
                                                            tl as nat).len()
                                                            >= snap.best_signers(
                                                            tl as nat).len());
                                                    },
                                                    None => {
                                                        Self::lemma_merged_nonempty(
                                                            mid.state.store, c, tl as nat);
                                                        assert(mid.state.store.best_signers(
                                                            tl as nat) =~= Set::<int>::empty());
                                                        assert(snap.best_signers(
                                                            tl as nat).len() == 0);
                                                    },
                                                }
                                                assert(self.state.store.best_signers(
                                                    tl as nat).len() > snap.best_signers(
                                                    tl as nat).len());
                                            } else {
                                                assert(c.len() == 1);
                                            }
                                        }
                                    }
                                },
                                Todo::Individual { .. } => {},
                            }
                        }
                    }
                    if level < self.levels.len() {
                        self.check_completed_level(level, out);
                    }
                    self.check_final_signature();
                },
                None => {
                    return ;
                },
            }
        }
    }

    /// Whether the roster behind the verifier answers for this
    /// multi-signature: every claimed signer known, and the aggregate
    /// exactly the fold of their signatures on the message hash.
    pub open spec fn spec_multisig_valid(self, m: MultiSignature) -> bool {
        let reg = self.verifier.identities;
        &&& !crate::verifiers::spec_has_unknown(reg, m.signers_set())
        &&& m.signature.parts_ms() == crate::verifiers::spec_expected_sigs(
            reg.identities@,
            m.signers_set(),
            self.verifier.message_hash@,
        ).to_multiset()
    }

    /// Whether the roster behind the verifier answers for this
    /// individual signature from this origin.
    pub open spec fn spec_individual_valid(self, bytes: Seq<u8>, origin: usize) -> bool {
        let reg = self.verifier.identities;
        &&& reg.spec_has_id(origin as int)
        &&& bytes == crate::bls::sign_of(
            reg.identities@[reg.spec_index_of(origin as int)].public_key.bytes@,
            self.verifier.message_hash@,
        )
    }

    /// One inbound message: dropped whole when the agent is done, the
    /// level is unknown, or the level no longer receives; otherwise
    /// its multi-signature and optional individual signature are
    /// verified, queued exactly when valid, and the drain loop runs.
    pub fn on_message(&mut self, message: Message, out: &mut Vec<Outbound>)
        requires
            old(self).inv(),
            message.wf(),
        ensures
            final(self).inv(),
            // the three drop cases leave the agent and the outbound
            // vector untouched
            old(self).state.done ==> *final(self) == *old(self) && final(out)@ == old(out)@,
            message.level as int >= old(self).levels@.len() ==> *final(self) == *old(self)
                && final(out)@ == old(out)@,
            !old(self).state.done && (message.level as int) < old(self).levels@.len() && old(
                self).levels@[message.level as int].state.receive_completed ==> *final(self)
                == *old(self) && final(out)@ == old(out)@,
            old(self).result_fired ==> final(self).result_fired && final(self).result == old(
                self).result,
            // level bests only ever grow, verified sets too
            final(self).state.store.num_levels() == old(self).state.store.num_levels(),
            forall|k: nat|
                k < old(self).state.store.num_levels() ==> final(
                    self).state.store.best_signers(k).len() >= old(self).state.store.best_signers(
                    k).len(),
            forall|k: nat|
                k < old(self).state.store.num_levels() ==> old(self).state.store.verified_at(
                    k).subset_of(final(self).state.store.verified_at(k)),
            // on the pass-through, the drain ran to exhaustion
            !old(self).state.done && (message.level as int) < old(self).levels@.len() && !old(
                self).levels@[message.level as int].state.receive_completed ==> forall|j: int|
                0 <= j < final(self).state.todos@.len() ==> (#[trigger] final(
                    self).state.todos@[j]).spec_evaluate(final(self).state.store) == 0,
            // a message that contributes nothing, met by a queue with
            // nothing left to do, changes nothing at all
            (!old(self).state.done && (message.level as int) < old(self).levels@.len() && !old(
                self).levels@[message.level as int].state.receive_completed && !old(
                self).spec_multisig_valid(message.multisig) && (match message.individual {
                Some(sig) => !old(self).spec_individual_valid(
                    sig.bytes@,
                    message.origin as usize,
                ),
                None => true,
            }) && (forall|j: int|
                0 <= j < old(self).state.todos@.len() ==> (#[trigger] old(
                    self).state.todos@[j]).spec_evaluate(old(self).state.store) == 0)) ==> *final(
                self) == *old(self) && final(out)@ == old(out)@,
            // a delivery whose contributions are all already worthless
            // (a duplicate, in particular) changes neither the store,
            // nor the levels, nor what is sent, nor the done flag
            (!old(self).state.done && (message.level as int) < old(self).levels@.len() && !old(
                self).levels@[message.level as int].state.receive_completed && (forall|j: int|
                0 <= j < old(self).state.todos@.len() ==> (#[trigger] old(
                    self).state.todos@[j]).spec_evaluate(old(self).state.store) == 0) && (old(
                self).spec_multisig_valid(message.multisig) ==> old(
                self).state.store.spec_evaluate(
                message.multisig.signers_set(),
                message.level as nat,
            ) == 0) && (match message.individual {
                Some(sig) => old(self).spec_individual_valid(sig.bytes@, message.origin as usize)
                    ==> old(self).state.store.spec_evaluate_individual(
                    sig.bytes@,
                    message.level as nat,
                    message.origin as int,
                ) == 0,
                None => true,
            })) ==> final(self).state.store == old(self).state.store && final(self).levels == old(
                self).levels && final(self).state.done == old(self).state.done && final(
                self).result == old(self).result && final(out)@ == old(out)@,
            // a valid multi-signature is absorbed: afterwards it scores
            // nothing against the final store, or its application grew
            // the level's best, or it is a lone signer, or it holds a
            // signer outside the level
            ({
                let lvl = message.level as nat;
                (!old(self).state.done && (message.level as int) < old(self).levels@.len()
                    && !old(self).levels@[message.level as int].state.receive_completed && old(
                    self).spec_multisig_valid(message.multisig)) ==> {
                    ||| final(self).state.store.spec_evaluate(
                        message.multisig.signers_set(), lvl) == 0
                    ||| final(self).state.store.best_signers(lvl).len() > old(
                        self).state.store.best_signers(lvl).len()
                    ||| message.multisig.signers_set().len() == 1
                    ||| !old(self).state.store.set_in_level(
                        message.multisig.signers_set(), lvl)
                }
            }),
            // a valid individual signature is absorbed: afterwards its
            // origin is verified at the level, or it lies outside the
            // level, or the store values it at nothing
            ({
                let lvl = message.level as nat;
                let origin = message.origin as usize;
                (!old(self).state.done && (message.level as int) < old(self).levels@.len()
                    && !old(self).levels@[message.level as int].state.receive_completed
                    && message.individual is Some && old(self).spec_individual_valid(
                    message.individual->0.bytes@,
                    origin,
                )) ==> {
                    ||| final(self).state.store.verified_at(lvl).contains(origin as int)
                    ||| !old(self).state.store.spec_partitioner().in_range(origin, lvl)
                    ||| final(self).state.store.spec_evaluate_individual(
                        message.individual->0.bytes@, lvl, origin as int) == 0
                }
            }),
    {
        if self.state.done {
            return ;
        }
        let origin = message.origin as usize;
        let level = message.level as usize;
        if level >= self.levels.len() {
            // invalid level: drop
            return ;
        }
        if self.levels[level].state.receive_completed {
            return ;
        }
        // verify the multi-signature, without the threshold check
        let ghost mut queued_multi: Option<Todo> = None;
        let multisig_result = self.verifier.verify_multisig(&message.multisig, false);
        let ghost mr = multisig_result;
        match multisig_result {
            VerifyResult::Valid { votes } => {
                let todo = Todo::Multi { signature: message.multisig, level, votes };
                proof {
                    queued_multi = Some(todo);
                }
                self.state.todos.push(todo);
            },
            _ => {
                // rejected signature: drop
            },
        }
        let ghost multi_idx = self.state.todos@.len() - 1;
        proof {
            if old(self).spec_multisig_valid(message.multisig) {
                assert(queued_multi is Some);
                assert(self.state.todos@[multi_idx as int] == queued_multi->0);
            }
        }
        // verify the individual signature, if present
        let ghost mut queued_individual: Option<Todo> = None;
        match message.individual {
            Some(sig) => {
                let individual_result = self.verifier.verify_individual(&sig, origin);
                let ghost ir = individual_result;
                match individual_result {
                    VerifyResult::Valid { .. } => {
                        let todo = Todo::Individual { signature: sig, level, origin };
                        proof {
                            queued_individual = Some(todo);
                        }
                        self.state.todos.push(todo);
                    },
                    _ => {},
                }
                proof {
                    if old(self).spec_individual_valid(message.individual->0.bytes@, origin) {
                        assert(queued_individual is Some);
                        assert(self.state.todos@.last() == queued_individual->0);
                    }
                }
            },
            None => {},
        }
        let ghost queue = self.state.todos@;
        self.process_todos(out);
        proof {
            if old(self).spec_multisig_valid(message.multisig) {
                // the valid multi-signature was queued; the drain
                // settled it
                let t = queued_multi->0;
                assert(queue[multi_idx as int] == t);
                assert(self.spec_multi_settled(old(self).state.store, t));
                match t {
                    Todo::Multi { signature, level: tl, .. } => {
                        assert(signature == message.multisig);
                        assert(tl == message.level as usize);
                        if self.state.todos@.contains(t) {
                            let j = choose|j: int|
                                0 <= j < self.state.todos@.len() && self.state.todos@[j] == t;
                            assert(self.state.todos@[j].spec_evaluate(self.state.store) == 0);
                            assert(t.spec_evaluate(self.state.store) == 0);
                        }
                    },
                    Todo::Individual { .. } => {
                        assert(false);
                    },
                }
            }
            if message.individual is Some && old(self).spec_individual_valid(
                message.individual->0.bytes@,
                origin,
            ) {
                // the valid individual was queued last; the drain
                // settled it
                let t = queued_individual->0;
                assert(queue[queue.len() - 1] == t);
                assert(self.spec_individual_settled(t));
                match t {
                    Todo::Individual { signature, level: tl, origin: to } => {
                        assert(signature.bytes@ == message.individual->0.bytes@);
                        assert(tl == message.level as usize);
                        assert(to == message.origin as usize);
                        if self.state.todos@.contains(t) {
                            let j = choose|j: int|
                                0 <= j < self.state.todos@.len() && self.state.todos@[j] == t;
                            assert(self.state.todos@[j].spec_evaluate(self.state.store) == 0);
                            assert(t.spec_evaluate(self.state.store) == 0);
                        }
                    },
                    Todo::Multi { .. } => {
                        assert(false);
                    },
                }
            }
        }
    }

    /// Startup: put the node's own individual signature into the
    /// store, run the completion checks, and push a first update for
    /// level 0.
    pub fn start(&mut self, out: &mut Vec<Outbound>)
        requires
            old(self).inv(),
        ensures
            final(self).inv(),
            // the node's own signature is in the store
            final(self).state.store.verified_at(0).contains(
                old(self).config.node_identity.id as int),
            final(self).state.store.present(0),
            old(self).result_fired ==> final(self).result_fired && final(self).result == old(
                self).result,
            forall|k: int| 0 <= k < old(out)@.len() ==> #[trigger] final(out)@[k] == old(out)@[k],
            forall|k: int|
                old(out)@.len() <= k < final(out)@.len() ==> (#[trigger] final(
                    out)@[k]).message.origin == old(self).config.node_identity.id as u16,
            // the closing level-0 round is emitted, carrying exactly
            // the node's own singleton multi-signature
            ({
                let own = old(self).config.node_identity.id;
                let lv0 = old(self).levels@[0];
                let ids = Self::spec_update_round(lv0, old(self).config.peer_count);
                let sendable = spec_sendable(old(self).identities, own, ids);
                &&& final(out)@.len() >= old(out)@.len() + sendable.len()
                &&& (forall|k: int|
                    final(out)@.len() - sendable.len() <= k < final(out)@.len() ==> ({
                        let o = #[trigger] final(out)@[k];
                        &&& o.message.origin == own as u16
                        &&& o.message.level == 0u8
                        &&& o.message.multisig.parts() == seq![old(self).individual.bytes@]
                        &&& o.message.multisig.signers_set() == Set::<int>::empty().insert(
                            own as int)
                    }))
                &&& (forall|k: int|
                    old(out)@.len() <= k < final(out)@.len() - sendable.len() ==> 0 < ((
                    #[trigger] final(out)@[k]).message.level as int) && (final(
                    out)@[k].message.level as int) < old(self).levels@.len())
            }),
    {
        let own_id = self.config.node_identity.id;
        let todo = Todo::Individual {
            signature: self.individual.clone(),
            level: 0,
            origin: own_id,
        };
        proof {
            assert(self.state.store.spec_partitioner().in_range(own_id, 0));
        }
        todo.put(&mut self.state.store);
        proof {
            assert(self.state.store.verified_at(0).contains(own_id as int));
            assert(self.state.store.present(0));
        }
        self.check_completed_level(0, out);
        self.check_final_signature();
        let first = MultiSignature::from_individual(&self.individual, own_id);
        let count = self.config.peer_count;
        let ghost pre_update = out@;
        proof {
            // the level-0 round is still the one of the starting state
            assert(self.levels@[0].peer_ids@ == old(self).levels@[0].peer_ids@);
            assert(self.levels@[0].state.send_peers_pos == old(
                self).levels@[0].state.send_peers_pos);
            assert(Self::spec_update_round(self.levels@[0], count) == Self::spec_update_round(
                old(self).levels@[0], count)) by {
                assert(Self::spec_update_round(self.levels@[0], count)
                    =~= Self::spec_update_round(old(self).levels@[0], count));
            }
        }
        self.send_update(&first, 0, count, out);
        proof {
            let own = old(self).config.node_identity.id;
            let ids = Self::spec_update_round(old(self).levels@[0], count);
            let sendable = spec_sendable(old(self).identities, own, ids);
            assert(out@.len() == pre_update.len() + sendable.len());
            assert forall|k: int|
                pre_update.len() <= k < out@.len() implies ({
                let o = #[trigger] out@[k];
                &&& o.message.origin == own as u16
                &&& o.message.level == 0u8
                &&& o.message.multisig.parts() == seq![old(self).individual.bytes@]
                &&& o.message.multisig.signers_set() == Set::<int>::empty().insert(own as int)
            }) by {
                let k2 = k - pre_update.len();
                assert(out@[pre_update.len() + k2] == out@[k]);
                assert(out@[k].message.multisig.mview() == first.mview());
            }
        }
    }
}

} // verus!
