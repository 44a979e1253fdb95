use handel::agent::{HandelAgent, Outbound};
use handel::bls::{KeyPair, PublicKey, SecretKey, Signature};
use handel::config::Config;
use handel::identity::{Identity, IdentityRegistry, NetAddress};
use handel::message::Message;
use handel::multisig::MultiSignature;

fn secret(id: usize) -> Vec<u8> {
    vec![id as u8; 8]
}

fn keypair(id: usize) -> KeyPair {
    KeyPair::from_secret(SecretKey { bytes: secret(id) })
}

fn address(id: usize) -> NetAddress {
    NetAddress { ip: vec![127, 0, 0, 1], port: 12000 + id as u16 }
}

fn registry(n: usize) -> IdentityRegistry {
    let mut reg = IdentityRegistry::new();
    for id in 0..n {
        reg.insert(Identity::new(
            id,
            PublicKey { bytes: secret(id) },
            address(id),
            1,
        ));
    }
    reg
}

fn hash() -> Vec<u8> {
    vec![7u8; 32]
}

fn sign(id: usize) -> Signature {
    keypair(id).sign_hash(&hash())
}

fn config(id: usize, threshold: usize) -> Config {
    Config {
        threshold,
        message_hash: hash(),
        node_identity: Identity::new(id, PublicKey { bytes: secret(id) }, address(id), 1),
        disable_shuffling: true,
        update_count: 1,
        update_period: 100,
        timeout: 500,
        peer_count: 10,
        key_pair: keypair(id),
    }
}

/// The level of `id` as node 0 of an 8-node roster sees it.
fn level_of(id: usize) -> usize {
    match id {
        1 => 1,
        2 | 3 => 2,
        _ => 3,
    }
}

fn individual_message(id: usize) -> Message {
    Message {
        origin: id as u16,
        level: level_of(id) as u8,
        multisig: MultiSignature::from_individual(&sign(id), id),
        individual: Some(sign(id)),
    }
}

#[test]
fn aggregation_reaches_threshold() {
    // N=8, threshold=6, unit weights, no shuffling. Node 0 receives
    // individual signatures from 1..7 in order; it becomes done
    // exactly when the combined weight reaches 6, with signers
    // {0,...,5}.
    let mut agent = HandelAgent::new(config(0, 6), registry(8));
    let mut out: Vec<Outbound> = Vec::new();
    agent.start(&mut out);
    assert!(!agent.state.done);

    for id in 1..8usize {
        let was_done = agent.state.done;
        agent.on_message(individual_message(id), &mut out);
        if id < 5 {
            assert!(!agent.state.done, "done too early at id {}", id);
        }
        if id >= 5 {
            assert!(agent.state.done, "not done after id {}", id);
        }
        if was_done {
            // a message to a finished agent changes nothing
            assert!(agent.state.done);
        }
    }

    let final_sig = agent.final_signature().expect("final signature");
    assert_eq!(final_sig.len(), 6);
    for id in 0..6usize {
        assert!(final_sig.signers.contains(id), "missing signer {}", id);
    }
    assert!(!final_sig.signers.contains(6));
    assert!(!final_sig.signers.contains(7));
    // the result is consumed exactly once
    assert!(agent.final_signature().is_none());
}

#[test]
fn duplicate_delivery_is_idempotent() {
    // Deliver the same signed message twice: the store is unchanged
    // by the second delivery and no second result fires.
    let mut agent = HandelAgent::new(config(0, 6), registry(8));
    let mut out: Vec<Outbound> = Vec::new();
    agent.start(&mut out);

    agent.on_message(individual_message(1), &mut out);
    let best_len_once = agent.state.store.best(1).unwrap().len();
    agent.on_message(individual_message(1), &mut out);
    let best_len_twice = agent.state.store.best(1).unwrap().len();
    assert_eq!(best_len_once, best_len_twice);
    assert!(!agent.state.done);
}

#[test]
fn forged_aggregate_leaves_store_unchanged() {
    // A multi-signature claiming signers {0,1,2,3} that does not
    // verify is rejected; nothing enters the store.
    let mut agent = HandelAgent::new(config(0, 6), registry(8));
    let mut out: Vec<Outbound> = Vec::new();
    agent.start(&mut out);

    let mut forged = MultiSignature::from_individual(&sign(4), 4);
    forged.signers.insert(5);
    forged.signers.insert(6);
    forged.signers.insert(7);
    let message = Message {
        origin: 4,
        level: 3,
        multisig: forged,
        individual: None,
    };
    agent.on_message(message, &mut out);
    assert!(agent.state.store.best(3).is_none());
    assert!(!agent.state.done);
}

#[test]
fn level_completion_activates_next_level() {
    // N=4, node 0: receiving id 1's individual at level 1 completes
    // level 1; level 2 activates in the same drain and a send goes
    // out to a level-2 peer.
    let mut agent = HandelAgent::new(config(0, 3), registry(4));
    let mut out: Vec<Outbound> = Vec::new();
    agent.start(&mut out);
    assert!(!agent.levels[2].state.send_started);

    let mut sent: Vec<Outbound> = Vec::new();
    let message = Message {
        origin: 1,
        level: 1,
        multisig: MultiSignature::from_individual(&sign(1), 1),
        individual: Some(sign(1)),
    };
    agent.on_message(message, &mut sent);
    assert!(agent.levels[1].state.receive_completed);
    assert!(agent.levels[2].state.send_started);
    let mut level2_sends = 0;
    for o in &sent {
        if o.message.level == 2 {
            assert!(o.address.port == 12002 || o.address.port == 12003);
            // the payload is the combined signature of levels 0 and 1
            assert_eq!(o.message.multisig.len(), 2);
            assert!(o.message.multisig.signers.contains(0));
            assert!(o.message.multisig.signers.contains(1));
            level2_sends += 1;
        }
    }
    assert!(level2_sends > 0, "no send for level 2");
}

#[test]
fn invalid_level_is_dropped() {
    let mut agent = HandelAgent::new(config(0, 6), registry(8));
    let mut out: Vec<Outbound> = Vec::new();
    agent.start(&mut out);
    let message = Message {
        origin: 1,
        level: 9,
        multisig: MultiSignature::from_individual(&sign(1), 1),
        individual: Some(sign(1)),
    };
    agent.on_message(message, &mut out);
    for l in 0..4usize {
        if l > 0 {
            assert!(agent.state.store.best(l).is_none());
        }
    }
}

#[test]
fn periodic_update_sends_with_individual() {
    let mut agent = HandelAgent::new(config(0, 6), registry(8));
    let mut out: Vec<Outbound> = Vec::new();
    agent.start(&mut out);
    agent.on_message(individual_message(1), &mut out);
    let mut tick: Vec<Outbound> = Vec::new();
    agent.on_update(&mut tick);
    assert!(!tick.is_empty());
    let mut with_individual = 0;
    for o in &tick {
        assert_eq!(o.message.origin, 0);
        if o.message.individual.is_some() {
            with_individual += 1;
        } else {
            // only a receive-completed level omits the individual
            assert!(agent.levels[o.message.level as usize]
                .state
                .receive_completed);
        }
    }
    assert!(with_individual > 0);
}

#[test]
fn timeout_starts_level() {
    let mut agent = HandelAgent::new(config(0, 6), registry(8));
    let mut out: Vec<Outbound> = Vec::new();
    agent.start(&mut out);
    assert!(!agent.levels[3].state.send_started);
    agent.on_timeout(3, &mut out);
    assert!(agent.levels[3].state.send_started);
    // a timeout on an already active level is a no-op
    let cursor = agent.levels[3].state.send_peers_pos;
    let mut again: Vec<Outbound> = Vec::new();
    agent.on_timeout(3, &mut again);
    assert!(again.is_empty());
    assert_eq!(agent.levels[3].state.send_peers_pos, cursor);
}
