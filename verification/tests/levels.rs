use handel::bls::{KeyPair, PublicKey, SecretKey, Signature};
use handel::config::Config;
use handel::identity::{Identity, IdentityRegistry, NetAddress};
use handel::level::{create_levels, Level};
use handel::multisig::MultiSignature;
use handel::partitioner::BinomialPartitioner;
use handel::stats::Statistics;
use handel::timeout::LinearTimeout;
use handel::id::NodeId;

fn keypair(id: usize) -> KeyPair {
    KeyPair::from_secret(SecretKey { bytes: vec![id as u8; 8] })
}

fn sign(id: usize) -> Signature {
    keypair(id).sign_hash(&vec![7u8; 32])
}

fn config(id: usize) -> Config {
    Config {
        threshold: 6,
        message_hash: vec![7u8; 32],
        node_identity: Identity::new(
            id,
            PublicKey { bytes: vec![id as u8; 8] },
            NetAddress { ip: vec![127, 0, 0, 1], port: 12000 + id as u16 },
            1,
        ),
        disable_shuffling: true,
        update_count: 1,
        update_period: 100,
        timeout: 500,
        peer_count: 10,
        key_pair: keypair(id),
    }
}

#[test]
fn create_levels_layout() {
    let p = BinomialPartitioner::new(3, 7);
    let levels = create_levels(&config(3), &p);
    assert_eq!(levels.len(), 4);
    assert_eq!(levels[0].peer_ids, vec![3]);
    assert_eq!(levels[1].peer_ids, vec![2]);
    assert_eq!(levels[2].peer_ids, vec![0, 1]);
    assert_eq!(levels[3].peer_ids, vec![4, 5, 6, 7]);
    assert!(levels[0].state.send_started);
    assert!(!levels[1].state.send_started);
    // expected full sizes: the number of ids below each level
    assert_eq!(levels[0].send_expected_full_size, 0);
    assert_eq!(levels[1].send_expected_full_size, 1);
    assert_eq!(levels[2].send_expected_full_size, 2);
    assert_eq!(levels[3].send_expected_full_size, 4);
}

#[test]
fn create_levels_shuffled_keeps_ids() {
    let p = BinomialPartitioner::new(3, 7);
    let mut cfg = config(3);
    cfg.disable_shuffling = false;
    let levels = create_levels(&cfg, &p);
    let mut ids = levels[3].peer_ids.clone();
    ids.sort();
    assert_eq!(ids, vec![4, 5, 6, 7]);
}

#[test]
fn peer_rotation_wraps() {
    let mut level = Level::new(2, vec![10, 11, 12], 3);
    assert_eq!(level.num_peers(), 3);
    assert_eq!(level.select_next_peers(2), vec![10, 11]);
    assert_eq!(level.select_next_peers(2), vec![12, 10]);
    assert_eq!(level.select_next_peers(5), vec![11, 12, 10]);
}

#[test]
fn update_signature_to_send_grows() {
    let mut level = Level::new(2, vec![2, 3], 2);
    let single = MultiSignature::from_individual(&sign(0), 0);
    // any strict growth is remembered and reported
    assert!(level.update_signature_to_send(&single));
    assert_eq!(level.state.send_signature_size, 1);
    assert!(!level.state.send_started);
    // a smaller or equal signature changes nothing
    assert!(!level.update_signature_to_send(&single));
    let mut pair = MultiSignature::from_individual(&sign(0), 0);
    let merged = pair.add_multisig(&MultiSignature::from_individual(&sign(1), 1));
    assert!(merged.is_ok());
    // reaching the expected full size also starts the level
    assert!(level.update_signature_to_send(&pair));
    assert!(level.state.send_started);
    assert_eq!(level.state.send_peers_count, 0);
}

#[test]
fn linear_timeouts() {
    let t = LinearTimeout::new(500);
    assert_eq!(t.level_timeout(0), Some(0));
    assert_eq!(t.level_timeout(1), Some(500));
    assert_eq!(t.level_timeout(4), Some(2000));
}

#[test]
fn statistics_count() {
    let mut stats = Statistics::default();
    stats.received();
    stats.sent();
    stats.sent();
    assert_eq!(stats.received_count, 1);
    assert_eq!(stats.sent_count, 2);
}

#[test]
fn registry_lookups() {
    let mut reg = IdentityRegistry::new();
    for id in [3usize, 1, 2, 0] {
        reg.insert(Identity::new(
            id,
            PublicKey { bytes: vec![id as u8; 8] },
            NetAddress { ip: vec![127, 0, 0, 1], port: 12000 + id as u16 },
            1,
        ));
    }
    assert_eq!(reg.len(), 4);
    assert_eq!(reg.get_by_id(2).unwrap().id, 2);
    assert!(reg.get_by_id(9).is_none());
    // ascending order regardless of insertion order
    let all = reg.all();
    let ids: Vec<usize> = all.iter().map(|i| i.id).collect();
    assert_eq!(ids, vec![0, 1, 2, 3]);
    // half-open id range
    let range = reg.get_by_id_range(1, 3);
    let ids: Vec<usize> = range.iter().map(|i| i.id).collect();
    assert_eq!(ids, vec![1, 2]);
    // lookup by address
    let addr = NetAddress { ip: vec![127, 0, 0, 1], port: 12003 };
    assert_eq!(reg.get_by_address(&addr).unwrap().id, 3);
    let missing = NetAddress { ip: vec![127, 0, 0, 1], port: 9 };
    assert!(reg.get_by_address(&missing).is_none());
    // replacement by id
    reg.insert(Identity::new(
        2,
        PublicKey { bytes: vec![9u8; 8] },
        NetAddress { ip: vec![127, 0, 0, 1], port: 12002 },
        5,
    ));
    assert_eq!(reg.len(), 4);
    assert_eq!(reg.get_by_id(2).unwrap().weight, 5);
}

#[test]
fn node_ids_compare() {
    let a = NodeId::from_public_key(&PublicKey { bytes: vec![1u8; 8] });
    let b = NodeId::from_public_key(&PublicKey { bytes: vec![1u8; 8] });
    let c = NodeId::from_public_key(&PublicKey { bytes: vec![2u8; 8] });
    assert_eq!(a, b);
    assert!(a != c);
    assert_eq!(a.0.len(), 32);
}
