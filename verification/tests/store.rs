use handel::bls::{KeyPair, SecretKey, Signature};
use handel::multisig::{MultiSignature, MultiSigError};
use handel::partitioner::BinomialPartitioner;
use handel::store::ReplaceStore;
use nimiq_collections::BitSet;

fn keypair(id: usize) -> KeyPair {
    KeyPair::from_secret(SecretKey { bytes: vec![id as u8; 8] })
}

fn sign(id: usize, hash: &Vec<u8>) -> Signature {
    keypair(id).sign_hash(hash)
}

fn hash() -> Vec<u8> {
    vec![7u8; 32]
}

fn singleton(id: usize) -> MultiSignature {
    MultiSignature::from_individual(&sign(id, &hash()), id)
}

fn multi(ids: &[usize]) -> MultiSignature {
    let mut it = ids.iter();
    let first = *it.next().unwrap();
    let mut m = singleton(first);
    for &id in it {
        let merged = m.add_multisig(&singleton(id));
        assert!(merged.is_ok());
    }
    m
}

#[test]
fn merge_disjoint_succeeds() {
    // Merge safety: merging disjoint signer sets gives the union.
    let mut a = multi(&[0, 1]);
    let b = multi(&[2, 3]);
    assert!(a.add_multisig(&b).is_ok());
    assert_eq!(a.len(), 4);
    for id in 0..4usize {
        assert!(a.signers.contains(id));
    }
}

#[test]
fn merge_overlapping_fails() {
    // Merge safety: overlapping signer sets are rejected and the
    // receiver is unchanged.
    let mut a = multi(&[0, 1]);
    let b = multi(&[1, 2]);
    match a.add_multisig(&b) {
        Err(MultiSigError::Overlapping(overlap)) => {
            assert!(overlap.contains(1));
            assert_eq!(overlap.len(), 1);
        }
        _ => panic!("expected an overlap"),
    }
    assert_eq!(a.len(), 2);
}

#[test]
fn add_individual_contained() {
    let mut a = multi(&[0, 1]);
    match a.add_individual(&sign(1, &hash()), 1) {
        Err(MultiSigError::Contained(id)) => assert_eq!(id, 1),
        _ => panic!("expected contained"),
    }
    assert!(a.add_individual(&sign(2, &hash()), 2).is_ok());
    assert_eq!(a.len(), 3);
}

#[test]
fn store_put_and_best() {
    // node 0 of 8: level 2 is {2,3}
    let p = BinomialPartitioner::new(0, 7);
    let mut store = ReplaceStore::new(p);
    assert!(store.best(2).is_none());
    store.put_multisig(singleton(2), 2);
    assert_eq!(store.best(2).unwrap().len(), 1);
    store.put_multisig(singleton(3), 2);
    assert_eq!(store.best(2).unwrap().len(), 2);
}

#[test]
fn store_put_out_of_range_discarded() {
    // an id outside the level's range must not enter the best
    let p = BinomialPartitioner::new(0, 7);
    let mut store = ReplaceStore::new(p);
    store.put_multisig(singleton(5), 2);  // 5 is a level-3 id
    assert!(store.best(2).is_none());
}

#[test]
fn store_put_idempotent() {
    // Idempotence: putting the same multi-signature twice leaves the
    // store exactly as after the first put.
    let p = BinomialPartitioner::new(0, 7);
    let mut store = ReplaceStore::new(p);
    let m = multi(&[2, 3]);
    store.put_multisig(m.clone(), 2);
    let first_len = store.best(2).unwrap().len();
    store.put_multisig(m.clone(), 2);
    let second_len = store.best(2).unwrap().len();
    assert_eq!(first_len, 2);
    assert_eq!(second_len, first_len);
}

#[test]
fn store_put_individual_folds_in() {
    let p = BinomialPartitioner::new(0, 7);
    let mut store = ReplaceStore::new(p);
    store.put_individual(sign(2, &hash()), 2, 2);
    store.put_individual(sign(3, &hash()), 2, 3);
    let best = store.best(2).unwrap();
    assert_eq!(best.len(), 2);
    assert!(best.signers.contains(2));
    assert!(best.signers.contains(3));
}

#[test]
fn combined_gap_is_fatal() {
    // Gap in levels: best[0] and best[2] present, best[1] absent:
    // combined(2) returns nothing.
    let p = BinomialPartitioner::new(0, 7);
    let mut store = ReplaceStore::new(p);
    store.put_multisig(singleton(0), 0);
    store.put_multisig(singleton(2), 2);
    assert!(store.combined(2).is_none());
    // the gap-free prefix still combines
    assert!(store.combined(0).is_some());
}

#[test]
fn combined_joins_levels() {
    let p = BinomialPartitioner::new(0, 7);
    let mut store = ReplaceStore::new(p);
    store.put_multisig(singleton(0), 0);
    store.put_multisig(singleton(1), 1);
    store.put_multisig(multi(&[2, 3]), 2);
    let c = store.combined(2).unwrap();
    assert_eq!(c.len(), 4);
    for id in 0..4usize {
        assert!(c.signers.contains(id));
    }
}

#[test]
fn evaluate_scores() {
    // node 0 of 8, level 3 = {4,5,6,7}, to_receive = 4
    let p = BinomialPartitioner::new(0, 7);
    let mut store = ReplaceStore::new(p);
    // empty store: a fresh pair adds 2 of 4: 100000 - 3*100 + 2*10 - 0
    let pair = multi(&[4, 5]);
    assert_eq!(store.evaluate_multisig(&pair, 3, 2), 99720);
    // a full level candidate hits the completion score:
    // 1000000 - 3*10 - 0
    let full = multi(&[4, 5, 6, 7]);
    assert_eq!(store.evaluate_multisig(&full, 3, 4), 999970);
    store.put_multisig(full, 3);
    // once the level is full every candidate is worthless
    assert_eq!(store.evaluate_multisig(&pair, 3, 2), 0);
    // a singleton individual of a known signature scores zero too
    store.put_individual(sign(4, &hash()), 3, 4);
    assert_eq!(store.evaluate_individual(&sign(4, &hash()), 3, 4), 0);
}

#[test]
fn evaluate_inferior_candidate() {
    let p = BinomialPartitioner::new(0, 7);
    let mut store = ReplaceStore::new(p);
    store.put_multisig(multi(&[4, 5, 6]), 3);
    // a subset of the best scores zero
    assert_eq!(store.evaluate_multisig(&multi(&[4, 5]), 3, 2), 0);
    // a fresh singleton disjoint from the best merges in and
    // completes the level: 1000000 - 3*10 - 0
    let fresh = singleton(7);
    assert_eq!(store.evaluate_multisig(&fresh, 3, 1), 999970);
}

#[test]
fn scoring_monotone_after_put() {
    // Scoring monotonicity for an overlapping candidate: after an
    // accepted put, the candidate's score does not increase.
    let p = BinomialPartitioner::new(0, 7);
    let mut store = ReplaceStore::new(p);
    store.put_multisig(singleton(4), 3);
    let t = multi(&[4, 5]);  // overlaps the best {4}
    let before = store.evaluate_multisig(&t, 3, 2);
    store.put_multisig(multi(&[4, 6]), 3);  // accepted: best grows
    let after = store.evaluate_multisig(&t, 3, 2);
    assert!(after <= before);
}

#[test]
fn best_stays_within_level() {
    // every signer of a level's best lies in that level's id range
    let p = BinomialPartitioner::new(0, 7);
    let mut store = ReplaceStore::new(p);
    store.put_multisig(multi(&[4, 5]), 3);
    store.put_individual(sign(6, &hash()), 3, 6);
    let best = store.best(3).unwrap();
    let (lo, hi) = store.partitioner.range(3).unwrap();
    for id in 0..16usize {
        if best.signers.contains(id) {
            assert!(lo <= id && id <= hi);
        }
    }
}

#[test]
fn individual_signatures_are_marked_verified() {
    // an id with a stored individual signature has its bit set in the
    // verified bitset of that level
    let p = BinomialPartitioner::new(0, 7);
    let mut store = ReplaceStore::new(p);
    store.put_individual(sign(4, &hash()), 3, 4);
    store.put_individual(sign(6, &hash()), 3, 6);
    for (id, _sig) in &store.individual_signatures[3] {
        assert!(store.individual_verified[3].contains(*id));
    }
    assert!(store.individual_verified[3].contains(4));
    assert!(store.individual_verified[3].contains(6));
}

#[test]
fn best_len_never_shrinks() {
    // the number of signers of a level's best is monotone over puts,
    // including puts that replace rather than extend
    let p = BinomialPartitioner::new(0, 7);
    let mut store = ReplaceStore::new(p);
    let puts = [
        multi(&[4]),
        multi(&[5, 6]),
        multi(&[4, 5]),
        multi(&[7]),
        multi(&[4]),
    ];
    let mut last_len = 0;
    for m in puts {
        store.put_multisig(m, 3);
        let len = store.best(3).map(|b| b.len()).unwrap_or(0);
        assert!(len >= last_len, "best shrank from {} to {}", last_len, len);
        last_len = len;
    }
}

#[test]
fn bitset_roundtrip() {
    let mut b = BitSet::new();
    b.insert(3);
    b.insert(100);
    assert!(b.contains(3));
    assert!(!b.contains(4));
    assert_eq!(b.len(), 2);
}
