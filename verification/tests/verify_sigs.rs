use handel::bls::{KeyPair, PublicKey, SecretKey, Signature};
use handel::identity::{Identity, IdentityRegistry, NetAddress};
use handel::multisig::MultiSignature;
use handel::verifiers::{StrictVerifier, DummyVerifier, VerifyResult};

fn secret(id: usize) -> Vec<u8> {
    vec![id as u8; 8]
}

fn keypair(id: usize) -> KeyPair {
    KeyPair::from_secret(SecretKey { bytes: secret(id) })
}

fn address(id: usize) -> NetAddress {
    NetAddress { ip: vec![127, 0, 0, 1], port: 12000 + id as u16 }
}

fn registry(n: usize) -> IdentityRegistry {
    let mut reg = IdentityRegistry::new();
    for id in 0..n {
        reg.insert(Identity::new(
            id,
            PublicKey { bytes: secret(id) },
            address(id),
            1,
        ));
    }
    reg
}

fn hash() -> Vec<u8> {
    vec![7u8; 32]
}

fn sign(id: usize) -> Signature {
    keypair(id).sign_hash(&hash())
}

fn multi(ids: &[usize]) -> MultiSignature {
    let mut it = ids.iter();
    let first = *it.next().unwrap();
    let mut m = MultiSignature::from_individual(&sign(first), first);
    for &id in it {
        let merged = m.add_multisig(&MultiSignature::from_individual(&sign(id), id));
        assert!(merged.is_ok());
    }
    m
}

#[test]
fn strict_individual_valid() {
    let v = StrictVerifier::new(6, hash(), registry(8));
    assert_eq!(
        v.verify_individual(&sign(3), 3),
        VerifyResult::Valid { votes: 1 }
    );
}

#[test]
fn strict_individual_wrong_key() {
    let v = StrictVerifier::new(6, hash(), registry(8));
    assert_eq!(
        v.verify_individual(&sign(4), 3),
        VerifyResult::InvalidSignature
    );
}

#[test]
fn strict_individual_unknown_signer() {
    let v = StrictVerifier::new(6, hash(), registry(8));
    assert_eq!(
        v.verify_individual(&sign(9), 9),
        VerifyResult::UnknownSigner { signer: 9 }
    );
}

#[test]
fn strict_multisig_valid() {
    let v = StrictVerifier::new(6, hash(), registry(8));
    let m = multi(&[0, 1, 2, 3]);
    assert_eq!(v.verify_multisig(&m, false), VerifyResult::Valid { votes: 4 });
}

#[test]
fn strict_multisig_forged_rejected() {
    // Byzantine forged aggregate: the bitset claims {0,1,2,3} but the
    // aggregate holds other signatures.
    let v = StrictVerifier::new(6, hash(), registry(8));
    let mut m = multi(&[0, 1, 2]);
    // claim one more signer without folding its signature in
    m.signers.insert(3);
    assert_eq!(v.verify_multisig(&m, false), VerifyResult::InvalidSignature);
}

#[test]
fn strict_multisig_threshold() {
    let v = StrictVerifier::new(6, hash(), registry(8));
    let m = multi(&[0, 1, 2, 3]);
    assert_eq!(
        v.verify_multisig(&m, true),
        VerifyResult::ThresholdNotReached { votes: 4, threshold: 6 }
    );
    let big = multi(&[0, 1, 2, 3, 4, 5]);
    assert_eq!(
        v.verify_multisig(&big, true),
        VerifyResult::Valid { votes: 6 }
    );
}

#[test]
fn strict_multisig_unknown_signer() {
    let v = StrictVerifier::new(6, hash(), registry(4));
    let m = multi(&[2, 5]);
    assert_eq!(
        v.verify_multisig(&m, false),
        VerifyResult::UnknownSigner { signer: 5 }
    );
}

#[test]
fn dummy_accepts_everything() {
    let v = DummyVerifier::new(6, registry(8));
    assert_eq!(
        v.verify_individual(&sign(4), 3),
        VerifyResult::Valid { votes: 1 }
    );
    let mut m = multi(&[0, 1]);
    m.signers.insert(2);  // forged, but the dummy only sums weights
    assert_eq!(v.verify_multisig(&m, false), VerifyResult::Valid { votes: 3 });
}

#[test]
fn weight_of_signers_sums() {
    let reg = registry(8);
    let m = multi(&[1, 4, 6]);
    assert_eq!(handel::verifiers::weight_of_signers(&reg, &m.signers), 3);
}
