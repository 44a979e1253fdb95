use handel::bls::{KeyPair, SecretKey, Signature};
use handel::identity::{deserialize_net_address, serialize_net_address, NetAddress};
use handel::message::{decode_frame, encode_frame, Message};
use handel::multisig::MultiSignature;

fn sign(id: usize) -> Signature {
    KeyPair::from_secret(SecretKey { bytes: vec![id as u8; 8] }).sign_hash(&vec![7u8; 32])
}

fn multi(ids: &[usize]) -> MultiSignature {
    let mut it = ids.iter();
    let first = *it.next().unwrap();
    let mut m = MultiSignature::from_individual(&sign(first), first);
    for &id in it {
        let merged = m.add_multisig(&MultiSignature::from_individual(&sign(id), id));
        assert!(merged.is_ok());
    }
    m
}

#[test]
fn message_roundtrip_with_individual() {
    let message = Message {
        origin: 3,
        level: 2,
        multisig: multi(&[0, 1, 5]),
        individual: Some(sign(3)),
    };
    let bytes = message.serialize();
    let (back, used) = Message::deserialize(&bytes).expect("decodes");
    assert_eq!(used, bytes.len());
    assert_eq!(back.origin, 3);
    assert_eq!(back.level, 2);
    assert_eq!(back.multisig.len(), 3);
    assert!(back.multisig.signers.contains(0));
    assert!(back.multisig.signers.contains(1));
    assert!(back.multisig.signers.contains(5));
    assert!(!back.multisig.signers.contains(2));
    let ind = back.individual.expect("individual");
    assert_eq!(ind, sign(3));
    assert_eq!(back.multisig.signature.parts.len(), 3);
}

#[test]
fn message_roundtrip_without_individual() {
    let message = Message {
        origin: 1,
        level: 0,
        multisig: multi(&[1]),
        individual: None,
    };
    let bytes = message.serialize();
    let (back, used) = Message::deserialize(&bytes).expect("decodes");
    assert_eq!(used, bytes.len());
    assert!(back.individual.is_none());
    assert_eq!(back.multisig.len(), 1);
}

#[test]
fn message_garbage_rejected() {
    assert!(Message::deserialize(&vec![1, 2]).is_err());
    // a message whose signer ids are not strictly ascending is not a
    // valid encoding
    let message = Message {
        origin: 1,
        level: 0,
        multisig: multi(&[1, 2]),
        individual: None,
    };
    let mut bytes = message.serialize();
    // swap the two signer ids on the wire: find them at the tail
    let n = bytes.len();
    // layout: ... ids_count(2) id0(2) id1(2) tag(1)
    bytes.swap(n - 5, n - 3);
    bytes.swap(n - 4, n - 2);
    assert!(Message::deserialize(&bytes).is_err());
}

#[test]
fn nonzero_discriminant_means_individual() {
    // any non-zero tag announces the optional individual signature
    let message = Message {
        origin: 1,
        level: 0,
        multisig: multi(&[1]),
        individual: Some(sign(1)),
    };
    let mut bytes = message.serialize();
    let n = bytes.len();
    // the discriminant sits right before the length-prefixed signature
    let sig_len = sign(1).bytes.len();
    let disc_at = n - sig_len - 2 - 1;
    assert_eq!(bytes[disc_at], 1);
    bytes[disc_at] = 7;
    let (back, used) = Message::deserialize(&bytes).expect("decodes");
    assert_eq!(used, n);
    assert_eq!(back.individual.expect("individual"), sign(1));
}

#[test]
fn frame_roundtrip() {
    let payload = vec![9u8; 100];
    let frame = encode_frame(&payload).expect("fits");
    assert_eq!(frame.len(), 102);
    assert_eq!(frame[0], 0);
    assert_eq!(frame[1], 100);
    let (back, used) = decode_frame(&frame).expect("no error").expect("whole");
    assert_eq!(back, payload);
    assert_eq!(used, 102);
}

#[test]
fn frame_limits() {
    // frames over 1024 bytes are refused in both directions
    let big = vec![0u8; 1025];
    assert!(encode_frame(&big).is_err());
    let mut bogus = vec![0xffu8, 0xff];
    bogus.extend(vec![0u8; 10]);
    assert!(decode_frame(&bogus).is_err());
    // a short buffer is not an error, just not a frame yet
    assert_eq!(decode_frame(&vec![0u8]).unwrap(), None);
    assert_eq!(decode_frame(&vec![0u8, 50, 1, 2]).unwrap(), None);
}

#[test]
fn net_address_roundtrip() {
    let addr = NetAddress { ip: vec![192, 168, 0, 1], port: 8443 };
    let mut bytes: Vec<u8> = vec![0xaa];  // leading junk the codec appends after
    let written = serialize_net_address(&addr, &mut bytes);
    assert_eq!(written, 7);
    assert_eq!(bytes.len(), 8);
    let (back, next) = deserialize_net_address(&bytes, 1).expect("decodes");
    assert_eq!(next, 8);
    assert_eq!(back.ip, addr.ip);
    assert_eq!(back.port, addr.port);
    // a v6 address
    let addr6 = NetAddress { ip: vec![0u8; 16], port: 80 };
    let mut bytes6: Vec<u8> = Vec::new();
    assert_eq!(serialize_net_address(&addr6, &mut bytes6), 19);
    let (back6, next6) = deserialize_net_address(&bytes6, 0).expect("decodes");
    assert_eq!(next6, 19);
    assert_eq!(back6.ip, addr6.ip);
    // a bad tag fails
    assert!(deserialize_net_address(&vec![5u8, 0, 0], 0).is_err());
}
