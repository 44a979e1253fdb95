//! Signature primitives as the aggregation core consumes them.
//!
//! The pairing-based scheme itself is an external collaborator of this
//! library; the core only carries signature values, folds them together,
//! and compares the fold against what the roster's keys should have
//! produced. A signature is therefore held as an opaque byte string, an
//! aggregate as the unordered collection of the individual signatures
//! folded into it, and signing is modelled as the keyed digest
//! `sign_of(key, hash)`: a value verifies under a public key exactly
//! when it equals that digest.

use vstd::prelude::*;

verus! {

use vstd::seq_lib::group_to_multiset_ensures;
use vstd::multiset::Multiset;

/// The signature a key produces on a message hash.
pub open spec fn sign_of(key: Seq<u8>, hash: Seq<u8>) -> Seq<u8> {
    key + hash
}

/// An individual signature, carried as opaque bytes.
#[derive(Debug)]
pub struct Signature {
    pub bytes: Vec<u8>,
}

/// Byte-vector equality.
pub fn bytes_eq(a: &Vec<u8>, b: &Vec<u8>) -> (r: bool)
    ensures
        r == (a@ == b@),
{
    if a.len() != b.len() {
        return false;
    }
    let mut i: usize = 0;
    while i < a.len()
        invariant
            0 <= i <= a.len(),
            a.len() == b.len(),
            forall|k: int| 0 <= k < i ==> a@[k] == b@[k],
        decreases a.len() - i,
    {
        if a[i] != b[i] {
            return false;
        }
        i = i + 1;
    }
    proof {
        assert(a@ =~= b@);
    }
    true
}

/// Byte-vector copy.
pub fn clone_bytes(v: &Vec<u8>) -> (r: Vec<u8>)
    ensures
        r@ == v@,
{
    let mut r: Vec<u8> = Vec::new();
    let mut i: usize = 0;
    while i < v.len()
        invariant
            0 <= i <= v.len(),
            r@ == v@.take(i as int),
        decreases v.len() - i,
    {
        r.push(v[i]);
        proof {
            assert(r@ =~= v@.take(i as int + 1));
        }
        i = i + 1;
    }
    proof {
        assert(r@ =~= v@);
    }
    r
}

impl Clone for Signature {
    fn clone(&self) -> (r: Self)
        ensures
            r.bytes@ == self.bytes@,
    {
        Signature { bytes: clone_bytes(&self.bytes) }
    }
}

impl PartialEq for Signature {
    fn eq(&self, other: &Self) -> (r: bool) {
        bytes_eq(&self.bytes, &other.bytes)
    }
}

impl vstd::std_specs::cmp::PartialEqSpecImpl for Signature {
    open spec fn obeys_eq_spec() -> bool {
        true
    }

    open spec fn eq_spec(&self, other: &Signature) -> bool {
        self.bytes@ == other.bytes@
    }
}

impl Eq for Signature {}

/// A public key, carried as opaque bytes.
#[derive(Debug)]
pub struct PublicKey {
    pub bytes: Vec<u8>,
}

impl Clone for PublicKey {
    fn clone(&self) -> (r: Self)
        ensures
            r.bytes@ == self.bytes@,
    {
        PublicKey { bytes: clone_bytes(&self.bytes) }
    }
}

impl PublicKey {
    /// Whether `signature` is `hash` signed by the key this public key
    /// belongs to.
    pub fn verify_hash(&self, hash: &Vec<u8>, signature: &Signature) -> (r: bool)
        ensures
            r == (signature.bytes@ == sign_of(self.bytes@, hash@)),
    {
        let n = signature.bytes.len();
        if n < self.bytes.len() || n - self.bytes.len() != hash.len() {
            proof {
                assert(sign_of(self.bytes@, hash@).len() == self.bytes@.len() + hash@.len());
            }
            return false;
        }
        let mut expected = clone_bytes(&self.bytes);
        let mut i: usize = 0;
        while i < hash.len()
            invariant
                0 <= i <= hash.len(),
                expected@ == self.bytes@ + hash@.take(i as int),
            decreases hash.len() - i,
        {
            expected.push(hash[i]);
            proof {
                assert(expected@ =~= self.bytes@ + hash@.take(i as int + 1));
            }
            i = i + 1;
        }
        proof {
            assert(expected@ =~= sign_of(self.bytes@, hash@));
        }
        bytes_eq(&signature.bytes, &expected)
    }
}

/// A secret key, carried as opaque bytes.
#[derive(Debug)]
pub struct SecretKey {
    pub bytes: Vec<u8>,
}

impl Clone for SecretKey {
    fn clone(&self) -> (r: Self)
        ensures
            r.bytes@ == self.bytes@,
    {
        SecretKey { bytes: clone_bytes(&self.bytes) }
    }
}

/// A signing key with its public counterpart.
#[derive(Debug)]
pub struct KeyPair {
    pub public: PublicKey,
    pub secret: SecretKey,
}

impl Clone for KeyPair {
    fn clone(&self) -> (r: Self)
        ensures
            r.public.bytes@ == self.public.bytes@,
            r.secret.bytes@ == self.secret.bytes@,
    {
        KeyPair { public: self.public.clone(), secret: self.secret.clone() }
    }
}

impl KeyPair {
    /// A key pair is coherent when its public key answers for its secret
    /// key; all pairs built by `from_secret` are.
    pub open spec fn wf(self) -> bool {
        self.public.bytes@ == self.secret.bytes@
    }

    /// Derives the key pair of a secret key.
    pub fn from_secret(secret: SecretKey) -> (r: KeyPair)
        ensures
            r.wf(),
            r.secret.bytes@ == secret.bytes@,
    {
        let public = PublicKey { bytes: clone_bytes(&secret.bytes) };
        KeyPair { public, secret }
    }

    /// Signs a message hash.
    pub fn sign_hash(&self, hash: &Vec<u8>) -> (r: Signature)
        ensures
            r.bytes@ == sign_of(self.secret.bytes@, hash@),
    {
        signature_of_key(&self.secret.bytes, hash)
    }
}

/// The signature a given key produces on a given hash.
pub fn signature_of_key(key: &Vec<u8>, hash: &Vec<u8>) -> (r: Signature)
    ensures
        r.bytes@ == sign_of(key@, hash@),
{
    let mut bytes = clone_bytes(key);
    let mut i: usize = 0;
    while i < hash.len()
        invariant
            0 <= i <= hash.len(),
            bytes@ == key@ + hash@.take(i as int),
        decreases hash.len() - i,
    {
        bytes.push(hash[i]);
        proof {
            assert(bytes@ =~= key@ + hash@.take(i as int + 1));
        }
        i = i + 1;
    }
    proof {
        assert(bytes@ =~= sign_of(key@, hash@));
    }
    Signature { bytes }
}

/// The byte strings of a sequence of signatures.
pub open spec fn seq_bytes(s: Seq<Signature>) -> Seq<Seq<u8>> {
    s.map_values(|x: Signature| x.bytes@)
}

/// An aggregate signature: the sum of the individual signatures folded
/// into it. The sum is unordered, so its meaning is the multiset of the
/// parts.
#[derive(Debug)]
pub struct AggregateSignature {
    pub parts: Vec<Signature>,
}

impl Clone for AggregateSignature {
    fn clone(&self) -> (r: Self)
        ensures
            seq_bytes(r.parts@) == seq_bytes(self.parts@),
    {
        AggregateSignature { parts: clone_signatures(&self.parts) }
    }
}

/// Signature-vector copy.
pub fn clone_signatures(v: &Vec<Signature>) -> (r: Vec<Signature>)
    ensures
        seq_bytes(r@) == seq_bytes(v@),
        r@.len() == v@.len(),
{
    let mut r: Vec<Signature> = Vec::new();
    let mut i: usize = 0;
    while i < v.len()
        invariant
            0 <= i <= v.len(),
            r@.len() == i,
            forall|k: int| 0 <= k < i ==> r@[k].bytes@ == v@[k].bytes@,
        decreases v.len() - i,
    {
        r.push(v[i].clone());
        i = i + 1;
    }
    proof {
        assert(seq_bytes(r@) =~= seq_bytes(v@));
    }
    r
}

impl AggregateSignature {
    /// The multiset of the parts: the meaning of the aggregate.
    pub open spec fn parts_ms(self) -> Multiset<Seq<u8>> {
        seq_bytes(self.parts@).to_multiset()
    }

    /// The empty aggregate.
    pub fn new() -> (r: AggregateSignature)
        ensures
            r.parts@.len() == 0,
            seq_bytes(r.parts@) == Seq::<Seq<u8>>::empty(),
    {
        let r = AggregateSignature { parts: Vec::new() };
        proof {
            assert(seq_bytes(r.parts@) =~= Seq::<Seq<u8>>::empty());
        }
        r
    }

    /// Folds one individual signature into the aggregate.
    pub fn aggregate(&mut self, signature: &Signature)
        ensures
            seq_bytes(final(self).parts@) == seq_bytes(old(self).parts@).push(signature.bytes@),
    {
        self.parts.push(signature.clone());
        proof {
            assert(seq_bytes(self.parts@) =~= seq_bytes(old(self).parts@).push(
                signature.bytes@));
        }
    }

    /// Whether this aggregate is the fold of exactly the given
    /// individual signatures, in some order.
    pub fn matches_parts(&self, expected: &Vec<Signature>) -> (r: bool)
        ensures
            r == (self.parts_ms() == seq_bytes(expected@).to_multiset()),
    {
        multiset_matches(&self.parts, expected)
    }

    /// Folds another aggregate into this one.
    pub fn merge_into(&mut self, other: &AggregateSignature)
        ensures
            seq_bytes(final(self).parts@) == seq_bytes(old(self).parts@) + seq_bytes(
                other.parts@),
    {
        let mut i: usize = 0;
        while i < other.parts.len()
            invariant
                0 <= i <= other.parts@.len(),
                self.parts@.len() == old(self).parts@.len() + i,
                forall|k: int|
                    0 <= k < old(self).parts@.len() ==> self.parts@[k].bytes@ == old(
                        self).parts@[k].bytes@,
                forall|k: int|
                    0 <= k < i ==> self.parts@[old(self).parts@.len() + k].bytes@
                        == other.parts@[k].bytes@,
            decreases other.parts@.len() - i,
        {
            let s = other.parts[i].clone();
            self.parts.push(s);
            i = i + 1;
        }
        proof {
            assert(seq_bytes(self.parts@) =~= seq_bytes(old(self).parts@) + seq_bytes(
                other.parts@));
        }
    }
}

/// The first position in `v` holding the same bytes as `x`, if any.
fn find_match(v: &Vec<Signature>, x: &Signature) -> (r: Option<usize>)
    ensures
        match r {
            Some(j) => j < v@.len() && v@[j as int].bytes@ == x.bytes@,
            None => forall|k: int| 0 <= k < v@.len() ==> v@[k].bytes@ != x.bytes@,
        },
{
    let mut j: usize = 0;
    while j < v.len()
        invariant
            0 <= j <= v@.len(),
            forall|k: int| 0 <= k < j ==> v@[k].bytes@ != x.bytes@,
        decreases v@.len() - j,
    {
        if bytes_eq(&v[j].bytes, &x.bytes) {
            return Some(j);
        }
        j = j + 1;
    }
    None
}

/// Whether two signature lists fold to the same aggregate: their byte
/// strings form the same multiset.
pub fn multiset_matches(a: &Vec<Signature>, b: &Vec<Signature>) -> (r: bool)
    ensures
        r == (seq_bytes(a@).to_multiset() == seq_bytes(b@).to_multiset()),
{
    proof {
        broadcast use group_to_multiset_ensures;

    }
    let mut ca = clone_signatures(a);
    let mut rem = clone_signatures(b);
    let ghost mut matched: Multiset<Seq<u8>> = Multiset::empty();
    proof {
        assert(seq_bytes(ca@) == seq_bytes(a@));
        assert(seq_bytes(rem@) == seq_bytes(b@));
        assert(seq_bytes(ca@).to_multiset().add(matched) =~= seq_bytes(a@).to_multiset());
        assert(seq_bytes(rem@).to_multiset().add(matched) =~= seq_bytes(b@).to_multiset());
    }
    while ca.len() > 0
        invariant
            seq_bytes(ca@).to_multiset().add(matched) == seq_bytes(a@).to_multiset(),
            seq_bytes(rem@).to_multiset().add(matched) == seq_bytes(b@).to_multiset(),
        decreases ca@.len(),
    {
        let ghost pre = ca@;
        let x = match ca.pop() {
            Some(x) => x,
            None => {
                proof {
                    assert(false);
                }
                return false;
            },
        };
        proof {
            broadcast use group_to_multiset_ensures;

            assert(pre =~= ca@.push(x));
            assert(seq_bytes(pre) =~= seq_bytes(ca@).push(x.bytes@));
            assert(seq_bytes(pre).to_multiset() =~= seq_bytes(ca@).to_multiset().insert(
                x.bytes@));
        }
        match find_match(&rem, &x) {
            Some(j) => {
                let ghost rem_pre = rem@;
                rem.remove(j);
                proof {
                    broadcast use group_to_multiset_ensures;

                    assert(seq_bytes(rem@) =~= seq_bytes(rem_pre).remove(j as int));
                    seq_bytes(rem_pre).to_multiset_ensures();
                    assert(seq_bytes(rem_pre).remove(j as int).to_multiset() =~= seq_bytes(
                        rem_pre).to_multiset().remove(x.bytes@));
                    matched = matched.insert(x.bytes@);
                    assert(seq_bytes(ca@).to_multiset().add(matched) =~= seq_bytes(
                        a@).to_multiset());
                    assert(seq_bytes(rem@).to_multiset().add(matched) =~= seq_bytes(
                        b@).to_multiset()) by {
                        assert(seq_bytes(rem_pre).to_multiset().count(x.bytes@) > 0);
                    }
                }
            },
            None => {
                proof {
                    broadcast use group_to_multiset_ensures;

                    let xb = x.bytes@;
                    assert(!seq_bytes(rem@).contains(xb)) by {
                        if seq_bytes(rem@).contains(xb) {
                            let k = choose|k: int|
                                0 <= k < seq_bytes(rem@).len() && seq_bytes(rem@)[k] == xb;
                            assert(rem@[k].bytes@ == xb);
                        }
                    }
                    assert(seq_bytes(rem@).to_multiset().count(xb) == 0);
                    assert(seq_bytes(b@).to_multiset().count(xb) == matched.count(xb));
                    assert(seq_bytes(a@).to_multiset().count(xb) >= 1 + matched.count(xb));
                }
                return false;
            },
        }
    }
    proof {
        broadcast use group_to_multiset_ensures;

        assert(seq_bytes(ca@).to_multiset().len() == 0);
        assert(forall|y: Seq<u8>| seq_bytes(ca@).to_multiset().count(y) == 0) by {
            vstd::multiset::lemma_multiset_empty_len(seq_bytes(ca@).to_multiset());
        }
        assert(seq_bytes(a@).to_multiset() =~= matched);
    }
    let empty = rem.is_empty();
    proof {
        broadcast use group_to_multiset_ensures;

        if empty {
            assert(seq_bytes(rem@).to_multiset().len() == 0);
            assert(forall|y: Seq<u8>| seq_bytes(rem@).to_multiset().count(y) == 0) by {
                vstd::multiset::lemma_multiset_empty_len(seq_bytes(rem@).to_multiset());
            }
            assert(seq_bytes(b@).to_multiset() =~= matched);
        } else {
            let y = rem@[0].bytes@;
            assert(seq_bytes(rem@)[0] == y);
            assert(seq_bytes(rem@).contains(y));
            assert(seq_bytes(rem@).to_multiset().count(y) > 0);
            assert(seq_bytes(b@).to_multiset().count(y) > seq_bytes(a@).to_multiset().count(y));
        }
    }
    empty
}

} // verus!
