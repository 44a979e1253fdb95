//! The static identity roster: id, public key, network address and
//! voting weight of every node, with a binary codec for roster
//! entries.

use vstd::prelude::*;

verus! {

use crate::bls::{PublicKey, clone_bytes, bytes_eq};

/// A codec failure.
#[derive(Clone, Debug, PartialEq, Eq, Structural)]
pub enum SerializingError {
    /// The bytes do not hold a valid encoding.
    InvalidEncoding,
    /// The bytes end before the encoding does.
    UnexpectedEnd,
    /// A value does not fit its wire representation.
    Overflow,
}

/// A network address: 4 or 16 ip octets and a port.
#[derive(Debug)]
pub struct NetAddress {
    pub ip: Vec<u8>,
    pub port: u16,
}

impl NetAddress {
    /// The address is a well-formed v4 or v6 address.
    pub open spec fn wf(self) -> bool {
        self.ip@.len() == 4 || self.ip@.len() == 16
    }

    /// Whether two addresses are the same.
    pub fn matches(&self, other: &NetAddress) -> (r: bool)
        ensures
            r == (self.ip@ == other.ip@ && self.port == other.port),
    {
        self.port == other.port && bytes_eq(&self.ip, &other.ip)
    }
}

impl Clone for NetAddress {
    fn clone(&self) -> (r: Self)
        ensures
            r.ip@ == self.ip@,
            r.port == self.port,
    {
        NetAddress { ip: clone_bytes(&self.ip), port: self.port }
    }
}

/// The encoding of a network address: a 4/6 tag, the octets, and the
/// port in big-endian.
pub open spec fn spec_serialize_net_address(ip: Seq<u8>, port: u16) -> Seq<u8> {
    let tag: u8 = if ip.len() == 4 {
        4u8
    } else {
        6u8
    };
    seq![tag] + ip + seq![(port >> 8) as u8, (port & 0xff) as u8]
}

/// Appends the encoding of an address; returns how many bytes were
/// written.
pub fn serialize_net_address(address: &NetAddress, out: &mut Vec<u8>) -> (written: usize)
    requires
        address.wf(),
    ensures
        final(out)@ == old(out)@ + spec_serialize_net_address(address.ip@, address.port),
        written == final(out)@.len() - old(out)@.len(),
{
    let ghost pre = out@;
    if address.ip.len() == 4 {
        out.push(4u8);
    } else {
        out.push(6u8);
    }
    let mut i: usize = 0;
    while i < address.ip.len()
        invariant
            0 <= i <= address.ip@.len(),
            out@.len() == pre.len() + 1 + i,
            out@ == pre + seq![if address.ip@.len() == 4 { 4u8 } else { 6u8 }] + address.ip@.take(
                i as int),
        decreases address.ip@.len() - i,
    {
        out.push(address.ip[i]);
        proof {
            assert(out@ =~= pre + seq![if address.ip@.len() == 4 { 4u8 } else { 6u8 }]
                + address.ip@.take(i as int + 1));
        }
        i = i + 1;
    }
    out.push((address.port >> 8) as u8);
    out.push((address.port & 0xff) as u8);
    proof {
        assert(address.ip@.take(address.ip@.len() as int) =~= address.ip@);
        assert(out@ =~= pre + spec_serialize_net_address(address.ip@, address.port));
    }
    1 + address.ip.len() + 2
}

/// Parses an address at `pos`: the tag, the octets it announces, and
/// the port. `None` when the bytes do not reach or the tag is neither
/// 4 nor 6.
pub open spec fn spec_parse_net_address(bytes: Seq<u8>, pos: int) -> Option<(Seq<u8>, u16, int)> {
    if pos >= bytes.len() {
        None
    } else {
        let tag = bytes[pos];
        let n: int = if tag == 4 {
            4
        } else if tag == 6 {
            16
        } else {
            -1
        };
        if n < 0 {
            None
        } else if pos + 1 + n + 2 > bytes.len() {
            None
        } else {
            let ip = bytes.subrange(pos + 1, pos + 1 + n);
            let port = ((bytes[pos + 1 + n] as int) * 256 + (bytes[pos + 1 + n + 1] as int)) as u16;
            Some((ip, port, pos + 1 + n + 2))
        }
    }
}

/// Reads an address from `bytes` at `pos`; returns it with the
/// position after it. Fails exactly when no address is encoded there.
pub fn deserialize_net_address(bytes: &Vec<u8>, pos: usize) -> (r: Result<
    (NetAddress, usize),
    SerializingError,
>)
    ensures
        match r {
            Ok((address, next)) => {
                &&& spec_parse_net_address(bytes@, pos as int) == Some(
                    (address.ip@, address.port, next as int))
                &&& address.wf()
                &&& pos < next <= bytes@.len()
            },
            Err(_) => spec_parse_net_address(bytes@, pos as int) is None,
        },
{
    if pos >= bytes.len() {
        return Err(SerializingError::UnexpectedEnd);
    }
    let tag = bytes[pos];
    let n: usize = if tag == 4 {
        4
    } else if tag == 6 {
        16
    } else {
        return Err(SerializingError::InvalidEncoding);
    };
    if bytes.len() - pos < 3 || bytes.len() - pos - 3 < n {
        return Err(SerializingError::UnexpectedEnd);
    }
    let mut ip: Vec<u8> = Vec::new();
    let mut i: usize = 0;
    while i < n
        invariant
            0 <= i <= n,
            pos + 1 + n + 2 <= bytes@.len(),
            bytes@.len() <= usize::MAX,
            ip@ == bytes@.subrange(pos + 1, pos + 1 + i),
        decreases n - i,
    {
        ip.push(bytes[pos + 1 + i]);
        proof {
            assert(ip@ =~= bytes@.subrange(pos + 1, pos + 1 + i + 1));
        }
        i = i + 1;
    }
    let hi = bytes[pos + 1 + n];
    let lo = bytes[pos + 1 + n + 1];
    let port: u16 = (hi as u16) * 256 + (lo as u16);
    Ok((NetAddress { ip, port }, pos + 1 + n + 2))
}

/// One node of the roster.
#[derive(Debug)]
pub struct Identity {
    pub id: usize,
    pub public_key: PublicKey,
    pub address: NetAddress,
    pub weight: usize,
}

impl Identity {
    /// The id fits the wire format and the weight is small enough
    /// that a full roster's weights sum within the machine word.
    pub open spec fn wf(self) -> bool {
        &&& self.id <= 0xffff
        &&& self.weight <= 0x7fff
        &&& self.address.wf()
    }

    pub fn new(id: usize, public_key: PublicKey, address: NetAddress, weight: usize) -> (r:
        Identity)
        ensures
            r.id == id,
            r.public_key.bytes@ == public_key.bytes@,
            r.address.ip@ == address.ip@,
            r.address.port == address.port,
            r.weight == weight,
    {
        Identity { id, public_key, address, weight }
    }
}

impl Clone for Identity {
    fn clone(&self) -> (r: Self)
        ensures
            r.id == self.id,
            r.public_key.bytes@ == self.public_key.bytes@,
            r.address.ip@ == self.address.ip@,
            r.address.port == self.address.port,
            r.weight == self.weight,
            self.wf() ==> r.wf(),
    {
        Identity {
            id: self.id,
            public_key: self.public_key.clone(),
            address: self.address.clone(),
            weight: self.weight,
        }
    }
}

/// The static roster, ordered by id.
#[derive(Debug)]
pub struct IdentityRegistry {
    pub identities: Vec<Identity>,
}

impl IdentityRegistry {
    /// Strictly ascending ids, each entry well-formed.
    pub open spec fn wf(self) -> bool {
        &&& forall|i: int, j: int|
            0 <= i < j < self.identities@.len() ==> (#[trigger] self.identities@[i]).id < (
            #[trigger] self.identities@[j]).id
        &&& forall|i: int|
            0 <= i < self.identities@.len() ==> (#[trigger] self.identities@[i]).wf()
    }

    /// Whether some entry has this id.
    pub open spec fn spec_has_id(self, id: int) -> bool {
        exists|i: int|
            0 <= i < self.identities@.len() && (#[trigger] self.identities@[i]).id == id
    }

    /// The index of the entry with this id.
    pub open spec fn spec_index_of(self, id: int) -> int {
        choose|i: int|
            0 <= i < self.identities@.len() && (#[trigger] self.identities@[i]).id == id
    }

    /// The weight of the entry with this id, 0 if none.
    pub open spec fn spec_weight_of(self, id: int) -> nat {
        if self.spec_has_id(id) {
            self.identities@[self.spec_index_of(id)].weight as nat
        } else {
            0
        }
    }

    pub fn new() -> (r: IdentityRegistry)
        ensures
            r.wf(),
            r.identities@.len() == 0,
    {
        IdentityRegistry { identities: Vec::new() }
    }

    /// The number of identities.
    pub fn len(&self) -> (r: usize)
        ensures
            r == self.identities@.len(),
    {
        self.identities.len()
    }

    /// Adds an identity, keeping the roster ordered by id; an entry
    /// with the same id is replaced.
    pub fn insert(&mut self, identity: Identity)
        requires
            old(self).wf(),
            identity.wf(),
        ensures
            final(self).wf(),
            final(self).spec_has_id(identity.id as int),
            final(self).identities@[final(self).spec_index_of(identity.id as int)] == identity,
            forall|x: int|
                x != identity.id ==> final(self).spec_has_id(x) == old(self).spec_has_id(x),
            forall|x: int|
                x != identity.id && old(self).spec_has_id(x) ==> final(self).identities@[final(
                    self).spec_index_of(x)] == old(self).identities@[old(self).spec_index_of(x)],
            final(self).identities@.len() == old(self).identities@.len() + (if old(
                self).spec_has_id(identity.id as int) {
                0int
            } else {
                1int
            }),
    {
        let ghost pre = self.identities@;
        let mut i: usize = 0;
        while i < self.identities.len()
            invariant
                0 <= i <= self.identities@.len(),
                self.identities@ == pre,
                pre == old(self).identities@,
                old(self).wf(),
                identity.wf(),
                forall|k: int| 0 <= k < i ==> (#[trigger] pre[k]).id < identity.id,
            decreases self.identities@.len() - i,
        {
            if self.identities[i].id == identity.id {
                let _old = self.identities.remove(i);
                self.identities.insert(i, identity);
                proof {
                    assert(self.identities@.len() == pre.len());
                    assert(forall|k: int|
                        0 <= k < pre.len() && k != i ==> self.identities@[k] == pre[k]);
                    assert forall|x: int| x != identity.id implies self.spec_has_id(x) == old(
                        self).spec_has_id(x) by {
                        if old(self).spec_has_id(x) {
                            let k = choose|k: int|
                                0 <= k < pre.len() && (#[trigger] pre[k]).id == x;
                            assert(self.identities@[k] == pre[k]);
                        }
                        if self.spec_has_id(x) {
                            let k = choose|k: int|
                                0 <= k < self.identities@.len() && (#[trigger] self.identities@[
                                    k]).id == x;
                            assert(pre[k] == self.identities@[k]);
                        }
                    }
                    assert(self.identities@[i as int].id == identity.id);
                    assert(self.spec_has_id(identity.id as int));
                }
                return ;
            }
            if self.identities[i].id > identity.id {
                self.identities.insert(i, identity);
                proof {
                    assert forall|x: int| x != identity.id implies self.spec_has_id(x) == old(
                        self).spec_has_id(x) by {
                        if old(self).spec_has_id(x) {
                            let k = choose|k: int|
                                0 <= k < pre.len() && (#[trigger] pre[k]).id == x;
                            if k < i {
                                assert(self.identities@[k] == pre[k]);
                            } else {
                                assert(self.identities@[k + 1] == pre[k]);
                            }
                        }
                        if self.spec_has_id(x) {
                            let k = choose|k: int|
                                0 <= k < self.identities@.len() && (#[trigger] self.identities@[
                                    k]).id == x;
                            if k < i {
                                assert(pre[k] == self.identities@[k]);
                            } else if k > i {
                                assert(pre[k - 1] == self.identities@[k]);
                            }
                        }
                    }
                    assert forall|a: int, b: int|
                        0 <= a < b < self.identities@.len() implies (
                    #[trigger] self.identities@[a]).id < (#[trigger] self.identities@[b]).id by {
                        if a < i && b > i {
                            assert(self.identities@[a] == pre[a]);
                            assert(self.identities@[b] == pre[b - 1]);
                            if a < b - 1 {
                            } else {
                                assert(pre[a].id < identity.id);
                            }
                        } else if a == i && b > i {
                            assert(self.identities@[b] == pre[b - 1]);
                            assert(pre[i as int].id > identity.id);
                            if b - 1 > i {
                                assert(pre[i as int].id <= pre[b - 1].id);
                            }
                        } else if a < i && b == i {
                            assert(self.identities@[a] == pre[a]);
                        }
                    }
                    assert(self.identities@[i as int].id == identity.id);
                    assert(self.spec_has_id(identity.id as int));
                }
                return ;
            }
            i = i + 1;
        }
        self.identities.push(identity);
        proof {
            assert forall|x: int| x != identity.id implies self.spec_has_id(x) == old(
                self).spec_has_id(x) by {
                if old(self).spec_has_id(x) {
                    let k = choose|k: int| 0 <= k < pre.len() && (#[trigger] pre[k]).id == x;
                    assert(self.identities@[k] == pre[k]);
                }
                if self.spec_has_id(x) {
                    let k = choose|k: int|
                        0 <= k < self.identities@.len() && (#[trigger] self.identities@[k]).id
                            == x;
                    if k < pre.len() {
                        assert(pre[k] == self.identities@[k]);
                    }
                }
            }
            assert(self.identities@[pre.len() as int].id == identity.id);
            assert(self.spec_has_id(identity.id as int));
        }
    }

    /// The identity with this id, if any.
    pub fn get_by_id(&self, id: usize) -> (r: Option<&Identity>)
        requires
            self.wf(),
        ensures
            match r {
                Some(ident) => self.spec_has_id(id as int) && ident.id == id
                    && self.identities@[self.spec_index_of(id as int)] == *ident,
                None => !self.spec_has_id(id as int),
            },
    {
        let mut i: usize = 0;
        while i < self.identities.len()
            invariant
                0 <= i <= self.identities@.len(),
                self.wf(),
                forall|k: int| 0 <= k < i ==> (#[trigger] self.identities@[k]).id != id,
            decreases self.identities@.len() - i,
        {
            if self.identities[i].id == id {
                proof {
                    let j = self.spec_index_of(id as int);
                    if j != i {
                        assert(self.identities@[j].id == self.identities@[i as int].id);
                    }
                }
                return Some(&self.identities[i]);
            }
            i = i + 1;
        }
        None
    }

    /// The identities with ids in `[min, max)`, in ascending order.
    pub fn get_by_id_range(&self, min: usize, max: usize) -> (r: Vec<Identity>)
        requires
            self.wf(),
        ensures
            forall|k: int|
                0 <= k < r@.len() ==> min <= (#[trigger] r@[k]).id < max && self.spec_has_id(
                    r@[k].id as int),
            forall|i: int|
                0 <= i < self.identities@.len() && min <= (#[trigger] self.identities@[i]).id
                    < max ==> exists|k: int| 0 <= k < r@.len() && r@[k].id == self.identities@[
                    i].id,
    {
        let mut r: Vec<Identity> = Vec::new();
        let mut i: usize = 0;
        while i < self.identities.len()
            invariant
                0 <= i <= self.identities@.len(),
                self.wf(),
                forall|k: int|
                    0 <= k < r@.len() ==> min <= (#[trigger] r@[k]).id < max && self.spec_has_id(
                        r@[k].id as int),
                forall|j: int|
                    0 <= j < i && min <= (#[trigger] self.identities@[j]).id < max ==> exists|
                    k: int| 0 <= k < r@.len() && (#[trigger] r@[k]).id == self.identities@[j].id,
            decreases self.identities@.len() - i,
        {
            let ident = &self.identities[i];
            if ident.id >= min && ident.id < max {
                let ghost pre = r@;
                r.push(ident.clone());
                proof {
                    assert(r@[pre.len() as int].id == self.identities@[i as int].id);
                    assert forall|j: int|
                        0 <= j < i + 1 && min <= (#[trigger] self.identities@[j]).id
                            < max implies exists|k: int|
                        0 <= k < r@.len() && (#[trigger] r@[k]).id == self.identities@[j].id by {
                        if j < i {
                            let k = choose|k: int|
                                0 <= k < pre.len() && (#[trigger] pre[k]).id
                                    == self.identities@[j].id;
                            assert(r@[k].id == self.identities@[j].id);
                        } else {
                            assert(r@[pre.len() as int].id == self.identities@[j].id);
                        }
                    }
                }
            }
            i = i + 1;
        }
        r
    }

    /// Some identity with this address, if any.
    pub fn get_by_address(&self, address: &NetAddress) -> (r: Option<&Identity>)
        requires
            self.wf(),
        ensures
            match r {
                Some(ident) => ident.address.ip@ == address.ip@ && ident.address.port
                    == address.port && self.spec_has_id(ident.id as int),
                None => forall|i: int|
                    0 <= i < self.identities@.len() ==> !((#[trigger] self.identities@[
                        i]).address.ip@ == address.ip@ && self.identities@[i].address.port
                        == address.port),
            },
    {
        let mut i: usize = 0;
        while i < self.identities.len()
            invariant
                0 <= i <= self.identities@.len(),
                self.wf(),
                forall|k: int|
                    0 <= k < i ==> !((#[trigger] self.identities@[k]).address.ip@ == address.ip@
                        && self.identities@[k].address.port == address.port),
            decreases self.identities@.len() - i,
        {
            if self.identities[i].address.matches(address) {
                return Some(&self.identities[i]);
            }
            i = i + 1;
        }
        None
    }

    /// All identities, in ascending id order.
    pub fn all(&self) -> (r: Vec<Identity>)
        requires
            self.wf(),
        ensures
            r@.len() == self.identities@.len(),
            forall|k: int| 0 <= k < r@.len() ==> (#[trigger] r@[k]).id == self.identities@[k].id
                && r@[k].weight == self.identities@[k].weight,
    {
        let mut r: Vec<Identity> = Vec::new();
        let mut i: usize = 0;
        while i < self.identities.len()
            invariant
                0 <= i <= self.identities@.len(),
                self.wf(),
                r@.len() == i,
                forall|k: int|
                    0 <= k < i ==> (#[trigger] r@[k]).id == self.identities@[k].id && r@[k].weight
                        == self.identities@[k].weight,
            decreases self.identities@.len() - i,
        {
            r.push(self.identities[i].clone());
            i = i + 1;
        }
        r
    }
}

/// Ids grow at least as fast as indices in an ascending roster.
proof fn lemma_id_ge_index(reg: IdentityRegistry, k: int)
    requires
        reg.wf(),
        0 <= k < reg.identities@.len(),
    ensures
        reg.identities@[k].id >= k,
    decreases k,
{
    if k > 0 {
        lemma_id_ge_index(reg, k - 1);
    }
}

impl IdentityRegistry {
    /// A roster of 16-bit ids holds at most `2^16` entries.
    pub proof fn lemma_registry_len(self)
        requires
            self.wf(),
        ensures
            self.identities@.len() <= 0x10000,
    {
        if self.identities@.len() > 0x10000 {
            lemma_id_ge_index(self, 0x10000);
            assert(self.identities@[0x10000].wf());
        }
    }
}

impl Clone for IdentityRegistry {
    fn clone(&self) -> (r: Self)
        ensures
            r.identities@.len() == self.identities@.len(),
            forall|k: int|
                0 <= k < r.identities@.len() ==> {
                    let a = #[trigger] r.identities@[k];
                    let b = self.identities@[k];
                    a.id == b.id && a.weight == b.weight && a.public_key.bytes@
                        == b.public_key.bytes@ && a.address.ip@ == b.address.ip@
                        && a.address.port == b.address.port
                },
            self.wf() ==> r.wf(),
            forall|x: int| r.spec_has_id(x) == self.spec_has_id(x),
    {
        let mut identities: Vec<Identity> = Vec::new();
        let mut i: usize = 0;
        while i < self.identities.len()
            invariant
                0 <= i <= self.identities@.len(),
                identities@.len() == i,
                forall|k: int|
                    0 <= k < i ==> {
                        let a = #[trigger] identities@[k];
                        let b = self.identities@[k];
                        a.id == b.id && a.weight == b.weight && a.public_key.bytes@
                            == b.public_key.bytes@ && a.address.ip@ == b.address.ip@
                            && a.address.port == b.address.port
                    },
            decreases self.identities@.len() - i,
        {
            identities.push(self.identities[i].clone());
            i = i + 1;
        }
        let r = IdentityRegistry { identities };
        proof {
            assert forall|x: int| r.spec_has_id(x) == self.spec_has_id(x) by {
                if self.spec_has_id(x) {
                    let k = choose|k: int|
                        0 <= k < self.identities@.len() && (#[trigger] self.identities@[k]).id
                            == x;
                    assert(r.identities@[k].id == x);
                }
                if r.spec_has_id(x) {
                    let k = choose|k: int|
                        0 <= k < r.identities@.len() && (#[trigger] r.identities@[k]).id == x;
                    assert(self.identities@[k].id == x);
                }
            }
        }
        r
    }
}

impl Default for IdentityRegistry {
    fn default() -> (r: Self)
        ensures
            r.wf(),
            r.identities@.len() == 0,
    {
        IdentityRegistry::new()
    }
}

} // verus!
