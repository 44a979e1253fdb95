//! The wire format: an aggregation message and its binary codec, and
//! the length-prefixed frame around it.
//!
//! All integers travel big-endian. A message is the origin id, the
//! target level, the multi-signature (the aggregate's parts, each
//! length-prefixed, then the signer ids in strictly ascending order),
//! and an optional individual signature behind a one-byte tag.

use vstd::prelude::*;

verus! {

use crate::bls::{Signature, AggregateSignature, seq_bytes};
use crate::bitset::{bits_of, new_bitset, bitset_insert, bitset_elements, lemma_elements_complete};
use crate::multisig::MultiSignature;
use crate::identity::SerializingError;
use crate::store::{ids_set, lemma_ids_set_contains};

/// One aggregation message.
pub struct Message {
    pub origin: u16,
    pub level: u8,
    pub multisig: MultiSignature,
    pub individual: Option<Signature>,
}

/// The meaning of a message on the wire.
pub ghost struct MessageView {
    pub origin: u16,
    pub level: u8,
    pub parts: Seq<Seq<u8>>,
    pub signer_ids: Seq<usize>,
    pub individual: Option<Seq<u8>>,
}

/// A 16-bit big-endian value.
pub open spec fn spec_ser_u16(v: int) -> Seq<u8> {
    seq![(v / 256) as u8, (v % 256) as u8]
}

/// A length-prefixed byte string.
pub open spec fn spec_ser_blob(s: Seq<u8>) -> Seq<u8> {
    spec_ser_u16(s.len() as int) + s
}

/// A list of length-prefixed byte strings.
pub open spec fn spec_ser_blobs(ps: Seq<Seq<u8>>) -> Seq<u8>
    decreases ps.len(),
{
    if ps.len() == 0 {
        Seq::empty()
    } else {
        spec_ser_blob(ps[0]) + spec_ser_blobs(ps.drop_first())
    }
}

/// A list of 16-bit ids.
pub open spec fn spec_ser_ids(ids: Seq<usize>) -> Seq<u8>
    decreases ids.len(),
{
    if ids.len() == 0 {
        Seq::empty()
    } else {
        spec_ser_u16(ids[0] as int) + spec_ser_ids(ids.drop_first())
    }
}

/// The encoding of a whole message.
pub open spec fn spec_serialize_message(m: MessageView) -> Seq<u8> {
    spec_ser_u16(m.origin as int) + seq![m.level] + spec_ser_u16(m.parts.len() as int)
        + spec_ser_blobs(m.parts) + spec_ser_u16(m.signer_ids.len() as int) + spec_ser_ids(
        m.signer_ids) + match m.individual {
        Option::None => seq![0u8],
        Option::Some(s) => seq![1u8] + spec_ser_blob(s),
    }
}

/// The 16-bit big-endian value at `p`.
pub open spec fn spec_be16(b: Seq<u8>, p: int) -> int {
    b[p] * 256 + b[p + 1]
}

/// Parses a length-prefixed byte string at `p`.
pub open spec fn spec_parse_blob(b: Seq<u8>, p: int) -> Option<(Seq<u8>, int)> {
    if p + 2 > b.len() {
        None
    } else {
        let n = spec_be16(b, p);
        if p + 2 + n > b.len() {
            None
        } else {
            Some((b.subrange(p + 2, p + 2 + n), p + 2 + n))
        }
    }
}

/// Parses `n` length-prefixed byte strings at `p`.
pub open spec fn spec_parse_blobs(b: Seq<u8>, p: int, n: nat) -> Option<(Seq<Seq<u8>>, int)>
    decreases n,
{
    if n == 0 {
        Some((Seq::empty(), p))
    } else {
        match spec_parse_blob(b, p) {
            None => None,
            Some((x, p2)) => match spec_parse_blobs(b, p2, (n - 1) as nat) {
                None => None,
                Some((xs, p3)) => Some((seq![x] + xs, p3)),
            },
        }
    }
}

/// Parses `n` 16-bit ids at `p`, all at least `lo` and strictly
/// ascending.
pub open spec fn spec_parse_ids(b: Seq<u8>, p: int, n: nat, lo: int) -> Option<(Seq<usize>, int)>
    decreases n,
{
    if n == 0 {
        Some((Seq::empty(), p))
    } else if p + 2 > b.len() {
        None
    } else {
        let v = spec_be16(b, p);
        if v < lo {
            None
        } else {
            match spec_parse_ids(b, p + 2, (n - 1) as nat, v + 1) {
                None => None,
                Some((xs, p2)) => Some((seq![v as usize] + xs, p2)),
            }
        }
    }
}

/// Parses a whole message at the start of `b`.
pub open spec fn spec_parse_message(b: Seq<u8>) -> Option<(MessageView, int)> {
    if 5 > b.len() {
        None
    } else {
        let origin = spec_be16(b, 0);
        let level = b[2];
        let pc = spec_be16(b, 3);
        match spec_parse_blobs(b, 5, pc as nat) {
            None => None,
            Some((parts, p2)) => if p2 + 2 > b.len() {
                None
            } else {
                let ic = spec_be16(b, p2);
                match spec_parse_ids(b, p2 + 2, ic as nat, 0) {
                    None => None,
                    Some((ids, p3)) => if p3 + 1 > b.len() {
                        None
                    } else if b[p3] == 0 {
                        Some(
                            (MessageView {
                                origin: origin as u16,
                                level,
                                parts,
                                signer_ids: ids,
                                individual: None,
                            }, p3 + 1),
                        )
                    } else {
                        // any non-zero tag announces an individual
                        match spec_parse_blob(b, p3 + 1) {
                            None => None,
                            Some((sb, p4)) => Some(
                                (MessageView {
                                    origin: origin as u16,
                                    level,
                                    parts,
                                    signer_ids: ids,
                                    individual: Some(sb),
                                }, p4),
                            ),
                        }
                    },
                }
            },
        }
    }
}

/// Appends a 16-bit value big-endian.
fn push_u16(out: &mut Vec<u8>, v: u16)
    ensures
        final(out)@ == old(out)@ + spec_ser_u16(v as int),
{
    out.push((v / 256) as u8);
    out.push((v % 256) as u8);
    proof {
        assert(final(out)@ =~= old(out)@ + spec_ser_u16(v as int));
    }
}

/// Appends a length-prefixed byte string.
fn push_blob(out: &mut Vec<u8>, s: &Vec<u8>)
    requires
        s@.len() <= 0xffff,
    ensures
        final(out)@ == old(out)@ + spec_ser_blob(s@),
{
    push_u16(out, s.len() as u16);
    let mut i: usize = 0;
    while i < s.len()
        invariant
            0 <= i <= s@.len(),
            out@ == old(out)@ + spec_ser_u16(s@.len() as int) + s@.take(i as int),
        decreases s@.len() - i,
    {
        out.push(s[i]);
        proof {
            assert(out@ =~= old(out)@ + spec_ser_u16(s@.len() as int) + s@.take(i as int + 1));
        }
        i = i + 1;
    }
    proof {
        assert(s@.take(s@.len() as int) =~= s@);
        assert(out@ =~= old(out)@ + spec_ser_blob(s@));
    }
}

impl Message {
    /// The message is well-formed: a finite, 16-bit signer set, and
    /// list lengths that fit their 16-bit counts.
    pub open spec fn wf(self) -> bool {
        &&& self.multisig.wf()
        &&& self.multisig.signers_set().len() <= 0xffff
        &&& self.multisig.signature.parts@.len() <= 0xffff
        &&& forall|k: int|
            0 <= k < self.multisig.signature.parts@.len()
                ==> (#[trigger] self.multisig.signature.parts@[k]).bytes@.len() <= 0xffff
        &&& match self.individual {
            Option::None => true,
            Option::Some(s) => s.bytes@.len() <= 0xffff,
        }
    }

    /// Encodes the message. The signer ids are written in ascending
    /// order, so the encoding is canonical.
    pub fn serialize(&self) -> (r: Vec<u8>)
        requires
            self.wf(),
        ensures
            exists|ids: Seq<usize>|
                {
                    &&& ids_set(ids) == self.multisig.signers_set()
                    &&& (forall|i: int, j: int| 0 <= i < j < ids.len() ==> ids[i] < ids[j])
                    &&& r@ == spec_serialize_message(
                        MessageView {
                            origin: self.origin,
                            level: self.level,
                            parts: seq_bytes(self.multisig.signature.parts@),
                            signer_ids: ids,
                            individual: match self.individual {
                                Option::None => None,
                                Option::Some(s) => Some(s.bytes@),
                            },
                        },
                    )
                },
    {
        let mut out: Vec<u8> = Vec::new();
        push_u16(&mut out, self.origin);
        out.push(self.level);
        let parts = &self.multisig.signature.parts;
        push_u16(&mut out, parts.len() as u16);
        let ghost pview = seq_bytes(parts@);
        let ghost head = out@;
        let mut i: usize = 0;
        while i < parts.len()
            invariant
                0 <= i <= parts@.len(),
                pview == seq_bytes(parts@),
                forall|k: int|
                    0 <= k < parts@.len() ==> (#[trigger] parts@[k]).bytes@.len() <= 0xffff,
                out@ == head + spec_ser_blobs(pview.take(i as int)),
            decreases parts@.len() - i,
        {
            push_blob(&mut out, &parts[i].bytes);
            proof {
                lemma_ser_blobs_snoc(pview, i as int);
                assert(out@ =~= head + spec_ser_blobs(pview.take(i as int + 1)));
            }
            i = i + 1;
        }
        proof {
            assert(pview.take(pview.len() as int) =~= pview);
        }
        let ids = bitset_elements(&self.multisig.signers);
        proof {
            lemma_elements_complete(self.multisig.signers_set(), ids@);
            assert(ids_set(ids@) =~= self.multisig.signers_set()) by {
                assert forall|v: int| ids_set(ids@).contains(v) implies self.multisig.signers_set(
                ).contains(v) by {
                    lemma_ids_set_contains(ids@, v);
                    let k = choose|k: int| 0 <= k < ids@.len() && (#[trigger] ids@[k]) as int == v;
                }
                assert forall|v: int|
                    self.multisig.signers_set().contains(v) implies ids_set(ids@).contains(v) by {
                    let k = choose|k: int| 0 <= k < ids@.len() && (#[trigger] ids@[k]) == v as usize;
                    lemma_ids_set_contains(ids@, v);
                }
            }
        }
        push_u16(&mut out, ids.len() as u16);
        let ghost head2 = out@;
        let mut j: usize = 0;
        while j < ids.len()
            invariant
                0 <= j <= ids@.len(),
                forall|k: int| 0 <= k < ids@.len() ==> (#[trigger] ids@[k]) <= 0xffff,
                out@ == head2 + spec_ser_ids(ids@.take(j as int)),
            decreases ids@.len() - j,
        {
            proof {
                assert(ids@[j as int] <= 0xffff);
            }
            push_u16(&mut out, ids[j] as u16);
            proof {
                lemma_ser_ids_snoc(ids@, j as int);
                assert(out@ =~= head2 + spec_ser_ids(ids@.take(j as int + 1)));
            }
            j = j + 1;
        }
        proof {
            assert(ids@.take(ids@.len() as int) =~= ids@);
        }
        match &self.individual {
            Some(s) => {
                out.push(1u8);
                push_blob(&mut out, &s.bytes);
            },
            None => {
                out.push(0u8);
            },
        }
        proof {
            let view = MessageView {
                origin: self.origin,
                level: self.level,
                parts: pview,
                signer_ids: ids@,
                individual: if self.individual is Some {
                    Some(self.individual->0.bytes@)
                } else {
                    None
                },
            };
            assert(out@ =~= spec_serialize_message(view));
        }
        out
    }
}

/// Reads a 16-bit big-endian value at `pos`.
fn read_u16(bytes: &Vec<u8>, pos: usize) -> (r: Option<(u16, usize)>)
    ensures
        match r {
            Some((v, next)) => pos + 2 <= bytes@.len() && v == spec_be16(bytes@, pos as int)
                && next == pos + 2,
            None => pos + 2 > bytes@.len(),
        },
{
    if bytes.len() < 2 || pos > bytes.len() - 2 {
        return None;
    }
    let v: u16 = (bytes[pos] as u16) * 256 + (bytes[pos + 1] as u16);
    Some((v, pos + 2))
}

/// Reads a length-prefixed byte string at `pos`.
fn read_blob(bytes: &Vec<u8>, pos: usize) -> (r: Option<(Vec<u8>, usize)>)
    ensures
        match r {
            Some((blob, next)) => spec_parse_blob(bytes@, pos as int) == Some(
                (blob@, next as int)) && pos < next <= bytes@.len() && blob@.len() <= 0xffff,
            None => spec_parse_blob(bytes@, pos as int) is None,
        },
{
    let (n16, p2) = match read_u16(bytes, pos) {
        Some(x) => x,
        None => {
            return None;
        },
    };
    let n = n16 as usize;
    if bytes.len() - p2 < n {
        return None;
    }
    let mut blob: Vec<u8> = Vec::new();
    let mut i: usize = 0;
    while i < n
        invariant
            0 <= i <= n,
            p2 + n <= bytes@.len(),
            bytes@.len() <= usize::MAX,
            blob@ == bytes@.subrange(p2 as int, p2 + i),
        decreases n - i,
    {
        blob.push(bytes[p2 + i]);
        proof {
            assert(blob@ =~= bytes@.subrange(p2 as int, p2 + i + 1));
        }
        i = i + 1;
    }
    Some((blob, p2 + n))
}

/// Reads `n` length-prefixed byte strings at `pos`, as signatures.
fn read_parts(bytes: &Vec<u8>, pos: usize, n: usize) -> (r: Option<(Vec<Signature>, usize)>)
    requires
        pos <= bytes@.len(),
    ensures
        match r {
            Some((parts, next)) => spec_parse_blobs(bytes@, pos as int, n as nat) == Some(
                (seq_bytes(parts@), next as int)) && pos <= next <= bytes@.len()
                && parts@.len() == n && (forall|k: int|
                0 <= k < parts@.len() ==> (#[trigger] parts@[k]).bytes@.len() <= 0xffff),
            None => spec_parse_blobs(bytes@, pos as int, n as nat) is None,
        },
{
    let mut parts: Vec<Signature> = Vec::new();
    let mut cur: usize = pos;
    let mut i: usize = 0;
    while i < n
        invariant
            0 <= i <= n,
            pos <= cur <= bytes@.len(),
            parts@.len() == i,
            forall|k: int| 0 <= k < parts@.len() ==> (#[trigger] parts@[k]).bytes@.len() <= 0xffff,
            ({
                match spec_parse_blobs(bytes@, cur as int, (n - i) as nat) {
                    Some((xs, e)) => spec_parse_blobs(bytes@, pos as int, n as nat) == Some(
                        (seq_bytes(parts@) + xs, e)),
                    None => spec_parse_blobs(bytes@, pos as int, n as nat) is None,
                }
            }),
        decreases n - i,
    {
        let ghost pre_parts = parts@;
        let (blob, next) = match read_blob(bytes, cur) {
            Some(x) => x,
            None => {
                return None;
            },
        };
        parts.push(Signature { bytes: blob });
        proof {
            let ghost (bx, bp) = spec_parse_blob(bytes@, cur as int)->0;
            assert(seq_bytes(parts@) =~= seq_bytes(pre_parts).push(bx));
            match spec_parse_blobs(bytes@, next as int, (n - i - 1) as nat) {
                Some((xs, e)) => {
                    assert(seq_bytes(pre_parts) + (seq![bx] + xs) =~= seq_bytes(parts@) + xs);
                },
                None => {},
            }
        }
        cur = next;
        i = i + 1;
    }
    proof {
        assert(spec_parse_blobs(bytes@, cur as int, 0) == Some(
            (Seq::<Seq<u8>>::empty(), cur as int)));
        assert(seq_bytes(parts@) + Seq::<Seq<u8>>::empty() =~= seq_bytes(parts@));
    }
    Some((parts, cur))
}

/// Reads `n` strictly ascending 16-bit ids at `pos`, from `lo` up,
/// into a signer bitset.
fn read_ids(bytes: &Vec<u8>, pos: usize, n: usize) -> (r: Option<(Vec<usize>, usize)>)
    requires
        pos <= bytes@.len(),
    ensures
        match r {
            Some((ids, next)) => spec_parse_ids(bytes@, pos as int, n as nat, 0) == Some(
                (ids@, next as int)) && pos <= next <= bytes@.len() && ids@.len() == n && (
            forall|k: int| 0 <= k < ids@.len() ==> (#[trigger] ids@[k]) <= 0xffff) && (forall|
                i: int,
                j: int,
            | 0 <= i < j < ids@.len() ==> ids@[i] < ids@[j]),
            None => spec_parse_ids(bytes@, pos as int, n as nat, 0) is None,
        },
{
    let mut ids: Vec<usize> = Vec::new();
    let mut cur: usize = pos;
    let mut i: usize = 0;
    let mut lo: usize = 0;
    let ghost glo: int = 0;
    while i < n
        invariant
            0 <= i <= n,
            pos <= cur <= bytes@.len(),
            ids@.len() == i,
            glo == lo,
            lo <= 0x10000,
            forall|k: int| 0 <= k < ids@.len() ==> (#[trigger] ids@[k]) <= 0xffff,
            forall|k1: int, k2: int| 0 <= k1 < k2 < ids@.len() ==> ids@[k1] < ids@[k2],
            forall|k: int| 0 <= k < ids@.len() ==> (#[trigger] ids@[k]) < lo,
            ({
                match spec_parse_ids(bytes@, cur as int, (n - i) as nat, glo) {
                    Some((xs, e)) => spec_parse_ids(bytes@, pos as int, n as nat, 0) == Some(
                        (ids@ + xs, e)),
                    None => spec_parse_ids(bytes@, pos as int, n as nat, 0) is None,
                }
            }),
        decreases n - i,
    {
        let ghost pre_ids = ids@;
        let (v16, next) = match read_u16(bytes, cur) {
            Some(x) => x,
            None => {
                return None;
            },
        };
        let v = v16 as usize;
        if v < lo {
            return None;
        }
        ids.push(v);
        proof {
            match spec_parse_ids(bytes@, next as int, (n - i - 1) as nat, v + 1) {
                Some((xs, e)) => {
                    assert(pre_ids + (seq![v] + xs) =~= ids@ + xs);
                },
                None => {},
            }
        }
        cur = next;
        lo = v + 1;
        proof {
            glo = (v + 1) as int;
        }
        i = i + 1;
    }
    proof {
        assert(spec_parse_ids(bytes@, cur as int, 0, glo) == Some(
            (Seq::<usize>::empty(), cur as int)));
        assert(ids@ + Seq::<usize>::empty() =~= ids@);
    }
    Some((ids, cur))
}

impl Message {
    /// Decodes a message from the start of `bytes`: the exact inverse
    /// of `serialize`. Fails exactly when no message is encoded there.
    pub fn deserialize(bytes: &Vec<u8>) -> (r: Result<(Message, usize), SerializingError>)
        ensures
            match r {
                Ok((m, used)) => {
                    &&& m.wf()
                    &&& used <= bytes@.len()
                    &&& match spec_parse_message(bytes@) {
                        Some((view, end)) => {
                            &&& end == used
                            &&& m.origin == view.origin
                            &&& m.level == view.level
                            &&& seq_bytes(m.multisig.signature.parts@) == view.parts
                            &&& m.multisig.signers_set() == ids_set(view.signer_ids)
                            &&& match (m.individual, view.individual) {
                                (Option::None, Option::None) => true,
                                (Option::Some(s), Option::Some(v)) => s.bytes@ == v,
                                _ => false,
                            }
                        },
                        None => false,
                    }
                },
                Err(_) => spec_parse_message(bytes@) is None,
            },
    {
        let (origin, _) = match read_u16(bytes, 0) {
            Some(x) => x,
            None => {
                return Err(SerializingError::UnexpectedEnd);
            },
        };
        if bytes.len() < 5 {
            return Err(SerializingError::UnexpectedEnd);
        }
        let level = bytes[2];
        let (pc, _) = match read_u16(bytes, 3) {
            Some(x) => x,
            None => {
                return Err(SerializingError::UnexpectedEnd);
            },
        };
        let (parts, p2) = match read_parts(bytes, 5, pc as usize) {
            Some(x) => x,
            None => {
                return Err(SerializingError::UnexpectedEnd);
            },
        };
        let (ic, p2b) = match read_u16(bytes, p2) {
            Some(x) => x,
            None => {
                return Err(SerializingError::UnexpectedEnd);
            },
        };
        let (ids, p3) = match read_ids(bytes, p2b, ic as usize) {
            Some(x) => x,
            None => {
                return Err(SerializingError::InvalidEncoding);
            },
        };
        if p3 >= bytes.len() {
            return Err(SerializingError::UnexpectedEnd);
        }
        let disc = bytes[p3];
        let (individual, used) = if disc == 0 {
            (None, p3 + 1)
        } else {
            // any non-zero discriminant announces an individual
            match read_blob(bytes, p3 + 1) {
                Some((blob, p4)) => (Some(Signature { bytes: blob }), p4),
                None => {
                    return Err(SerializingError::UnexpectedEnd);
                },
            }
        };
        // rebuild the signer bitset from the ids
        let mut signers = crate::bitset::new_bitset();
        let mut k: usize = 0;
        while k < ids.len()
            invariant
                0 <= k <= ids@.len(),
                forall|q: int| 0 <= q < ids@.len() ==> (#[trigger] ids@[q]) <= 0xffff,
                forall|q1: int, q2: int| 0 <= q1 < q2 < ids@.len() ==> ids@[q1] < ids@[q2],
                bits_of(signers) == ids_set(ids@.take(k as int)),
                bits_of(signers).finite(),
            decreases ids@.len() - k,
        {
            bitset_insert(&mut signers, ids[k]);
            proof {
                assert(ids@.take(k as int + 1) =~= ids@.take(k as int).push(ids@[k as int]));
                Seq::lemma_push_to_set_commute(
                    ids@.take(k as int).map_values(|u: usize| u as int), ids@[k as int] as int);
                assert(ids@.take(k as int + 1).map_values(|u: usize| u as int) =~= ids@.take(
                    k as int).map_values(|u: usize| u as int).push(ids@[k as int] as int));
                assert(bits_of(signers) =~= ids_set(ids@.take(k as int + 1)));
            }
            k = k + 1;
        }
        proof {
            assert(ids@.take(ids@.len() as int) =~= ids@);
            assert(Seq::<usize>::empty().map_values(|u: usize| u as int) =~= Seq::<int>::empty());
            assert(ids_set(Seq::<usize>::empty()) =~= Set::<int>::empty());
        }
        let multisig = MultiSignature {
            signature: AggregateSignature { parts },
            signers,
        };
        proof {
            assert forall|v: int| #[trigger]
                ids_set(ids@).contains(v) implies 0 <= v <= 0xffff by {
                lemma_ids_set_contains(ids@, v);
                let q = choose|q: int| 0 <= q < ids@.len() && (#[trigger] ids@[q]) as int == v;
            }
            let msq = ids@.map_values(|u: usize| u as int);
            assert(msq.no_duplicates()) by {
                assert forall|a: int, b: int|
                    0 <= a < msq.len() && 0 <= b < msq.len() && a != b implies msq[a]
                    != msq[b] by {
                    if a < b {
                        assert(ids@[a] < ids@[b]);
                    } else {
                        assert(ids@[b] < ids@[a]);
                    }
                }
            }
            msq.unique_seq_to_set();
            assert(ids_set(ids@).len() == ids@.len());
        }
        Ok((Message { origin, level, multisig, individual }, used))
    }
}

/// Frames a payload for the wire: a 16-bit big-endian length prefix.
/// Payloads above 1024 bytes are refused.
pub fn encode_frame(payload: &Vec<u8>) -> (r: Result<Vec<u8>, SerializingError>)
    ensures
        payload@.len() <= 1024 ==> match r {
            Ok(frame) => frame@ == spec_ser_u16(payload@.len() as int) + payload@,
            Err(_) => false,
        },
        payload@.len() > 1024 ==> r == Err::<Vec<u8>, SerializingError>(SerializingError::Overflow),
{
    if payload.len() > 1024 {
        return Err(SerializingError::Overflow);
    }
    let mut out: Vec<u8> = Vec::new();
    push_u16(&mut out, payload.len() as u16);
    let mut i: usize = 0;
    while i < payload.len()
        invariant
            0 <= i <= payload@.len(),
            payload@.len() <= 1024,
            out@ == spec_ser_u16(payload@.len() as int) + payload@.take(i as int),
        decreases payload@.len() - i,
    {
        out.push(payload[i]);
        proof {
            assert(out@ =~= spec_ser_u16(payload@.len() as int) + payload@.take(i as int + 1));
        }
        i = i + 1;
    }
    proof {
        assert(payload@.take(payload@.len() as int) =~= payload@);
    }
    Ok(out)
}

/// Reads one frame from the front of a buffer. `Ok(None)` when the
/// buffer does not yet hold a whole frame; an error when the frame
/// length exceeds 1024.
pub fn decode_frame(buf: &Vec<u8>) -> (r: Result<Option<(Vec<u8>, usize)>, SerializingError>)
    ensures
        buf@.len() < 2 ==> r == Ok::<Option<(Vec<u8>, usize)>, SerializingError>(None),
        buf@.len() >= 2 ==> {
            let n = spec_be16(buf@, 0);
            if n > 1024 {
                r == Err::<Option<(Vec<u8>, usize)>, SerializingError>(
                    SerializingError::InvalidEncoding)
            } else if 2 + n > buf@.len() {
                r == Ok::<Option<(Vec<u8>, usize)>, SerializingError>(None)
            } else {
                match r {
                    Ok(Some((payload, used))) => payload@ == buf@.subrange(2, 2 + n) && used == 2
                        + n,
                    _ => false,
                }
            }
        },
{
    let (n16, _) = match read_u16(buf, 0) {
        Some(x) => x,
        None => {
            return Ok(None);
        },
    };
    let n = n16 as usize;
    if n > 1024 {
        return Err(SerializingError::InvalidEncoding);
    }
    if buf.len() - 2 < n {
        return Ok(None);
    }
    let mut payload: Vec<u8> = Vec::new();
    let mut i: usize = 0;
    while i < n
        invariant
            0 <= i <= n,
            2 + n <= buf@.len(),
            buf@.len() <= usize::MAX,
            payload@ == buf@.subrange(2, 2 + i),
        decreases n - i,
    {
        payload.push(buf[2 + i]);
        proof {
            assert(payload@ =~= buf@.subrange(2, 2 + i + 1));
        }
        i = i + 1;
    }
    Ok(Some((payload, 2 + n)))
}

/// A 16-bit value reads back from its own encoding.
proof fn lemma_be16_of_ser(b: Seq<u8>, p: int, v: int)
    requires
        0 <= v <= 0xffff,
        0 <= p,
        p + 2 <= b.len(),
        b[p] == spec_ser_u16(v)[0],
        b[p + 1] == spec_ser_u16(v)[1],
    ensures
        spec_be16(b, p) == v,
{
    assert(spec_ser_u16(v)[0] == (v / 256) as u8);
    assert(spec_ser_u16(v)[1] == (v % 256) as u8);
    assert((v / 256) * 256 + v % 256 == v) by (nonlinear_arith)
        requires
            0 <= v,
    ;
}

/// A blob parses back from its own encoding.
proof fn lemma_parse_blob_of_ser(b: Seq<u8>, p: int, s: Seq<u8>)
    requires
        s.len() <= 0xffff,
        0 <= p,
        p + 2 + s.len() <= b.len(),
        b.subrange(p, p + 2 + s.len()) == spec_ser_blob(s),
    ensures
        spec_parse_blob(b, p) == Some((s, p + 2 + s.len())),
{
    let w = b.subrange(p, p + 2 + s.len());
    assert(b[p] == w[0]);
    assert(b[p + 1] == w[1]);
    lemma_be16_of_ser(b, p, s.len() as int);
    assert(b.subrange(p + 2, p + 2 + s.len()) =~= s) by {
        assert(forall|k: int|
            0 <= k < s.len() ==> #[trigger] b.subrange(p + 2, p + 2 + s.len())[k] == w[2 + k]);
    }
}

/// A blob list parses back from its own encoding.
proof fn lemma_parse_blobs_of_ser(b: Seq<u8>, p: int, ps: Seq<Seq<u8>>)
    requires
        forall|k: int| 0 <= k < ps.len() ==> (#[trigger] ps[k]).len() <= 0xffff,
        0 <= p,
        p + spec_ser_blobs(ps).len() <= b.len(),
        b.subrange(p, p + spec_ser_blobs(ps).len()) == spec_ser_blobs(ps),
    ensures
        spec_parse_blobs(b, p, ps.len() as nat) == Some(
            (ps, p + spec_ser_blobs(ps).len())),
    decreases ps.len(),
{
    if ps.len() == 0 {
        assert(ps =~= Seq::<Seq<u8>>::empty());
    } else {
        let s = ps[0];
        let rest = ps.drop_first();
        let head_len = 2 + s.len() as int;
        assert(spec_ser_blobs(ps) == spec_ser_blob(s) + spec_ser_blobs(rest));
        assert(spec_ser_blob(s).len() == head_len);
        assert(b.subrange(p, p + head_len) =~= spec_ser_blob(s)) by {
            assert(forall|k: int|
                0 <= k < head_len ==> #[trigger] b.subrange(p, p + head_len)[k] == b.subrange(
                    p, p + spec_ser_blobs(ps).len())[k]);
        }
        lemma_parse_blob_of_ser(b, p, s);
        let p2 = p + head_len;
        assert(b.subrange(p2, p2 + spec_ser_blobs(rest).len()) =~= spec_ser_blobs(rest)) by {
            assert(forall|k: int|
                0 <= k < spec_ser_blobs(rest).len() ==> #[trigger] b.subrange(
                    p2, p2 + spec_ser_blobs(rest).len())[k] == b.subrange(
                    p, p + spec_ser_blobs(ps).len())[head_len + k]);
        }
        lemma_parse_blobs_of_ser(b, p2, rest);
        assert(seq![s] + rest =~= ps);
    }
}

/// An ascending id list parses back from its own encoding.
proof fn lemma_parse_ids_of_ser(b: Seq<u8>, p: int, ids: Seq<usize>, lo: int)
    requires
        forall|k: int| 0 <= k < ids.len() ==> (#[trigger] ids[k]) <= 0xffff,
        forall|i: int, j: int| 0 <= i < j < ids.len() ==> ids[i] < ids[j],
        forall|k: int| 0 <= k < ids.len() ==> lo <= (#[trigger] ids[k]) as int,
        0 <= p,
        p + 2 * ids.len() <= b.len(),
        b.subrange(p, p + 2 * ids.len()) == spec_ser_ids(ids),
    ensures
        spec_parse_ids(b, p, ids.len() as nat, lo) == Some((ids, p + 2 * ids.len())),
    decreases ids.len(),
{
    if ids.len() == 0 {
        assert(ids =~= Seq::<usize>::empty());
    } else {
        let v = ids[0] as int;
        let rest = ids.drop_first();
        assert(spec_ser_ids(ids) == spec_ser_u16(v) + spec_ser_ids(rest));
        assert(b[p] == spec_ser_u16(v)[0] && b[p + 1] == spec_ser_u16(v)[1]) by {
            assert(b.subrange(p, p + 2 * ids.len())[0] == spec_ser_ids(ids)[0]);
            assert(b.subrange(p, p + 2 * ids.len())[1] == spec_ser_ids(ids)[1]);
        }
        lemma_be16_of_ser(b, p, v);
        assert(b.subrange(p + 2, p + 2 + 2 * rest.len()) =~= spec_ser_ids(rest)) by {
            lemma_ser_ids_len(rest);
            lemma_ser_ids_len(ids);
            assert(forall|k: int|
                0 <= k < 2 * rest.len() ==> #[trigger] b.subrange(
                    p + 2, p + 2 + 2 * rest.len())[k] == b.subrange(p, p + 2 * ids.len())[2 + k]);
        }
        assert(forall|k: int| 0 <= k < rest.len() ==> v + 1 <= (#[trigger] rest[k]) as int);
        lemma_parse_ids_of_ser(b, p + 2, rest, v + 1);
        assert(seq![v as usize] + rest =~= ids);
    }
}

/// Round trip of the message codec: a well-formed view parses back
/// from its own encoding, consuming it whole.
pub proof fn lemma_message_roundtrip(m: MessageView)
    requires
        m.parts.len() <= 0xffff,
        forall|k: int| 0 <= k < m.parts.len() ==> (#[trigger] m.parts[k]).len() <= 0xffff,
        m.signer_ids.len() <= 0xffff,
        forall|k: int| 0 <= k < m.signer_ids.len() ==> (#[trigger] m.signer_ids[k]) <= 0xffff,
        forall|i: int, j: int|
            0 <= i < j < m.signer_ids.len() ==> m.signer_ids[i] < m.signer_ids[j],
        match m.individual {
            Option::Some(s) => s.len() <= 0xffff,
            Option::None => true,
        },
    ensures
        spec_parse_message(spec_serialize_message(m)) == Some(
            (m, spec_serialize_message(m).len() as int)),
{
    let b = spec_serialize_message(m);
    let pd = spec_ser_blobs(m.parts);
    let fi = spec_ser_ids(m.signer_ids);
    let tail: Seq<u8> = match m.individual {
        Option::None => seq![0u8],
        Option::Some(s) => seq![1u8] + spec_ser_blob(s),
    };
    assert(b == spec_ser_u16(m.origin as int) + seq![m.level] + spec_ser_u16(
        m.parts.len() as int) + pd + spec_ser_u16(m.signer_ids.len() as int) + fi + tail);
    let p_parts: int = 5;
    let p2 = p_parts + pd.len() as int;
    let p3 = p2 + 2 + fi.len() as int;
    assert(b.len() == p3 + tail.len());
    // origin
    assert(b[0] == spec_ser_u16(m.origin as int)[0] && b[1] == spec_ser_u16(m.origin as int)[1]);
    lemma_be16_of_ser(b, 0, m.origin as int);
    // level
    assert(b[2] == m.level);
    // parts count
    assert(b[3] == spec_ser_u16(m.parts.len() as int)[0] && b[4] == spec_ser_u16(
        m.parts.len() as int)[1]);
    lemma_be16_of_ser(b, 3, m.parts.len() as int);
    // the parts themselves
    assert(b.subrange(p_parts, p_parts + pd.len()) =~= pd);
    lemma_parse_blobs_of_ser(b, p_parts, m.parts);
    // signer count
    assert(b[p2] == spec_ser_u16(m.signer_ids.len() as int)[0] && b[p2 + 1] == spec_ser_u16(
        m.signer_ids.len() as int)[1]);
    lemma_be16_of_ser(b, p2, m.signer_ids.len() as int);
    // the ids themselves
    assert(fi.len() == 2 * m.signer_ids.len()) by {
        lemma_ser_ids_len(m.signer_ids);
    }
    assert(b.subrange(p2 + 2, p2 + 2 + 2 * m.signer_ids.len()) =~= fi);
    lemma_parse_ids_of_ser(b, p2 + 2, m.signer_ids, 0);
    // the individual tag and signature
    match m.individual {
        Option::None => {
            assert(b[p3] == 0u8);
        },
        Option::Some(s) => {
            assert(b[p3] == 1u8);
            assert(b.subrange(p3 + 1, p3 + 1 + 2 + s.len()) =~= spec_ser_blob(s));
            lemma_parse_blob_of_ser(b, p3 + 1, s);
        },
    }
}

/// The encoding of an id list is two bytes per id.
proof fn lemma_ser_ids_len(ids: Seq<usize>)
    ensures
        spec_ser_ids(ids).len() == 2 * ids.len(),
    decreases ids.len(),
{
    if ids.len() > 0 {
        lemma_ser_ids_len(ids.drop_first());
    }
}

/// Serializing one more blob appends its encoding.
proof fn lemma_ser_blobs_snoc(ps: Seq<Seq<u8>>, i: int)
    requires
        0 <= i < ps.len(),
    ensures
        spec_ser_blobs(ps.take(i + 1)) == spec_ser_blobs(ps.take(i)) + spec_ser_blob(ps[i]),
    decreases i,
{
    if i == 0 {
        assert(ps.take(1) =~= seq![ps[0]]);
        assert(ps.take(1).drop_first() =~= Seq::<Seq<u8>>::empty());
        assert(ps.take(0) =~= Seq::<Seq<u8>>::empty());
        assert(spec_ser_blobs(Seq::<Seq<u8>>::empty()) =~= Seq::<u8>::empty());
        assert(ps.take(1)[0] == ps[0]);
        assert(spec_ser_blobs(ps.take(1)) == spec_ser_blob(ps[0]) + spec_ser_blobs(
            ps.take(1).drop_first()));
        assert(spec_ser_blobs(ps.take(1)) =~= spec_ser_blob(ps[0]));
        assert(spec_ser_blobs(ps.take(0)) + spec_ser_blob(ps[0]) =~= spec_ser_blob(ps[0]));
    } else {
        lemma_ser_blobs_snoc(ps.drop_first(), i - 1);
        assert(ps.take(i + 1).drop_first() =~= ps.drop_first().take(i));
        assert(ps.take(i).drop_first() =~= ps.drop_first().take(i - 1));
        assert(ps.take(i + 1)[0] == ps[0]);
        assert(ps.take(i)[0] == ps[0]);
        assert(ps.drop_first()[i - 1] == ps[i]);
        assert(spec_ser_blobs(ps.take(i + 1)) == spec_ser_blob(ps[0]) + spec_ser_blobs(
            ps.drop_first().take(i)));
        assert(spec_ser_blobs(ps.take(i)) == spec_ser_blob(ps[0]) + spec_ser_blobs(
            ps.drop_first().take(i - 1)));
        assert(spec_ser_blobs(ps.take(i + 1)) =~= spec_ser_blobs(ps.take(i)) + spec_ser_blob(
            ps[i]));
    }
}

/// Serializing one more id appends its encoding.
proof fn lemma_ser_ids_snoc(ids: Seq<usize>, i: int)
    requires
        0 <= i < ids.len(),
    ensures
        spec_ser_ids(ids.take(i + 1)) == spec_ser_ids(ids.take(i)) + spec_ser_u16(
            ids[i] as int),
    decreases i,
{
    if i == 0 {
        assert(ids.take(1) =~= seq![ids[0]]);
        assert(ids.take(1).drop_first() =~= Seq::<usize>::empty());
        assert(ids.take(0) =~= Seq::<usize>::empty());
        assert(spec_ser_ids(Seq::<usize>::empty()) =~= Seq::<u8>::empty());
        assert(ids.take(1)[0] == ids[0]);
        assert(spec_ser_ids(ids.take(1)) == spec_ser_u16(ids[0] as int) + spec_ser_ids(
            ids.take(1).drop_first()));
        assert(spec_ser_ids(ids.take(1)) =~= spec_ser_u16(ids[0] as int));
        assert(spec_ser_ids(ids.take(0)) + spec_ser_u16(ids[0] as int) =~= spec_ser_u16(
            ids[0] as int));
    } else {
        lemma_ser_ids_snoc(ids.drop_first(), i - 1);
        assert(ids.take(i + 1).drop_first() =~= ids.drop_first().take(i));
        assert(ids.take(i).drop_first() =~= ids.drop_first().take(i - 1));
        assert(ids.take(i + 1)[0] == ids[0]);
        assert(ids.take(i)[0] == ids[0]);
        assert(ids.drop_first()[i - 1] == ids[i]);
        assert(spec_ser_ids(ids.take(i + 1)) =~= spec_ser_ids(ids.take(i)) + spec_ser_u16(
            ids[i] as int));
    }
}

} // verus!
