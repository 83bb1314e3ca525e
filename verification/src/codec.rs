//! Binary encodings of persisted records.
//!
//! The raw node record stored beside every addressable object is a fixed
//! 62-byte form: two parent slots of one tag byte plus twenty id bytes each
//! (an absent parent is tagged zero and zero-padded), then the twenty bytes of
//! the content digest. Variable-length records use little-endian `u64` length
//! prefixes. Encodings are canonical: decoding accepts exactly the encodings
//! that encoding produces.

use vstd::prelude::*;

use crate::hash::{null_id, NodeId, Parents};

verus! {

/// The eight bytes of a `u64`, least significant first.
pub open spec fn u64_le(x: u64) -> Seq<u8> {
    seq![
        (x & 0xff) as u8,
        ((x >> 8) & 0xff) as u8,
        ((x >> 16) & 0xff) as u8,
        ((x >> 24) & 0xff) as u8,
        ((x >> 32) & 0xff) as u8,
        ((x >> 40) & 0xff) as u8,
        ((x >> 48) & 0xff) as u8,
        ((x >> 56) & 0xff) as u8,
    ]
}

/// The `u64` read from eight bytes, least significant first.
pub open spec fn le_to_u64(s: Seq<u8>) -> u64
    recommends
        s.len() == 8,
{
    ((s[0] as u64) | ((s[1] as u64) << 8) | ((s[2] as u64) << 16) | ((s[3] as u64) << 24) | (
    (s[4] as u64) << 32) | ((s[5] as u64) << 40) | ((s[6] as u64) << 48) | ((s[7] as u64)
        << 56)) as u64
}

/// Reading back the eight little-endian bytes of `x` gives `x`.
pub proof fn lemma_u64_le_roundtrip(x: u64)
    ensures
        le_to_u64(u64_le(x)) == x,
{
    let s = u64_le(x);
    assert(((((x & 0xff) as u8) as u64) | ((((x >> 8) & 0xff) as u8) as u64) << 8 | ((((x >> 16)
        & 0xff) as u8) as u64) << 16 | ((((x >> 24) & 0xff) as u8) as u64) << 24 | ((((x >> 32)
        & 0xff) as u8) as u64) << 32 | ((((x >> 40) & 0xff) as u8) as u64) << 40 | ((((x >> 48)
        & 0xff) as u8) as u64) << 48 | ((((x >> 56) & 0xff) as u8) as u64) << 56) as u64 == x)
        by (bit_vector);
}

/// Append the eight little-endian bytes of `x` to `out`.
pub fn write_u64(out: &mut Vec<u8>, x: u64)
    ensures
        final(out)@ == old(out)@ + u64_le(x),
{
    assert((x & 0xff) < 256 && ((x >> 8) & 0xff) < 256 && ((x >> 16) & 0xff) < 256 && ((x >> 24)
        & 0xff) < 256 && ((x >> 32) & 0xff) < 256 && ((x >> 40) & 0xff) < 256 && ((x >> 48) & 0xff)
        < 256 && ((x >> 56) & 0xff) < 256) by (bit_vector);
    out.push((x & 0xff) as u8);
    out.push(((x >> 8) & 0xff) as u8);
    out.push(((x >> 16) & 0xff) as u8);
    out.push(((x >> 24) & 0xff) as u8);
    out.push(((x >> 32) & 0xff) as u8);
    out.push(((x >> 40) & 0xff) as u8);
    out.push(((x >> 48) & 0xff) as u8);
    out.push(((x >> 56) & 0xff) as u8);
    assert(out@ =~= old(out)@ + u64_le(x));
}

/// Read the `u64` stored in little-endian form at `pos`.
pub fn read_u64_at(data: &Vec<u8>, pos: usize) -> (r: u64)
    requires
        pos + 8 <= data@.len(),
    ensures
        r == le_to_u64(data@.subrange(pos as int, pos as int + 8)),
{
    let n = data.len();
    assert(pos + 8 <= n);
    let b0 = data[pos] as u64;
    let b1 = data[pos + 1] as u64;
    let b2 = data[pos + 2] as u64;
    let b3 = data[pos + 3] as u64;
    let b4 = data[pos + 4] as u64;
    let b5 = data[pos + 5] as u64;
    let b6 = data[pos + 6] as u64;
    let b7 = data[pos + 7] as u64;
    let r = b0 | (b1 << 8) | (b2 << 16) | (b3 << 24) | (b4 << 32) | (b5 << 40) | (b6 << 48) | (b7
        << 56);
    proof {
        let s = data@.subrange(pos as int, pos as int + 8);
        assert(s[0] == data@[pos as int]);
        assert(s[1] == data@[pos as int + 1]);
        assert(s[2] == data@[pos as int + 2]);
        assert(s[3] == data@[pos as int + 3]);
        assert(s[4] == data@[pos as int + 4]);
        assert(s[5] == data@[pos as int + 5]);
        assert(s[6] == data@[pos as int + 6]);
        assert(s[7] == data@[pos as int + 7]);
    }
    r
}

/// Copy the bytes of `data` from `start` (inclusive) to `end` (exclusive).
pub fn subvec(data: &Vec<u8>, start: usize, end: usize) -> (r: Vec<u8>)
    requires
        start <= end,
        end <= data@.len(),
    ensures
        r@ == data@.subrange(start as int, end as int),
{
    let mut out: Vec<u8> = Vec::new();
    let mut i: usize = start;
    while i < end
        invariant
            start <= i <= end,
            end <= data@.len(),
            out@.len() == i - start,
            forall|j: int| 0 <= j < i - start ==> out@[j] == data@[start + j],
        decreases end - i,
    {
        out.push(data[i]);
        i = i + 1;
    }
    assert(out@ =~= data@.subrange(start as int, end as int));
    out
}

/// Whether every byte of `v` is zero.
pub fn is_all_zero(v: &Vec<u8>) -> (r: bool)
    ensures
        r == (forall|i: int| 0 <= i < v@.len() ==> v@[i] == 0u8),
{
    let mut i: usize = 0;
    while i < v.len()
        invariant
            i <= v@.len(),
            forall|j: int| 0 <= j < i ==> v@[j] == 0u8,
        decreases v@.len() - i,
    {
        if v[i] != 0 {
            return false;
        }
        i = i + 1;
    }
    true
}

/// One parent slot: a presence tag, then twenty id bytes (zeros when absent).
pub open spec fn enc_opt_id(p: Option<Seq<u8>>) -> Seq<u8> {
    match p {
        Some(s) => seq![1u8] + s,
        None => seq![0u8] + null_id(),
    }
}

/// The raw node record: both parent slots, then the content digest.
pub open spec fn node_blob_enc(p1: Option<Seq<u8>>, p2: Option<Seq<u8>>, sha: Seq<u8>) -> Seq<u8> {
    enc_opt_id(p1) + enc_opt_id(p2) + sha
}

/// The decoding of a raw node record, or `None` when the bytes are not a
/// canonical encoding.
pub open spec fn node_blob_dec(s: Seq<u8>) -> Option<
    (Option<Seq<u8>>, Option<Seq<u8>>, Seq<u8>),
> {
    if s.len() != 62 {
        None
    } else {
        let t1 = s[0];
        let i1 = s.subrange(1, 21);
        let t2 = s[21];
        let i2 = s.subrange(22, 42);
        let sha = s.subrange(42, 62);
        if t1 == 1 && t2 == 1 {
            Some((Some(i1), Some(i2), sha))
        } else if t1 == 1 && t2 == 0 && i2 == null_id() {
            Some((Some(i1), None, sha))
        } else if t1 == 0 && t2 == 1 && i1 == null_id() {
            Some((None, Some(i2), sha))
        } else if t1 == 0 && t2 == 0 && i1 == null_id() && i2 == null_id() {
            Some((None, None, sha))
        } else {
            None
        }
    }
}

/// Decoding a raw node record encoding returns exactly the encoded fields.
pub proof fn lemma_node_record_roundtrip(p1: Option<Seq<u8>>, p2: Option<Seq<u8>>, sha: Seq<u8>)
    requires
        p1 matches Some(s) ==> s.len() == 20,
        p2 matches Some(s) ==> s.len() == 20,
        sha.len() == 20,
    ensures
        node_blob_dec(node_blob_enc(p1, p2, sha)) == Some((p1, p2, sha)),
{
    let s = node_blob_enc(p1, p2, sha);
    let e1 = enc_opt_id(p1);
    let e2 = enc_opt_id(p2);
    assert(e1.len() == 21);
    assert(e2.len() == 21);
    assert(s.len() == 62);
    assert(s[0] == e1[0]);
    assert(s[21] == e2[0]);
    assert(s.subrange(1, 21) =~= e1.subrange(1, 21));
    assert(s.subrange(22, 42) =~= e2.subrange(1, 21));
    assert(s.subrange(42, 62) =~= sha);
    match p1 {
        Some(id) => {
            assert(e1[0] == 1);
            assert(e1.subrange(1, 21) =~= id);
        },
        None => {
            assert(e1[0] == 0);
            assert(e1.subrange(1, 21) =~= null_id());
        },
    }
    match p2 {
        Some(id) => {
            assert(e2[0] == 1);
            assert(e2.subrange(1, 21) =~= id);
        },
        None => {
            assert(e2[0] == 0);
            assert(e2.subrange(1, 21) =~= null_id());
        },
    }
}

/// The raw node record stored beside every addressable object: the object's
/// parents and the digest of its content blob.
pub struct NodeBlob {
    pub parents: Parents,
    pub blob: Vec<u8>,
}

impl NodeBlob {
    /// Parents are well formed and the digest holds exactly twenty bytes.
    pub open spec fn wf(&self) -> bool {
        self.parents.wf() && self.blob@.len() == 20
    }

    pub fn new(parents: Parents, blob: Vec<u8>) -> (r: NodeBlob)
        ensures
            r.parents == parents,
            r.blob == blob,
    {
        NodeBlob { parents, blob }
    }

    /// Serialize the record into its canonical 62-byte form.
    pub fn encode(&self) -> (r: Vec<u8>)
        requires
            self.wf(),
        ensures
            r@ == node_blob_enc(self.parents@.0, self.parents@.1, self.blob@),
            r@.len() == 62,
    {
        let mut out: Vec<u8> = Vec::new();
        push_opt_id(&mut out, &self.parents.p1);
        push_opt_id(&mut out, &self.parents.p2);
        crate::hash::append_bytes(&mut out, &self.blob);
        assert(out@ =~= node_blob_enc(self.parents@.0, self.parents@.1, self.blob@));
        out
    }

    /// Parse a canonical 62-byte raw node record.
    pub fn decode(data: &Vec<u8>) -> (r: Option<NodeBlob>)
        ensures
            match r {
                Some(nb) => nb.wf() && node_blob_dec(data@) == Some(
                    (nb.parents@.0, nb.parents@.1, nb.blob@),
                ),
                None => node_blob_dec(data@).is_none(),
            },
    {
        if data.len() != 62 {
            return None;
        }
        let t1 = data[0];
        let i1 = subvec(data, 1, 21);
        let t2 = data[21];
        let i2 = subvec(data, 22, 42);
        let sha = subvec(data, 42, 62);
        let p1: Option<NodeId> = if t1 == 1 {
            Some(NodeId::from_vec(i1))
        } else if t1 == 0 && is_all_zero(&i1) {
            proof {
                assert(i1@ =~= null_id());
            }
            None
        } else {
            return None;
        };
        let p2: Option<NodeId> = if t2 == 1 {
            Some(NodeId::from_vec(i2))
        } else if t2 == 0 && is_all_zero(&i2) {
            proof {
                assert(i2@ =~= null_id());
            }
            None
        } else {
            return None;
        };
        Some(NodeBlob { parents: Parents::new(p1, p2), blob: sha })
    }
}

/// Append one tagged optional id slot to `out`.
pub fn push_opt_id(out: &mut Vec<u8>, p: &Option<NodeId>)
    requires
        crate::hash::opt_id_wf(*p),
    ensures
        final(out)@ == old(out)@ + enc_opt_id(crate::hash::opt_id_view(*p)),
{
    match p {
        Some(n) => {
            out.push(1u8);
            crate::hash::append_bytes(out, n.as_bytes());
        },
        None => {
            out.push(0u8);
            let z = NodeId::null();
            crate::hash::append_bytes(out, z.as_bytes());
        },
    }
    assert(out@ =~= old(out)@ + enc_opt_id(crate::hash::opt_id_view(*p)));
}

} // verus!

