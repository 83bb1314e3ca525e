//! Cursor-style readers over byte strings, and the facts that make encodings
//! round-trip.
//!
//! Each `read_*_s` spec function reads one field at a position and returns
//! the value with the position after it, or `None` when the bytes there are
//! not a canonical encoding of the field. Each lemma shows that reading at
//! the start of the field's encoding returns the encoded value. The exec
//! readers return exactly what the spec readers denote.

use vstd::prelude::*;

use crate::codec::{enc_opt_id, le_to_u64, read_u64_at, subvec, u64_le};
use crate::hash::{null_id, NodeId};

verus! {

/// One length-prefixed byte field.
pub open spec fn enc_bytes(b: Seq<u8>) -> Seq<u8> {
    u64_le(b.len() as u64) + b
}

/// Read a little-endian `u64` at `pos`.
#[verifier::opaque]
pub open spec fn read_u64_s(s: Seq<u8>, pos: int) -> Option<(u64, int)> {
    if 0 <= pos && pos + 8 <= s.len() {
        Some((le_to_u64(s.subrange(pos, pos + 8)), pos + 8))
    } else {
        None
    }
}

/// Read a length-prefixed byte field at `pos`.
#[verifier::opaque]
pub open spec fn read_bytes_s(s: Seq<u8>, pos: int) -> Option<(Seq<u8>, int)> {
    match read_u64_s(s, pos) {
        Some((n, p)) => {
            if p + n <= s.len() {
                Some((s.subrange(p, p + n), p + n))
            } else {
                None
            }
        },
        None => None,
    }
}

/// Read a twenty-byte id at `pos`.
#[verifier::opaque]
pub open spec fn read_id_s(s: Seq<u8>, pos: int) -> Option<(Seq<u8>, int)> {
    if 0 <= pos && pos + 20 <= s.len() {
        Some((s.subrange(pos, pos + 20), pos + 20))
    } else {
        None
    }
}

/// Read one tagged optional id slot at `pos`.
#[verifier::opaque]
pub open spec fn read_opt_id_s(s: Seq<u8>, pos: int) -> Option<(Option<Seq<u8>>, int)> {
    if 0 <= pos && pos + 21 <= s.len() {
        let tag = s[pos];
        let id = s.subrange(pos + 1, pos + 21);
        if tag == 1 {
            Some((Some(id), pos + 21))
        } else if tag == 0 && id == null_id() {
            Some((None, pos + 21))
        } else {
            None
        }
    } else {
        None
    }
}

/// Reading where a `u64` was encoded returns it.
pub proof fn lemma_read_u64(pre: Seq<u8>, x: u64, rest: Seq<u8>)
    ensures
        read_u64_s(pre + u64_le(x) + rest, pre.len() as int) == Some(
            (x, pre.len() + 8 as int),
        ),
{
    reveal(read_u64_s);
    let s = pre + u64_le(x) + rest;
    assert(s.subrange(pre.len() as int, pre.len() as int + 8) =~= u64_le(x));
    crate::codec::lemma_u64_le_roundtrip(x);
}

/// Reading where a byte field was encoded returns it.
pub proof fn lemma_read_bytes(pre: Seq<u8>, b: Seq<u8>, rest: Seq<u8>)
    requires
        b.len() <= u64::MAX,
    ensures
        read_bytes_s(pre + enc_bytes(b) + rest, pre.len() as int) == Some(
            (b, pre.len() + 8 + b.len() as int),
        ),
{
    reveal(read_bytes_s);
    let s = pre + enc_bytes(b) + rest;
    assert(s =~= pre + u64_le(b.len() as u64) + (b + rest));
    lemma_read_u64(pre, b.len() as u64, b + rest);
    assert(s.subrange(pre.len() as int + 8, pre.len() as int + 8 + b.len() as int) =~= b);
}

/// Reading where an id was encoded returns it.
pub proof fn lemma_read_id(pre: Seq<u8>, id: Seq<u8>, rest: Seq<u8>)
    requires
        id.len() == 20,
    ensures
        read_id_s(pre + id + rest, pre.len() as int) == Some((id, pre.len() + 20 as int)),
{
    reveal(read_id_s);
    let s = pre + id + rest;
    assert(s.subrange(pre.len() as int, pre.len() as int + 20) =~= id);
}

/// Reading where an optional id slot was encoded returns it.
pub proof fn lemma_read_opt_id(pre: Seq<u8>, p: Option<Seq<u8>>, rest: Seq<u8>)
    requires
        p matches Some(id) ==> id.len() == 20,
    ensures
        read_opt_id_s(pre + enc_opt_id(p) + rest, pre.len() as int) == Some(
            (p, pre.len() + 21 as int),
        ),
{
    reveal(read_opt_id_s);
    let s = pre + enc_opt_id(p) + rest;
    match p {
        Some(id) => {
            assert(s[pre.len() as int] == 1);
            assert(s.subrange(pre.len() as int + 1, pre.len() as int + 21) =~= id);
        },
        None => {
            assert(s[pre.len() as int] == 0);
            assert(s.subrange(pre.len() as int + 1, pre.len() as int + 21) =~= null_id());
        },
    }
}

/// Read a little-endian `u64` at `pos`.
pub fn read_u64_x(data: &Vec<u8>, pos: usize) -> (r: Option<(u64, usize)>)
    ensures
        match r {
            Some((x, p)) => read_u64_s(data@, pos as int) == Some((x, p as int)),
            None => read_u64_s(data@, pos as int) is None,
        },
{
    proof {
        reveal(read_u64_s);
    }
    if pos > data.len() || data.len() - pos < 8 {
        return None;
    }
    let x = read_u64_at(data, pos);
    Some((x, pos + 8))
}

/// Read a length-prefixed byte field at `pos`.
pub fn read_bytes_x(data: &Vec<u8>, pos: usize) -> (r: Option<(Vec<u8>, usize)>)
    ensures
        match r {
            Some((b, p)) => read_bytes_s(data@, pos as int) matches Some((bs, ps)) && bs == b@
                && ps == p as int,
            None => read_bytes_s(data@, pos as int) is None,
        },
{
    proof {
        reveal(read_bytes_s);
    }
    match read_u64_x(data, pos) {
        Some((n, p)) => {
            proof {
                reveal(read_u64_s);
                assert(p <= data@.len());
            }
            if n > (data.len() - p) as u64 {
                return None;
            }
            let nu = n as usize;
            let b = subvec(data, p, p + nu);
            Some((b, p + nu))
        },
        None => None,
    }
}

/// Read a twenty-byte id at `pos`.
pub fn read_id_x(data: &Vec<u8>, pos: usize) -> (r: Option<(NodeId, usize)>)
    ensures
        match r {
            Some((id, p)) => read_id_s(data@, pos as int) matches Some((bs, ps)) && bs == id@
                && ps == p as int && id.wf(),
            None => read_id_s(data@, pos as int) is None,
        },
{
    proof {
        reveal(read_id_s);
    }
    if pos > data.len() || data.len() - pos < 20 {
        return None;
    }
    let b = subvec(data, pos, pos + 20);
    Some((NodeId::from_vec(b), pos + 20))
}

/// Read one tagged optional id slot at `pos`.
pub fn read_opt_id_x(data: &Vec<u8>, pos: usize) -> (r: Option<(Option<NodeId>, usize)>)
    ensures
        match r {
            Some((p, q)) => read_opt_id_s(data@, pos as int) matches Some((ps, qs)) && ps
                == crate::hash::opt_id_view(p) && qs == q as int && crate::hash::opt_id_wf(p),
            None => read_opt_id_s(data@, pos as int) is None,
        },
{
    proof {
        reveal(read_opt_id_s);
    }
    if pos > data.len() || data.len() - pos < 21 {
        return None;
    }
    let tag = data[pos];
    let id = subvec(data, pos + 1, pos + 21);
    if tag == 1 {
        Some((Some(NodeId::from_vec(id)), pos + 21))
    } else if tag == 0 && crate::codec::is_all_zero(&id) {
        proof {
            assert(id@ =~= null_id());
        }
        Some((None, pos + 21))
    } else {
        None
    }
}

/// Append a length-prefixed byte field to `out`.
pub fn write_bytes(out: &mut Vec<u8>, b: &Vec<u8>)
    ensures
        final(out)@ == old(out)@ + enc_bytes(b@),
{
    crate::codec::write_u64(out, b.len() as u64);
    crate::hash::append_bytes(out, b);
    assert(out@ =~= old(out)@ + enc_bytes(b@));
}

} // verus!
