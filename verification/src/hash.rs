//! Node identifiers, content hashing, and blobstore key layout.
//!
//! A `NodeId` is a 20-byte identifier for a changeset, manifest node, or
//! filenode. Only equality, bytewise ordering, and hex formatting are defined
//! on it. Content addresses are the SHA-1 of the blob bytes, computed through
//! the `sha1` crate.

use vstd::prelude::*;

use sha1::Digest;

verus! {

/// The digest that `sha1::Sha1` computes for the given bytes.
///
/// The digest is a pure function of the input bytes; nothing more is assumed
/// of its value here.
pub uninterp spec fn sha1_of(data: Seq<u8>) -> Seq<u8>;

/// Relies on `sha1::Sha1` (RustCrypto `sha1` crate): `Digest::digest` returns
/// the 20-byte SHA-1 digest of the input, a function of the input bytes alone.
#[verifier::external_body]
pub fn sha1_digest(data: &Vec<u8>) -> (r: Vec<u8>)
    ensures
        r@ == sha1_of(data@),
        r@.len() == 20,
{
    let out = sha1::Sha1::digest(data.as_slice());
    out.as_slice().to_vec()
}

/// The ASCII code of the lowercase hex digit for one nibble.
pub open spec fn hex_nibble(n: u8) -> u8
    recommends
        n < 16,
{
    if n < 10 {
        (0x30 + n) as u8
    } else {
        (0x57 + n) as u8
    }
}

/// Lowercase hex rendering of a byte string, two digits per byte.
pub open spec fn hex_of(s: Seq<u8>) -> Seq<u8> {
    Seq::new(
        s.len() * 2,
        |i: int|
            if i % 2 == 0 {
                hex_nibble(s[i / 2] >> 4)
            } else {
                hex_nibble(s[i / 2] & 0x0f)
            },
    )
}

fn hex_nibble_byte(n: u8) -> (r: u8)
    requires
        n < 16,
    ensures
        r == hex_nibble(n),
{
    if n < 10 {
        0x30 + n
    } else {
        0x57 + n
    }
}

/// Render a byte string as lowercase hex.
pub fn hex_bytes(s: &Vec<u8>) -> (r: Vec<u8>)
    ensures
        r@ == hex_of(s@),
{
    let mut out: Vec<u8> = Vec::new();
    let mut i: usize = 0;
    while i < s.len()
        invariant
            i <= s@.len(),
            out@.len() == 2 * i,
            forall|j: int| 0 <= j < 2 * i ==> out@[j] == #[trigger] hex_of(s@)[j],
        decreases s@.len() - i,
    {
        let b = s[i];
        assert(b >> 4 < 16) by (bit_vector);
        assert(b & 0x0f < 16) by (bit_vector);
        out.push(hex_nibble_byte(b >> 4));
        out.push(hex_nibble_byte(b & 0x0f));
        i = i + 1;
    }
    assert(out@ =~= hex_of(s@));
    out
}

/// Bytewise (lexicographic) "less than or equal" on byte strings, with a
/// shorter prefix ordered before every extension of it.
pub open spec fn lex_le(a: Seq<u8>, b: Seq<u8>) -> bool
    decreases a.len(),
{
    if a.len() == 0 {
        true
    } else if b.len() == 0 {
        false
    } else if a[0] < b[0] {
        true
    } else if a[0] > b[0] {
        false
    } else {
        lex_le(a.skip(1), b.skip(1))
    }
}

/// Strict bytewise order.
pub open spec fn lex_lt(a: Seq<u8>, b: Seq<u8>) -> bool {
    lex_le(a, b) && a != b
}

/// The bytewise order relates every pair of byte strings one way or the other.
pub proof fn lemma_lex_le_total(a: Seq<u8>, b: Seq<u8>)
    ensures
        lex_le(a, b) || lex_le(b, a),
    decreases a.len(),
{
    if a.len() != 0 && b.len() != 0 && a[0] == b[0] {
        lemma_lex_le_total(a.skip(1), b.skip(1));
    }
}

/// Two byte strings each at or below the other are equal.
pub proof fn lemma_lex_le_antisym(a: Seq<u8>, b: Seq<u8>)
    requires
        lex_le(a, b),
        lex_le(b, a),
    ensures
        a == b,
    decreases a.len(),
{
    if a.len() == 0 {
        assert(b.len() == 0);
        assert(a =~= b);
    } else {
        assert(b.len() != 0);
        assert(a[0] == b[0]);
        lemma_lex_le_antisym(a.skip(1), b.skip(1));
        assert(a =~= seq![a[0]] + a.skip(1));
        assert(b =~= seq![b[0]] + b.skip(1));
    }
}

/// The bytewise order is transitive.
pub proof fn lemma_lex_le_trans(a: Seq<u8>, b: Seq<u8>, c: Seq<u8>)
    requires
        lex_le(a, b),
        lex_le(b, c),
    ensures
        lex_le(a, c),
    decreases a.len(),
{
    if a.len() != 0 && b.len() != 0 && c.len() != 0 && a[0] == b[0] && b[0] == c[0] {
        lemma_lex_le_trans(a.skip(1), b.skip(1), c.skip(1));
    }
}

/// Compare two byte strings in bytewise order.
pub fn lex_le_bytes(a: &Vec<u8>, b: &Vec<u8>) -> (r: bool)
    ensures
        r == lex_le(a@, b@),
{
    let mut i: usize = 0;
    assert(a@.skip(0) =~= a@);
    assert(b@.skip(0) =~= b@);
    loop
        invariant
            i <= a@.len(),
            i <= b@.len(),
            lex_le(a@, b@) == lex_le(a@.skip(i as int), b@.skip(i as int)),
        decreases a@.len() - i,
    {
        if i == a.len() {
            assert(a@.skip(i as int).len() == 0);
            return true;
        }
        if i == b.len() {
            assert(b@.skip(i as int).len() == 0);
            assert(a@.skip(i as int).len() != 0);
            return false;
        }
        let x = a[i];
        let y = b[i];
        assert(a@.skip(i as int)[0] == a@[i as int]);
        assert(b@.skip(i as int)[0] == b@[i as int]);
        if x < y {
            return true;
        }
        if x > y {
            return false;
        }
        assert(a@.skip(i as int).skip(1) =~= a@.skip(i as int + 1));
        assert(b@.skip(i as int).skip(1) =~= b@.skip(i as int + 1));
        i = i + 1;
    }
}

/// Compare two byte strings in strict bytewise order.
pub fn lex_lt_bytes(a: &Vec<u8>, b: &Vec<u8>) -> (r: bool)
    ensures
        r == lex_lt(a@, b@),
{
    let le = lex_le_bytes(a, b);
    let eq = a == b;
    proof {
        if a@ =~= b@ {
            assert(a@ == b@);
        }
    }
    le && !eq
}

/// A 20-byte identifier for a changeset, manifest node, or filenode.
#[derive(Debug)]
pub struct NodeId {
    bytes: Vec<u8>,
}

impl View for NodeId {
    type V = Seq<u8>;

    closed spec fn view(&self) -> Seq<u8> {
        self.bytes@
    }
}

impl NodeId {
    /// A node id always holds exactly 20 bytes.
    pub open spec fn wf(&self) -> bool {
        self@.len() == 20
    }

    pub fn from_vec(bytes: Vec<u8>) -> (r: NodeId)
        requires
            bytes@.len() == 20,
        ensures
            r.wf(),
            r@ == bytes@,
    {
        NodeId { bytes }
    }

    /// The all-zero id that stands in for an absent parent when hashing.
    pub fn null() -> (r: NodeId)
        ensures
            r.wf(),
            r@ == null_id(),
    {
        let mut bytes: Vec<u8> = Vec::new();
        let mut i: usize = 0;
        while i < 20
            invariant
                i <= 20,
                bytes@.len() == i,
                forall|j: int| 0 <= j < i ==> bytes@[j] == 0u8,
            decreases 20 - i,
        {
            bytes.push(0u8);
            i = i + 1;
        }
        assert(bytes@ =~= null_id());
        NodeId { bytes }
    }

    /// The identifier's bytes.
    pub fn as_bytes(&self) -> (r: &Vec<u8>)
        ensures
            r@ == self@,
    {
        &self.bytes
    }

    /// The identifier rendered as forty lowercase hex digits.
    pub fn to_hex(&self) -> (r: Vec<u8>)
        ensures
            r@ == hex_of(self@),
    {
        hex_bytes(&self.bytes)
    }
}

impl Clone for NodeId {
    fn clone(&self) -> (r: Self)
        ensures
            r@ == self@,
            r.wf() == self.wf(),
    {
        let mut bytes: Vec<u8> = Vec::new();
        let mut i: usize = 0;
        while i < self.bytes.len()
            invariant
                i <= self.bytes@.len(),
                bytes@.len() == i,
                forall|j: int| 0 <= j < i ==> bytes@[j] == self.bytes@[j],
            decreases self.bytes@.len() - i,
        {
            bytes.push(self.bytes[i]);
            i = i + 1;
        }
        assert(bytes@ =~= self.bytes@);
        NodeId { bytes }
    }
}

impl PartialEq for NodeId {
    fn eq(&self, other: &NodeId) -> (r: bool) {
        let r = self.bytes == other.bytes;
        proof {
            if self.bytes@ =~= other.bytes@ {
                assert(self.bytes@ == other.bytes@);
            }
        }
        r
    }
}

impl Eq for NodeId {

}

impl vstd::std_specs::cmp::PartialEqSpecImpl for NodeId {
    open spec fn obeys_eq_spec() -> bool {
        true
    }

    open spec fn eq_spec(&self, other: &NodeId) -> bool {
        self@ == other@
    }
}

/// The 20 zero bytes standing in for an absent parent when hashing.
pub open spec fn null_id() -> Seq<u8> {
    Seq::new(20, |i: int| 0u8)
}

/// The view of an optional node id.
pub open spec fn opt_id_view(p: Option<NodeId>) -> Option<Seq<u8>> {
    match p {
        Some(n) => Some(n@),
        None => None,
    }
}

/// An optional node id is well formed when a present id is.
pub open spec fn opt_id_wf(p: Option<NodeId>) -> bool {
    match p {
        Some(n) => n.wf(),
        None => true,
    }
}

/// An ordered pair of optional parent identifiers; an empty pair is a root.
#[derive(Debug)]
pub struct Parents {
    pub p1: Option<NodeId>,
    pub p2: Option<NodeId>,
}

impl View for Parents {
    type V = (Option<Seq<u8>>, Option<Seq<u8>>);

    open spec fn view(&self) -> (Option<Seq<u8>>, Option<Seq<u8>>) {
        (opt_id_view(self.p1), opt_id_view(self.p2))
    }
}

impl Parents {
    pub open spec fn wf(&self) -> bool {
        opt_id_wf(self.p1) && opt_id_wf(self.p2)
    }

    pub fn new(p1: Option<NodeId>, p2: Option<NodeId>) -> (r: Parents)
        ensures
            r.p1 == p1,
            r.p2 == p2,
    {
        Parents { p1, p2 }
    }
}

/// Clone an optional node id, preserving its view.
pub fn clone_opt_id(p: &Option<NodeId>) -> (r: Option<NodeId>)
    ensures
        opt_id_view(r) == opt_id_view(*p),
        opt_id_wf(*p) ==> opt_id_wf(r),
{
    match p {
        Some(n) => Some(n.clone()),
        None => None,
    }
}

impl Clone for Parents {
    fn clone(&self) -> (r: Self)
        ensures
            r@ == self@,
            r.wf() == self.wf(),
    {
        let r = Parents { p1: clone_opt_id(&self.p1), p2: clone_opt_id(&self.p2) };
        proof {
            match (&self.p1, &r.p1) {
                (Some(a), Some(b)) => assert(a.wf() == b.wf()),
                _ => (),
            }
            match (&self.p2, &r.p2) {
                (Some(a), Some(b)) => assert(a.wf() == b.wf()),
                _ => (),
            }
        }
        r
    }
}

impl PartialEq for Parents {
    fn eq(&self, other: &Parents) -> (r: bool) {
        let e1 = match (&self.p1, &other.p1) {
            (Some(a), Some(b)) => a == b,
            (None, None) => true,
            _ => false,
        };
        let e2 = match (&self.p2, &other.p2) {
            (Some(a), Some(b)) => a == b,
            (None, None) => true,
            _ => false,
        };
        e1 && e2
    }
}

impl Eq for Parents {

}

impl vstd::std_specs::cmp::PartialEqSpecImpl for Parents {
    open spec fn obeys_eq_spec() -> bool {
        true
    }

    open spec fn eq_spec(&self, other: &Parents) -> bool {
        self@ == other@
    }
}

/// Append the bytes of `src` to `dst`.
pub fn append_bytes(dst: &mut Vec<u8>, src: &Vec<u8>)
    ensures
        final(dst)@ == old(dst)@ + src@,
{
    let mut i: usize = 0;
    while i < src.len()
        invariant
            i <= src@.len(),
            dst@.len() == old(dst)@.len() + i,
            forall|j: int| 0 <= j < old(dst)@.len() ==> dst@[j] == old(dst)@[j],
            forall|j: int| 0 <= j < i ==> dst@[old(dst)@.len() + j] == src@[j],
        decreases src@.len() - i,
    {
        dst.push(src[i]);
        i = i + 1;
    }
    assert(dst@ =~= old(dst)@ + src@);
}

/// Clone a vector of node ids, preserving each id's view.
pub fn clone_id_vec(v: &Vec<NodeId>) -> (r: Vec<NodeId>)
    ensures
        r@.len() == v@.len(),
        forall|i: int| 0 <= i < v@.len() ==> r@[i]@ == v@[i]@,
        forall|i: int| 0 <= i < v@.len() ==> ((#[trigger] r@[i]).wf() == v@[i].wf()),
{
    let mut out: Vec<NodeId> = Vec::new();
    let mut i: usize = 0;
    while i < v.len()
        invariant
            i <= v@.len(),
            out@.len() == i,
            forall|j: int| 0 <= j < i ==> out@[j]@ == v@[j]@,
            forall|j: int| 0 <= j < i ==> ((#[trigger] out@[j]).wf() == v@[j].wf()),
        decreases v@.len() - i,
    {
        out.push(v[i].clone());
        i = i + 1;
    }
    out
}

/// The bytes whose SHA-1 is a node's id: the two parent ids in bytewise
/// order (absent parents as twenty zero bytes), then the content.
pub open spec fn nodeid_material(
    p1: Option<Seq<u8>>,
    p2: Option<Seq<u8>>,
    content: Seq<u8>,
) -> Seq<u8> {
    let a = match p1 {
        Some(s) => s,
        None => null_id(),
    };
    let b = match p2 {
        Some(s) => s,
        None => null_id(),
    };
    if lex_le(a, b) {
        a + b + content
    } else {
        b + a + content
    }
}

/// The id of a node with the given parents and content.
pub open spec fn nodeid_of(p1: Option<Seq<u8>>, p2: Option<Seq<u8>>, content: Seq<u8>) -> Seq<u8> {
    sha1_of(nodeid_material(p1, p2, content))
}

/// Compute the id of a node from its parents and its content bytes.
pub fn compute_nodeid(p1: &Option<NodeId>, p2: &Option<NodeId>, content: &Vec<u8>) -> (r: NodeId)
    ensures
        r.wf(),
        r@ == nodeid_of(opt_id_view(*p1), opt_id_view(*p2), content@),
{
    let a = match p1 {
        Some(n) => n.clone(),
        None => NodeId::null(),
    };
    let b = match p2 {
        Some(n) => n.clone(),
        None => NodeId::null(),
    };
    let mut material: Vec<u8> = Vec::new();
    if lex_le_bytes(&a.as_bytes(), &b.as_bytes()) {
        append_bytes(&mut material, a.as_bytes());
        append_bytes(&mut material, b.as_bytes());
    } else {
        append_bytes(&mut material, b.as_bytes());
        append_bytes(&mut material, a.as_bytes());
    }
    append_bytes(&mut material, content);
    let digest = sha1_digest(&material);
    NodeId::from_vec(digest)
}

/// The blobstore key of a content blob: `sha1-` then the hex of the digest.
pub open spec fn blob_key_view(sha: Seq<u8>) -> Seq<u8> {
    seq![0x73u8, 0x68u8, 0x61u8, 0x31u8, 0x2du8] + hex_of(sha)
}

/// The blobstore key of a raw node record: `node:` then the hex of the id.
pub open spec fn node_key_view(node: Seq<u8>) -> Seq<u8> {
    seq![0x6eu8, 0x6fu8, 0x64u8, 0x65u8, 0x3au8] + hex_of(node)
}

/// Build the blobstore key of a content blob.
pub fn get_blob_key(sha: &Vec<u8>) -> (r: Vec<u8>)
    ensures
        r@ == blob_key_view(sha@),
{
    let mut out: Vec<u8> = Vec::new();
    out.push(0x73);
    out.push(0x68);
    out.push(0x61);
    out.push(0x31);
    out.push(0x2d);
    let hex = hex_bytes(sha);
    append_bytes(&mut out, &hex);
    assert(out@ =~= blob_key_view(sha@));
    out
}

/// Build the blobstore key of a raw node record.
pub fn get_node_key(node: &NodeId) -> (r: Vec<u8>)
    ensures
        r@ == node_key_view(node@),
{
    let mut out: Vec<u8> = Vec::new();
    out.push(0x6e);
    out.push(0x6f);
    out.push(0x64);
    out.push(0x65);
    out.push(0x3a);
    let hex = hex_bytes(node.as_bytes());
    append_bytes(&mut out, &hex);
    assert(out@ =~= node_key_view(node@));
    out
}

} // verus!
