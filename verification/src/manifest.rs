//! Manifests: tree nodes enumerating path→node bindings.
//!
//! A manifest blob is a count followed by one row per child: the
//! length-prefixed path, the twenty-byte node id, and a type byte. A tree
//! row's node refers to another manifest; the other rows are file variants.

use vstd::prelude::*;

use crate::codec::u64_le;
use crate::hash::NodeId;
use crate::kvlist::{kv_map, lemma_kv_map_take_unfold};
use crate::wire::{
    enc_bytes, lemma_read_bytes, lemma_read_id, lemma_read_u64, read_bytes_s, read_bytes_x,
    read_id_s, read_id_x, read_u64_s, read_u64_x, write_bytes,
};

verus! {

/// What a manifest row refers to.
#[derive(Clone, Copy, Debug, PartialEq, Eq, Structural)]
pub enum EntryType {
    File,
    Executable,
    Symlink,
    Tree,
}

/// The byte that stands for an entry type on the wire.
pub open spec fn type_byte(t: EntryType) -> u8 {
    match t {
        EntryType::File => 0,
        EntryType::Executable => 1,
        EntryType::Symlink => 2,
        EntryType::Tree => 3,
    }
}

fn type_to_byte(t: EntryType) -> (r: u8)
    ensures
        r == type_byte(t),
{
    match t {
        EntryType::File => 0,
        EntryType::Executable => 1,
        EntryType::Symlink => 2,
        EntryType::Tree => 3,
    }
}

fn byte_to_type(b: u8) -> (r: Option<EntryType>)
    ensures
        match r {
            Some(t) => type_byte(t) == b,
            None => b > 3,
        },
{
    if b == 0 {
        Some(EntryType::File)
    } else if b == 1 {
        Some(EntryType::Executable)
    } else if b == 2 {
        Some(EntryType::Symlink)
    } else if b == 3 {
        Some(EntryType::Tree)
    } else {
        None
    }
}

/// One manifest row: a path bound to a node of some type.
#[derive(Debug)]
pub struct ManifestEntry {
    pub path: Vec<u8>,
    pub node: NodeId,
    pub ty: EntryType,
}

impl ManifestEntry {
    pub open spec fn view_item(&self) -> (Seq<u8>, Seq<u8>, EntryType) {
        (self.path@, self.node@, self.ty)
    }

    pub open spec fn wf(&self) -> bool {
        self.node.wf()
    }
}

impl Clone for ManifestEntry {
    fn clone(&self) -> (r: Self)
        ensures
            r.view_item() == self.view_item(),
            r.wf() == self.wf(),
    {
        let r = ManifestEntry {
            path: crate::codec::subvec(&self.path, 0, self.path.len()),
            node: self.node.clone(),
            ty: self.ty,
        };
        proof {
            assert(r.path@ =~= self.path@);
        }
        r
    }
}

/// The encoding of one manifest row.
pub open spec fn enc_manifest_entry(e: (Seq<u8>, Seq<u8>, EntryType)) -> Seq<u8> {
    enc_bytes(e.0) + e.1 + seq![type_byte(e.2)]
}

/// The encoding of a run of manifest rows, in order.
pub open spec fn enc_manifest_items(items: Seq<(Seq<u8>, Seq<u8>, EntryType)>) -> Seq<u8>
    decreases items.len(),
{
    if items.len() == 0 {
        Seq::empty()
    } else {
        enc_manifest_entry(items[0]) + enc_manifest_items(items.skip(1))
    }
}

/// Appending one row extends the encoding at the back.
pub proof fn lemma_enc_items_snoc(items: Seq<(Seq<u8>, Seq<u8>, EntryType)>, e: (Seq<u8>, Seq<u8>, EntryType))
    ensures
        enc_manifest_items(items.push(e)) == enc_manifest_items(items) + enc_manifest_entry(e),
    decreases items.len(),
{
    if items.len() == 0 {
        let p = items.push(e);
        assert(p[0] == e);
        assert(p.skip(1) =~= Seq::<(Seq<u8>, Seq<u8>, EntryType)>::empty());
        assert(enc_manifest_items(p.skip(1)) == Seq::<u8>::empty());
        assert(enc_manifest_items(p) == enc_manifest_entry(e) + Seq::<u8>::empty());
        assert(enc_manifest_entry(e) + Seq::<u8>::empty() =~= enc_manifest_entry(e));
        assert(enc_manifest_items(items) == Seq::<u8>::empty());
        assert(Seq::<u8>::empty() + enc_manifest_entry(e) =~= enc_manifest_entry(e));
    } else {
        assert(items.push(e)[0] == items[0]);
        assert(items.push(e).skip(1) =~= items.skip(1).push(e));
        lemma_enc_items_snoc(items.skip(1), e);
        assert(enc_manifest_items(items.push(e)) =~= enc_manifest_items(items)
            + enc_manifest_entry(e));
    }
}

/// The full manifest encoding: the row count, then the rows.
pub open spec fn manifest_enc(items: Seq<(Seq<u8>, Seq<u8>, EntryType)>) -> Seq<u8> {
    u64_le(items.len() as u64) + enc_manifest_items(items)
}

/// The path→(node, type) mapping a listing denotes, later rows winning.
pub open spec fn listing_map(items: Seq<(Seq<u8>, Seq<u8>, EntryType)>) -> Map<
    Seq<u8>,
    (Seq<u8>, EntryType),
> {
    kv_map(Seq::new(items.len(), |i: int| (items[i].0, (items[i].1, items[i].2))))
}

/// Read one manifest row at `pos`.
pub open spec fn read_entry_s(s: Seq<u8>, pos: int) -> Option<((Seq<u8>, Seq<u8>, EntryType), int)> {
    match read_bytes_s(s, pos) {
        Some((path, p1)) => match read_id_s(s, p1) {
            Some((node, p2)) => {
                if p2 < s.len() && s[p2] == 0 {
                    Some(((path, node, EntryType::File), p2 + 1))
                } else if p2 < s.len() && s[p2] == 1 {
                    Some(((path, node, EntryType::Executable), p2 + 1))
                } else if p2 < s.len() && s[p2] == 2 {
                    Some(((path, node, EntryType::Symlink), p2 + 1))
                } else if p2 < s.len() && s[p2] == 3 {
                    Some(((path, node, EntryType::Tree), p2 + 1))
                } else {
                    None
                }
            },
            None => None,
        },
        None => None,
    }
}

/// Read `n` manifest rows starting at `pos`.
pub open spec fn read_items_s(s: Seq<u8>, pos: int, n: int) -> Option<
    (Seq<(Seq<u8>, Seq<u8>, EntryType)>, int),
>
    decreases n,
{
    if n <= 0 {
        Some((Seq::empty(), pos))
    } else {
        match read_entry_s(s, pos) {
            Some((e, p)) => match read_items_s(s, p, n - 1) {
                Some((rest, end)) => Some((seq![e] + rest, end)),
                None => None,
            },
            None => None,
        }
    }
}

/// The decoding of a manifest blob, or `None` when the bytes are not a
/// canonical encoding.
pub open spec fn manifest_dec(s: Seq<u8>) -> Option<Seq<(Seq<u8>, Seq<u8>, EntryType)>> {
    match read_u64_s(s, 0) {
        Some((n, p)) => match read_items_s(s, p, n as int) {
            Some((items, end)) => {
                if end == s.len() {
                    Some(items)
                } else {
                    None
                }
            },
            None => None,
        },
        None => None,
    }
}

/// Reading where one row was encoded returns it.
#[verifier::rlimit(100)]
#[verifier::spinoff_prover]
pub proof fn lemma_read_entry(pre: Seq<u8>, e: (Seq<u8>, Seq<u8>, EntryType), rest: Seq<u8>)
    requires
        e.0.len() <= u64::MAX,
        e.1.len() == 20,
    ensures
        read_entry_s(pre + enc_manifest_entry(e) + rest, pre.len() as int) == Some(
            (e, pre.len() + enc_manifest_entry(e).len() as int),
        ),
{
    let s = pre + enc_manifest_entry(e) + rest;
    assert(s =~= pre + enc_bytes(e.0) + (e.1 + seq![type_byte(e.2)] + rest));
    lemma_read_bytes(pre, e.0, e.1 + seq![type_byte(e.2)] + rest);
    let p1 = pre.len() + 8 + e.0.len() as int;
    assert(s =~= (pre + enc_bytes(e.0)) + e.1 + (seq![type_byte(e.2)] + rest));
    lemma_read_id(pre + enc_bytes(e.0), e.1, seq![type_byte(e.2)] + rest);
    let p2 = p1 + 20;
    assert(s[p2] == type_byte(e.2));
}

/// Reading where a run of rows was encoded returns the rows.
#[verifier::rlimit(100)]
#[verifier::spinoff_prover]
pub proof fn lemma_read_items(
    pre: Seq<u8>,
    items: Seq<(Seq<u8>, Seq<u8>, EntryType)>,
    rest: Seq<u8>,
)
    requires
        forall|i: int| 0 <= i < items.len() ==> (#[trigger] items[i]).0.len() <= u64::MAX
            && items[i].1.len() == 20,
    ensures
        read_items_s(pre + enc_manifest_items(items) + rest, pre.len() as int, items.len() as int)
            == Some((items, pre.len() + enc_manifest_items(items).len() as int)),
    decreases items.len(),
{
    let s = pre + enc_manifest_items(items) + rest;
    if items.len() == 0 {
        assert(s =~= pre + rest);
        assert(read_items_s(s, pre.len() as int, 0) == Some(
            (Seq::<(Seq<u8>, Seq<u8>, EntryType)>::empty(), pre.len() as int),
        ));
        assert(items =~= Seq::<(Seq<u8>, Seq<u8>, EntryType)>::empty());
    } else {
        let e = items[0];
        let tail = items.skip(1);
        assert(s =~= pre + enc_manifest_entry(e) + (enc_manifest_items(tail) + rest));
        lemma_read_entry(pre, e, enc_manifest_items(tail) + rest);
        let p = pre.len() + enc_manifest_entry(e).len() as int;
        assert(s =~= (pre + enc_manifest_entry(e)) + enc_manifest_items(tail) + rest);
        assert(forall|i: int| 0 <= i < tail.len() ==> (#[trigger] tail[i]).0.len() <= u64::MAX
            && tail[i].1.len() == 20) by {
            assert(forall|i: int| 0 <= i < tail.len() ==> tail[i] == items[i + 1]);
        }
        lemma_read_items(pre + enc_manifest_entry(e), tail, rest);
        assert(seq![e] + tail =~= items);
    }
}

/// Decoding a manifest encoding returns exactly the encoded rows.
#[verifier::rlimit(100)]
#[verifier::spinoff_prover]
pub proof fn lemma_manifest_roundtrip(items: Seq<(Seq<u8>, Seq<u8>, EntryType)>)
    requires
        items.len() <= u64::MAX,
        forall|i: int| 0 <= i < items.len() ==> (#[trigger] items[i]).0.len() <= u64::MAX
            && items[i].1.len() == 20,
    ensures
        manifest_dec(manifest_enc(items)) == Some(items),
{
    let s = manifest_enc(items);
    let body = enc_manifest_items(items);
    assert(s =~= Seq::<u8>::empty() + u64_le(items.len() as u64) + body);
    lemma_read_u64(Seq::empty(), items.len() as u64, body);
    assert(s =~= u64_le(items.len() as u64) + body + Seq::<u8>::empty());
    lemma_read_items(u64_le(items.len() as u64), items, Seq::empty());
}

/// A decoded manifest: the listing of one tree node.
pub struct BlobManifest {
    entries: Vec<ManifestEntry>,
}

impl BlobManifest {
    /// The rows as views, in order.
    pub closed spec fn items_view(&self) -> Seq<(Seq<u8>, Seq<u8>, EntryType)> {
        Seq::new(self.entries@.len(), |i: int| self.entries@[i].view_item())
    }

    /// The path→(node, type) mapping of the listing, later rows winning.
    pub open spec fn lookup_map(&self) -> Map<Seq<u8>, (Seq<u8>, EntryType)> {
        listing_map(self.items_view())
    }

    pub open spec fn wf(&self) -> bool {
        &&& forall|i: int| 0 <= i < self.items_view().len() ==> (
        #[trigger] self.items_view()[i]).1.len() == 20
        &&& self.items_view().len() <= u64::MAX
        &&& forall|i: int| 0 <= i < self.items_view().len() ==> (
        #[trigger] self.items_view()[i]).0.len() <= u64::MAX
    }

    /// Build a manifest from rows.
    pub fn from_entries(entries: Vec<ManifestEntry>) -> (r: BlobManifest)
        requires
            forall|i: int| 0 <= i < entries@.len() ==> (#[trigger] entries@[i]).wf(),
        ensures
            r.wf(),
            r.items_view() == Seq::new(entries@.len(), |i: int| entries@[i].view_item()),
    {
        let r = BlobManifest { entries };
        proof {
            assert forall|i: int| 0 <= i < r.items_view().len() implies (
            #[trigger] r.items_view()[i]).1.len() == 20 && r.items_view()[i].0.len()
                <= u64::MAX by {
                assert(r.entries@[i].wf());
                assert(r.entries@[i].path.len() == r.entries@[i].path@.len());
            }
            assert(r.entries.len() == r.entries@.len());
        }
        r
    }

    /// The rows, in order.
    pub fn list(&self) -> (r: Vec<ManifestEntry>)
        ensures
            r@.len() == self.items_view().len(),
            forall|i: int| 0 <= i < r@.len() ==> (#[trigger] r@[i]).view_item()
                == self.items_view()[i],
            self.wf() ==> forall|i: int| 0 <= i < r@.len() ==> (#[trigger] r@[i]).wf(),
    {
        let mut out: Vec<ManifestEntry> = Vec::new();
        let mut i: usize = 0;
        while i < self.entries.len()
            invariant
                i <= self.entries@.len(),
                self.items_view().len() == self.entries@.len(),
                out@.len() == i,
                forall|j: int| 0 <= j < i ==> (#[trigger] out@[j]).view_item()
                    == self.items_view()[j],
                self.wf() ==> forall|j: int| 0 <= j < i ==> (#[trigger] out@[j]).wf(),
            decreases self.entries@.len() - i,
        {
            proof {
                if self.wf() {
                    assert(self.items_view()[i as int].1.len() == 20);
                    assert(self.entries@[i as int].wf());
                }
            }
            out.push(self.entries[i].clone());
            i = i + 1;
        }
        out
    }

    /// Find the node and type bound to `path`, if any.
    pub fn lookup(&self, path: &Vec<u8>) -> (r: Option<(NodeId, EntryType)>)
        requires
            self.wf(),
        ensures
            match r {
                Some((node, ty)) => self.lookup_map().contains_key(path@)
                    && self.lookup_map()[path@] == (node@, ty) && node.wf(),
                None => !self.lookup_map().contains_key(path@),
            },
    {
        let ghost whole = Seq::new(
            self.items_view().len(),
            |i: int| (self.items_view()[i].0, (self.items_view()[i].1, self.items_view()[i].2)),
        );
        let mut i: usize = self.entries.len();
        proof {
            assert(whole.take(i as int) =~= whole);
        }
        loop
            invariant
                i <= self.entries@.len(),
                whole.len() == self.entries@.len(),
                whole == Seq::new(
                    self.items_view().len(),
                    |j: int|
                        (self.items_view()[j].0, (self.items_view()[j].1, self.items_view()[j].2)),
                ),
                self.wf(),
                kv_map(whole).contains_key(path@) == kv_map(whole.take(i as int)).contains_key(
                    path@,
                ),
                kv_map(whole).contains_key(path@) ==> kv_map(whole)[path@] == kv_map(
                    whole.take(i as int),
                )[path@],
            decreases i,
        {
            if i == 0 {
                proof {
                    assert(whole.take(0) =~= Seq::<(Seq<u8>, (Seq<u8>, EntryType))>::empty());
                }
                return None;
            }
            i = i - 1;
            proof {
                lemma_kv_map_take_unfold(whole, i as int);
            }
            if self.entries[i].path == *path {
                proof {
                    if self.entries@[i as int].path@ =~= path@ {
                        assert(whole[i as int].0 == path@);
                    }
                    assert(self.entries@[i as int].wf()) by {
                        assert(self.items_view()[i as int].1.len() == 20);
                    }
                }
                return Some((self.entries[i].node.clone(), self.entries[i].ty));
            }
            proof {
                assert(whole[i as int].0 != path@);
            }
        }
    }

    /// Serialize the listing into its canonical form.
    pub fn encode(&self) -> (r: Vec<u8>)
        requires
            self.wf(),
        ensures
            r@ == manifest_enc(self.items_view()),
    {
        let mut out: Vec<u8> = Vec::new();
        crate::codec::write_u64(&mut out, self.entries.len() as u64);
        let mut i: usize = 0;
        proof {
            assert(self.items_view().take(0) =~= Seq::<(Seq<u8>, Seq<u8>, EntryType)>::empty());
            assert(out@ =~= u64_le(self.entries@.len() as u64) + enc_manifest_items(
                self.items_view().take(0),
            ));
        }
        while i < self.entries.len()
            invariant
                i <= self.entries@.len(),
                self.wf(),
                self.items_view().len() == self.entries@.len(),
                out@ == u64_le(self.entries@.len() as u64) + enc_manifest_items(
                    self.items_view().take(i as int),
                ),
            decreases self.entries@.len() - i,
        {
            let e = &self.entries[i];
            let ghost pre = out@;
            write_bytes(&mut out, &e.path);
            crate::hash::append_bytes(&mut out, e.node.as_bytes());
            out.push(type_to_byte(e.ty));
            proof {
                let item = self.items_view()[i as int];
                assert(out@ =~= pre + enc_manifest_entry(item));
                lemma_enc_items_snoc(self.items_view().take(i as int), item);
                assert(self.items_view().take(i as int).push(item) =~= self.items_view().take(
                    i as int + 1,
                ));
            }
            i = i + 1;
        }
        proof {
            assert(self.items_view().take(self.entries@.len() as int) =~= self.items_view());
        }
        out
    }

    /// Parse a canonical manifest blob.
    pub fn decode(data: &Vec<u8>) -> (r: Option<BlobManifest>)
        ensures
            match r {
                Some(m) => m.wf() && manifest_dec(data@) == Some(m.items_view()),
                None => manifest_dec(data@) is None,
            },
    {
        let (n, start) = match read_u64_x(data, 0) {
            Some(x) => x,
            None => {
                return None;
            },
        };
        proof {
            reveal(crate::wire::read_u64_s);
            assert(start <= data@.len());
        }
        let mut entries: Vec<ManifestEntry> = Vec::new();
        let mut pos: usize = start;
        let mut i: u64 = 0;
        proof {
            assert(Seq::new(entries@.len(), |j: int| entries@[j].view_item()) =~= Seq::<
                (Seq<u8>, Seq<u8>, EntryType),
            >::empty());
        }
        while i < n
            invariant
                i <= n,
                read_u64_s(data@, 0) == Some((n, start as int)),
                pos <= data@.len(),
                entries@.len() == i,
                forall|j: int| 0 <= j < entries@.len() ==> (#[trigger] entries@[j]).wf(),
                match read_items_s(data@, pos as int, n - i) {
                    Some((rest, end)) => read_items_s(data@, start as int, n as int) == Some(
                        (Seq::new(entries@.len(), |j: int| entries@[j].view_item()) + rest, end),
                    ),
                    None => read_items_s(data@, start as int, n as int) is None,
                },
            decreases n - i,
        {
            let ghost items_so_far = Seq::new(entries@.len(), |j: int| entries@[j].view_item());
            let (path, p1) = match read_bytes_x(data, pos) {
                Some(x) => x,
                None => {
                    return None;
                },
            };
            let (node, p2) = match read_id_x(data, p1) {
                Some(x) => x,
                None => {
                    return None;
                },
            };
            if p2 >= data.len() {
                return None;
            }
            let tb = data[p2];
            let ty = match byte_to_type(tb) {
                Some(t) => t,
                None => {
                    return None;
                },
            };
            let entry = ManifestEntry { path, node, ty };
            let ghost e = entry.view_item();
            proof {
                assert(read_entry_s(data@, pos as int) == Some((e, p2 + 1 as int)));
            }
            entries.push(entry);
            proof {
                let new_items = Seq::new(entries@.len(), |j: int| entries@[j].view_item());
                assert(new_items =~= items_so_far.push(e));
                match read_items_s(data@, p2 + 1 as int, n - i - 1) {
                    Some((rest, end)) => {
                        assert(seq![e] + rest =~= new_items.skip(items_so_far.len() as int)
                            + rest) by {
                            assert(new_items.skip(items_so_far.len() as int) =~= seq![e]);
                        }
                        assert(items_so_far + (seq![e] + rest) =~= new_items + rest);
                    },
                    None => {
                    },
                }
            }
            pos = p2 + 1;
            i = i + 1;
        }
        proof {
            assert(read_items_s(data@, pos as int, 0) == Some(
                (Seq::<(Seq<u8>, Seq<u8>, EntryType)>::empty(), pos as int),
            ));
            let items = Seq::new(entries@.len(), |j: int| entries@[j].view_item());
            assert(items + Seq::<(Seq<u8>, Seq<u8>, EntryType)>::empty() =~= items);
        }
        if pos != data.len() {
            return None;
        }
        let r = BlobManifest { entries };
        proof {
            assert forall|j: int| 0 <= j < r.items_view().len() implies (
            #[trigger] r.items_view()[j]).1.len() == 20 && r.items_view()[j].0.len()
                <= u64::MAX by {
                assert(r.entries@[j].wf());
                assert(r.entries@[j].path.len() == r.entries@[j].path@.len());
            }
            assert(r.entries.len() == r.entries@.len());
        }
        Some(r)
    }
}

} // verus!
