//! The filenodes index: one record per historical version of one path.
//!
//! Records are keyed by `(path, filenode)`. A batch insert is atomic and
//! idempotent per key: re-inserting an identical record changes nothing, and
//! a batch carrying a record that differs from the one already stored under
//! its key fails without changing the index.

use vstd::prelude::*;

use crate::errors::ErrorKind;
use crate::hash::{opt_id_view, opt_id_wf, NodeId};
use crate::kvlist::{kv_map, lemma_kv_map_take_unfold};

verus! {

/// The mathematical content of one filenode record.
pub struct FnRec {
    pub path: Seq<u8>,
    pub node: Seq<u8>,
    pub p1: Option<Seq<u8>>,
    pub p2: Option<Seq<u8>>,
    pub copyfrom: Option<(Seq<u8>, Seq<u8>)>,
    pub linknode: Seq<u8>,
}

/// The key a record is stored under.
pub open spec fn fn_key(r: FnRec) -> (Seq<u8>, Seq<u8>) {
    (r.path, r.node)
}

/// A stored filenode record.
pub struct FileNodeInfo {
    pub path: Vec<u8>,
    pub filenode: NodeId,
    pub p1: Option<NodeId>,
    pub p2: Option<NodeId>,
    pub copyfrom: Option<(Vec<u8>, NodeId)>,
    pub linknode: NodeId,
}

impl FileNodeInfo {
    /// The record this entry denotes.
    pub open spec fn rec(&self) -> FnRec {
        FnRec {
            path: self.path@,
            node: self.filenode@,
            p1: opt_id_view(self.p1),
            p2: opt_id_view(self.p2),
            copyfrom: match self.copyfrom {
                Some((p, n)) => Some((p@, n@)),
                None => None,
            },
            linknode: self.linknode@,
        }
    }

    pub open spec fn wf(&self) -> bool {
        &&& self.filenode.wf()
        &&& opt_id_wf(self.p1)
        &&& opt_id_wf(self.p2)
        &&& match self.copyfrom {
            Some((_, n)) => n.wf(),
            None => true,
        }
        &&& self.linknode.wf()
    }
}

impl Clone for FileNodeInfo {
    fn clone(&self) -> (r: Self)
        ensures
            r.rec() == self.rec(),
            r.wf() == self.wf(),
    {
        let copyfrom: Option<(Vec<u8>, NodeId)> = match &self.copyfrom {
            Some((p, n)) => Some((crate::codec::subvec(p, 0, p.len()), n.clone())),
            None => None,
        };
        let r = FileNodeInfo {
            path: crate::codec::subvec(&self.path, 0, self.path.len()),
            filenode: self.filenode.clone(),
            p1: crate::hash::clone_opt_id(&self.p1),
            p2: crate::hash::clone_opt_id(&self.p2),
            copyfrom,
            linknode: self.linknode.clone(),
        };
        proof {
            assert(r.path@ =~= self.path@);
            match (&self.copyfrom, &r.copyfrom) {
                (Some((p, n)), Some((q, m))) => {
                    assert(q@ =~= p@);
                    assert(m.wf() == n.wf());
                },
                _ => (),
            }
            match (&self.p1, &r.p1) {
                (Some(a), Some(b)) => assert(a.wf() == b.wf()),
                _ => (),
            }
            match (&self.p2, &r.p2) {
                (Some(a), Some(b)) => assert(a.wf() == b.wf()),
                _ => (),
            }
        }
        r
    }
}

/// Whether two stored records denote the same mathematical record.
pub fn filenode_eq(a: &FileNodeInfo, b: &FileNodeInfo) -> (r: bool)
    ensures
        r == (a.rec() == b.rec()),
{
    let paths = a.path == b.path;
    let nodes = a.filenode == b.filenode;
    let p1s = a.p1 == b.p1;
    let p2s = a.p2 == b.p2;
    let links = a.linknode == b.linknode;
    let copies = match (&a.copyfrom, &b.copyfrom) {
        (Some((p, n)), Some((q, m))) => p == q && n == m,
        (None, None) => true,
        _ => false,
    };
    let r = paths && nodes && p1s && p2s && links && copies;
    proof {
        if a.path@ =~= b.path@ {
            assert(a.path@ == b.path@);
        }
        match (&a.copyfrom, &b.copyfrom) {
            (Some((p, n)), Some((q, m))) => {
                if p@ =~= q@ {
                    assert(p@ == q@);
                }
            },
            _ => (),
        }
        if r {
            assert(a.rec() == b.rec());
        }
    }
    r
}

/// The key/record views of a sequence of stored records.
pub open spec fn fn_entries_view(s: Seq<FileNodeInfo>) -> Seq<((Seq<u8>, Seq<u8>), FnRec)> {
    Seq::new(s.len(), |i: int| (fn_key(s[i].rec()), s[i].rec()))
}

/// The result of folding a batch of records into the map: each record is
/// inserted under its key; one that equals the stored record is skipped; one
/// that differs from it refuses the whole batch.
pub open spec fn add_fold(m: Map<(Seq<u8>, Seq<u8>), FnRec>, recs: Seq<FnRec>) -> Option<
    Map<(Seq<u8>, Seq<u8>), FnRec>,
>
    decreases recs.len(),
{
    if recs.len() == 0 {
        Some(m)
    } else {
        let k = fn_key(recs[0]);
        if m.contains_key(k) {
            if m[k] == recs[0] {
                add_fold(m, recs.skip(1))
            } else {
                None
            }
        } else {
            add_fold(m.insert(k, recs[0]), recs.skip(1))
        }
    }
}

/// Inserting the same record twice has the same final state as inserting it
/// once.
pub proof fn lemma_filenode_insert_idempotent(m: Map<(Seq<u8>, Seq<u8>), FnRec>, r: FnRec)
    ensures
        add_fold(m, seq![r, r]) == add_fold(m, seq![r]),
{
    let two = seq![r, r];
    let one = seq![r];
    assert(two[0] == r);
    assert(one[0] == r);
    assert(two.skip(1) =~= one);
    assert(one.skip(1) =~= Seq::<FnRec>::empty());
    let k = fn_key(r);
    if m.contains_key(k) {
        if m[k] == r {
            assert(add_fold(m, two) == add_fold(m, one));
            assert(add_fold(m, one) == add_fold(m, one.skip(1)));
        } else {
            assert(add_fold(m, two).is_none());
            assert(add_fold(m, one).is_none());
        }
    } else {
        let m1 = m.insert(k, r);
        assert(m1.contains_key(k) && m1[k] == r);
        assert(add_fold(m, two) == add_fold(m1, one));
        assert(add_fold(m1, one) == add_fold(m1, one.skip(1)));
        assert(add_fold(m, one) == add_fold(m1, one.skip(1)));
    }
}

/// A batch holding two differing records under one key is refused whatever
/// the index holds.
pub proof fn lemma_filenode_conflict(m: Map<(Seq<u8>, Seq<u8>), FnRec>, r1: FnRec, r2: FnRec)
    requires
        fn_key(r1) == fn_key(r2),
        r1 != r2,
    ensures
        add_fold(m, seq![r1, r2]).is_none(),
{
    let two = seq![r1, r2];
    let second = seq![r2];
    assert(two[0] == r1);
    assert(second[0] == r2);
    assert(two.skip(1) =~= second);
    let k = fn_key(r1);
    if m.contains_key(k) {
        if m[k] == r1 {
            assert(m[k] != r2);
            assert(add_fold(m, two) == add_fold(m, second));
            assert(add_fold(m, second).is_none());
        } else {
            assert(add_fold(m, two).is_none());
        }
    } else {
        let m1 = m.insert(k, r1);
        assert(m1[k] == r1);
        assert(m1[k] != r2);
        assert(add_fold(m, two) == add_fold(m1, second));
        assert(add_fold(m1, second).is_none());
    }
}

/// A successful fold keeps every stored record and stores every batch
/// record under its key.
pub proof fn lemma_add_fold_members(
    m: Map<(Seq<u8>, Seq<u8>), FnRec>,
    recs: Seq<FnRec>,
    m2: Map<(Seq<u8>, Seq<u8>), FnRec>,
)
    requires
        add_fold(m, recs) == Some(m2),
    ensures
        forall|k: (Seq<u8>, Seq<u8>)| #[trigger]
            m.contains_key(k) ==> m2.contains_key(k) && m2[k] == m[k],
        forall|i: int| 0 <= i < recs.len() ==> m2.contains_key(fn_key(#[trigger] recs[i]))
            && m2[fn_key(recs[i])] == recs[i],
        forall|k: (Seq<u8>, Seq<u8>)| #[trigger]
            m2.contains_key(k) ==> m.contains_key(k) || exists|i: int|
                0 <= i < recs.len() && fn_key(#[trigger] recs[i]) == k,
    decreases recs.len(),
{
    if recs.len() > 0 {
        let r0 = recs[0];
        let k0 = fn_key(r0);
        let tail = recs.skip(1);
        if m.contains_key(k0) {
            lemma_add_fold_members(m, tail, m2);
            assert forall|i: int| 0 <= i < recs.len() implies m2.contains_key(
                fn_key(#[trigger] recs[i]),
            ) && m2[fn_key(recs[i])] == recs[i] by {
                if i == 0 {
                    assert(m2[k0] == m[k0]);
                } else {
                    assert(tail[i - 1] == recs[i]);
                }
            }
            assert forall|k: (Seq<u8>, Seq<u8>)| #[trigger] m2.contains_key(k) implies
                m.contains_key(k) || exists|i: int|
                0 <= i < recs.len() && fn_key(#[trigger] recs[i]) == k by {
                if !m.contains_key(k) {
                    let i = choose|i: int| 0 <= i < tail.len() && fn_key(#[trigger] tail[i]) == k;
                    assert(fn_key(recs[i + 1]) == k);
                }
            }
        } else {
            let m1 = m.insert(k0, r0);
            lemma_add_fold_members(m1, tail, m2);
            assert forall|k: (Seq<u8>, Seq<u8>)| #[trigger] m.contains_key(k) implies
                m2.contains_key(k) && m2[k] == m[k] by {
                assert(m1.contains_key(k) && m1[k] == m[k]);
            }
            assert forall|i: int| 0 <= i < recs.len() implies m2.contains_key(
                fn_key(#[trigger] recs[i]),
            ) && m2[fn_key(recs[i])] == recs[i] by {
                if i == 0 {
                    assert(m1.contains_key(k0) && m1[k0] == r0);
                } else {
                    assert(tail[i - 1] == recs[i]);
                }
            }
            assert forall|k: (Seq<u8>, Seq<u8>)| #[trigger] m2.contains_key(k) implies
                m.contains_key(k) || exists|i: int|
                0 <= i < recs.len() && fn_key(#[trigger] recs[i]) == k by {
                if !m.contains_key(k) && k != k0 {
                    assert(!m1.contains_key(k));
                    let i = choose|i: int| 0 <= i < tail.len() && fn_key(#[trigger] tail[i]) == k;
                    assert(fn_key(recs[i + 1]) == k);
                }
                if k == k0 {
                    assert(fn_key(recs[0]) == k);
                }
            }
        }
    }
}

/// An in-memory filenodes index.
pub struct Filenodes {
    entries: Vec<FileNodeInfo>,
}

impl Filenodes {
    /// The entries as key/record views.
    pub closed spec fn entries_view(&self) -> Seq<((Seq<u8>, Seq<u8>), FnRec)> {
        fn_entries_view(self.entries@)
    }

    /// The `(path, node)`→record mapping the index holds.
    pub closed spec fn contents(&self) -> Map<(Seq<u8>, Seq<u8>), FnRec> {
        kv_map(self.entries_view())
    }

    /// How many entries the index holds (spec-level).
    pub closed spec fn num_entries(&self) -> int {
        self.entries@.len() as int
    }

    /// Whether the entry at `i` is well formed (spec-level).
    pub closed spec fn entry_wf(&self, i: int) -> bool {
        self.entries@[i].wf()
    }

    /// Every stored entry is well formed.
    pub open spec fn inv(&self) -> bool {
        forall|i: int| 0 <= i < self.num_entries() ==> self.entry_wf(i)
    }

    pub fn new() -> (r: Self)
        ensures
            r.contents() == Map::<(Seq<u8>, Seq<u8>), FnRec>::empty(),
            r.inv(),
    {
        let r = Filenodes { entries: Vec::new() };
        proof {
            assert(r.entries_view() =~= Seq::<((Seq<u8>, Seq<u8>), FnRec)>::empty());
        }
        r
    }

    /// Fetch the record stored for `(path, node)`, if any.
    pub fn get_filenode(&self, path: &Vec<u8>, node: &NodeId) -> (r: Option<FileNodeInfo>)
        requires
            self.inv(),
        ensures
            match r {
                Some(e) => self.contents().contains_key((path@, node@)) && e.rec()
                    == self.contents()[(path@, node@)] && e.wf(),
                None => !self.contents().contains_key((path@, node@)),
            },
    {
        match find_filenode(&self.entries, path, node) {
            Some(i) => {
                proof {
                    assert(self.entries_view()[i as int].1 == self.entries@[i as int].rec());
                    assert(self.entry_wf(i as int));
                }
                Some(self.entries[i].clone())
            },
            None => None,
        }
    }

    /// Insert a batch of records as one atomic write.
    ///
    /// Succeeds exactly when no record of the batch differs from a record
    /// already stored — or inserted earlier in the batch — under the same
    /// key; on failure the index is unchanged.
    pub fn add(&mut self, batch: &Vec<FileNodeInfo>) -> (r: Result<(), ErrorKind>)
        requires
            old(self).inv(),
            forall|i: int| 0 <= i < batch@.len() ==> (#[trigger] batch@[i]).wf(),
        ensures
            final(self).inv(),
            match r {
                Ok(_) => add_fold(old(self).contents(), batch_recs(batch@)) == Some(
                    final(self).contents(),
                ),
                Err(e) => e matches ErrorKind::ConflictingFileNode && final(self).contents()
                    == old(self).contents() && add_fold(
                    old(self).contents(),
                    batch_recs(batch@),
                ).is_none(),
            },
    {
        match self.apply_batch(batch) {
            Ok(entries) => {
                self.entries = entries;
                Ok(())
            },
            Err(e) => Err(e),
        }
    }

    /// Build the entry list that results from folding `batch` into the index.
    fn apply_batch(&self, batch: &Vec<FileNodeInfo>) -> (r: Result<Vec<FileNodeInfo>, ErrorKind>)
        requires
            self.inv(),
            forall|i: int| 0 <= i < batch@.len() ==> (#[trigger] batch@[i]).wf(),
        ensures
            match r {
                Ok(v) => add_fold(self.contents(), batch_recs(batch@)) == Some(
                    kv_map(fn_entries_view(v@)),
                ) && forall|i: int| 0 <= i < v@.len() ==> (#[trigger] v@[i]).wf(),
                Err(e) => e matches ErrorKind::ConflictingFileNode && add_fold(
                    self.contents(),
                    batch_recs(batch@),
                ).is_none(),
            },
    {
        let ghost recs = batch_recs(batch@);
        let mut out: Vec<FileNodeInfo> = clone_filenode_vec(&self.entries);
        proof {
            assert(fn_entries_view(out@) =~= self.entries_view());
            assert(recs.skip(0) =~= recs);
            assert forall|j: int| 0 <= j < out@.len() implies (#[trigger] out@[j]).wf() by {
                assert(self.entry_wf(j));
            }
        }
        let mut i: usize = 0;
        while i < batch.len()
            invariant
                i <= batch@.len(),
                recs == batch_recs(batch@),
                self.inv(),
                forall|j: int| 0 <= j < batch@.len() ==> (#[trigger] batch@[j]).wf(),
                forall|j: int| 0 <= j < out@.len() ==> (#[trigger] out@[j]).wf(),
                add_fold(self.contents(), recs) == add_fold(
                    kv_map(fn_entries_view(out@)),
                    recs.skip(i as int),
                ),
            decreases batch@.len() - i,
        {
            let ghost m = kv_map(fn_entries_view(out@));
            let ghost rest = recs.skip(i as int);
            proof {
                assert(rest[0] == recs[i as int]);
                assert(recs[i as int] == batch@[i as int].rec());
                assert(rest.skip(1) =~= recs.skip(i as int + 1));
            }
            let b = &batch[i];
            match find_filenode(&out, &b.path, &b.filenode) {
                Some(j) => {
                    proof {
                        assert(fn_entries_view(out@)[j as int].1 == out@[j as int].rec());
                        assert(fn_key(b.rec()) == (b.path@, b.filenode@));
                    }
                    if !filenode_eq(&out[j], b) {
                        return Err(ErrorKind::ConflictingFileNode);
                    }
                },
                None => {
                    proof {
                        assert(fn_key(b.rec()) == (b.path@, b.filenode@));
                    }
                    let ghost pre = fn_entries_view(out@);
                    out.push(b.clone());
                    proof {
                        assert(fn_entries_view(out@).drop_last() =~= pre);
                        assert(fn_entries_view(out@).last() == (fn_key(b.rec()), b.rec()));
                        assert(kv_map(fn_entries_view(out@)) == m.insert(
                            fn_key(b.rec()),
                            b.rec(),
                        ));
                    }
                },
            }
            i = i + 1;
        }
        proof {
            assert(recs.skip(batch@.len() as int) =~= Seq::<FnRec>::empty());
        }
        Ok(out)
    }
}

/// The records a batch denotes, in order.
pub open spec fn batch_recs(s: Seq<FileNodeInfo>) -> Seq<FnRec> {
    Seq::new(s.len(), |i: int| s[i].rec())
}

/// Find the last entry stored under `(path, node)`.
fn find_filenode(entries: &Vec<FileNodeInfo>, path: &Vec<u8>, node: &NodeId) -> (r: Option<usize>)
    ensures
        match r {
            Some(i) => 0 <= i < entries@.len() && fn_entries_view(entries@)[i as int].0 == (
            path@, node@) && kv_map(fn_entries_view(entries@)).contains_key((path@, node@))
                && kv_map(fn_entries_view(entries@))[(path@, node@)] == fn_entries_view(
                entries@,
            )[i as int].1,
            None => !kv_map(fn_entries_view(entries@)).contains_key((path@, node@)),
        },
{
    let ghost whole = fn_entries_view(entries@);
    let mut i: usize = entries.len();
    proof {
        assert(whole.take(i as int) =~= whole);
    }
    loop
        invariant
            i <= entries@.len(),
            whole == fn_entries_view(entries@),
            kv_map(whole).contains_key((path@, node@)) == kv_map(
                whole.take(i as int),
            ).contains_key((path@, node@)),
            kv_map(whole).contains_key((path@, node@)) ==> kv_map(whole)[(path@, node@)] == kv_map(
                whole.take(i as int),
            )[(path@, node@)],
        decreases i,
    {
        if i == 0 {
            proof {
                assert(whole.take(0) =~= Seq::<((Seq<u8>, Seq<u8>), FnRec)>::empty());
            }
            return None;
        }
        i = i - 1;
        proof {
            lemma_kv_map_take_unfold(whole, i as int);
        }
        let same_path = entries[i].path == *path;
        let same_node = &entries[i].filenode == node;
        if same_path && same_node {
            proof {
                if entries@[i as int].path@ =~= path@ {
                    assert(entries@[i as int].path@ == path@);
                }
                assert(whole[i as int].0 == (path@, node@));
            }
            return Some(i);
        }
        proof {
            if whole[i as int].0 == (path@, node@) {
                assert(entries@[i as int].path@ == path@);
                assert(entries@[i as int].filenode@ == node@);
                assert(false);
            }
        }
    }
}

/// Clone a vector of stored records, preserving each record's content.
fn clone_filenode_vec(v: &Vec<FileNodeInfo>) -> (r: Vec<FileNodeInfo>)
    ensures
        r@.len() == v@.len(),
        forall|i: int| 0 <= i < v@.len() ==> (#[trigger] r@[i]).rec() == v@[i].rec(),
        forall|i: int| 0 <= i < v@.len() ==> ((#[trigger] r@[i]).wf() == v@[i].wf()),
{
    let mut out: Vec<FileNodeInfo> = Vec::new();
    let mut i: usize = 0;
    while i < v.len()
        invariant
            i <= v@.len(),
            out@.len() == i,
            forall|j: int| 0 <= j < i ==> (#[trigger] out@[j]).rec() == v@[j].rec(),
            forall|j: int| 0 <= j < i ==> ((#[trigger] out@[j]).wf() == v@[j].wf()),
        decreases v@.len() - i,
    {
        out.push(v[i].clone());
        i = i + 1;
    }
    out
}

} // verus!
