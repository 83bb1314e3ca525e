//! The per-commit entry uploader.
//!
//! For one in-flight commit, the uploader accumulates every uploaded entry —
//! the root manifest and all non-root entries — and verifies that the commit
//! is internally consistent before any index update that would expose it:
//! every child referenced by an uploaded tree must itself have been
//! uploaded, and the root manifest must be present. Only `finalize` writes
//! the staged filenodes, as one atomic batch.

use vstd::prelude::*;

use crate::errors::ErrorKind;
use crate::filenodes::{add_fold, batch_recs, FileNodeInfo, Filenodes, FnRec};
use crate::hash::{opt_id_view, opt_id_wf, NodeId, Parents};
use crate::manifest::{manifest_dec, BlobManifest, EntryType};

verus! {

/// One entry handed to the uploader: a file or tree at a path, with its
/// content and parent filenodes.
pub struct BlobEntry {
    pub path: Vec<u8>,
    pub ty: EntryType,
    pub parents: Parents,
    pub content: Vec<u8>,
    pub copyfrom: Option<(Vec<u8>, NodeId)>,
}

impl BlobEntry {
    pub open spec fn wf(&self) -> bool {
        &&& self.parents.wf()
        &&& match self.copyfrom {
            Some((_, n)) => n.wf(),
            None => true,
        }
    }
}

/// A staged filenode, complete but for its linknode.
pub struct DraftRec {
    pub path: Seq<u8>,
    pub node: Seq<u8>,
    pub p1: Option<Seq<u8>>,
    pub p2: Option<Seq<u8>>,
    pub copyfrom: Option<(Seq<u8>, Seq<u8>)>,
}

/// The record a draft becomes once the commit's id is known.
pub open spec fn stamp(d: DraftRec, linknode: Seq<u8>) -> FnRec {
    FnRec {
        path: d.path,
        node: d.node,
        p1: d.p1,
        p2: d.p2,
        copyfrom: d.copyfrom,
        linknode,
    }
}

/// The stamped records of a run of drafts, in order.
pub open spec fn stamp_all(ds: Seq<DraftRec>, linknode: Seq<u8>) -> Seq<FnRec> {
    Seq::new(ds.len(), |i: int| stamp(ds[i], linknode))
}

/// The `(path, node)` key an entry is uploaded under: its path, and the
/// hash of its parents and content.
pub open spec fn entry_key(e: BlobEntry) -> (Seq<u8>, Seq<u8>) {
    (e.path@, crate::hash::nodeid_of(e.parents@.0, e.parents@.1, e.content@))
}

/// The filenode draft an entry stages.
pub open spec fn entry_draft(e: BlobEntry) -> DraftRec {
    DraftRec {
        path: e.path@,
        node: crate::hash::nodeid_of(e.parents@.0, e.parents@.1, e.content@),
        p1: e.parents@.0,
        p2: e.parents@.1,
        copyfrom: match e.copyfrom {
            Some((p, n)) => Some((p@, n@)),
            None => None,
        },
    }
}

/// The `(path, node)` pairs of a listing's rows, in order.
pub open spec fn listing_pairs(items: Seq<(Seq<u8>, Seq<u8>, EntryType)>) -> Seq<
    (Seq<u8>, Seq<u8>),
> {
    Seq::new(items.len(), |i: int| (items[i].0, items[i].1))
}

/// The `(path, node)` pairs one uploaded entry obliges: a tree's decoded
/// listing, nothing for a file variant.
pub open spec fn entry_required(e: BlobEntry) -> Seq<(Seq<u8>, Seq<u8>)> {
    if e.ty == EntryType::Tree {
        match manifest_dec(e.content@) {
            Some(items) => listing_pairs(items),
            None => Seq::empty(),
        }
    } else {
        Seq::empty()
    }
}

/// The pairs a run of child entries obliges, in order.
pub open spec fn children_required(children: Seq<BlobEntry>) -> Seq<(Seq<u8>, Seq<u8>)>
    decreases children.len(),
{
    if children.len() == 0 {
        Seq::empty()
    } else {
        entry_required(children[0]) + children_required(children.skip(1))
    }
}

/// Appending one child extends the obliged pairs at the back.
pub proof fn lemma_children_required_snoc(children: Seq<BlobEntry>, e: BlobEntry)
    ensures
        children_required(children.push(e)) == children_required(children) + entry_required(e),
    decreases children.len(),
{
    if children.len() == 0 {
        let p = children.push(e);
        assert(p[0] == e);
        assert(p.skip(1) =~= Seq::<BlobEntry>::empty());
        assert(children_required(p.skip(1)) == Seq::<(Seq<u8>, Seq<u8>)>::empty());
        assert(children_required(p) == entry_required(e) + Seq::<(Seq<u8>, Seq<u8>)>::empty());
        assert(entry_required(e) + Seq::<(Seq<u8>, Seq<u8>)>::empty() =~= Seq::<
            (Seq<u8>, Seq<u8>),
        >::empty() + entry_required(e));
        assert(children_required(children) == Seq::<(Seq<u8>, Seq<u8>)>::empty());
    } else {
        assert(children.push(e)[0] == children[0]);
        assert(children.push(e).skip(1) =~= children.skip(1).push(e));
        lemma_children_required_snoc(children.skip(1), e);
        assert(children_required(children.push(e)) =~= children_required(children)
            + entry_required(e));
    }
}

/// Every `(path, node)` a commit's trees reference: the root listing, then
/// each tree child's listing, in upload order.
pub open spec fn entries_required(root: BlobEntry, children: Seq<BlobEntry>) -> Seq<
    (Seq<u8>, Seq<u8>),
> {
    entry_required(root) + children_required(children)
}

/// Every row of the root manifest's listing is among the pairs the
/// commit's trees reference: a path the commit carries therefore has its
/// `(path, node)` pair in the required set, and — through the consistency
/// check and the staged drafts — a filenode stored for it.
pub proof fn lemma_root_row_required(
    root: BlobEntry,
    children: Seq<BlobEntry>,
    items: Seq<(Seq<u8>, Seq<u8>, EntryType)>,
    j: int,
)
    requires
        root.ty == EntryType::Tree,
        manifest_dec(root.content@) == Some(items),
        0 <= j < items.len(),
    ensures
        entries_required(root, children).contains((items[j].0, items[j].1)),
{
    assert(entry_required(root)[j] == (items[j].0, items[j].1));
    assert(entries_required(root, children)[j] == (items[j].0, items[j].1));
}

/// The upload keys of a commit's entries: the root manifest first, then
/// the child entries in order.
pub open spec fn entries_keys(root: BlobEntry, children: Seq<BlobEntry>) -> Seq<
    (Seq<u8>, Seq<u8>),
> {
    seq![entry_key(root)] + Seq::new(children.len(), |i: int| entry_key(children[i]))
}

/// The staged drafts of a commit's entries, in upload order.
pub open spec fn entries_drafts(root: BlobEntry, children: Seq<BlobEntry>) -> Seq<DraftRec> {
    seq![entry_draft(root)] + Seq::new(children.len(), |i: int| entry_draft(children[i]))
}

/// The drafts whose `(path, node)` key the index does not hold yet, in
/// order. A key already held was introduced by an earlier commit, whose
/// linknode stands; such drafts are not staged again.
pub open spec fn fresh_drafts(ds: Seq<DraftRec>, m: Map<(Seq<u8>, Seq<u8>), FnRec>) -> Seq<
    DraftRec,
>
    decreases ds.len(),
{
    if ds.len() == 0 {
        Seq::empty()
    } else {
        let rest = fresh_drafts(ds.drop_last(), m);
        if m.contains_key((ds.last().path, ds.last().node)) {
            rest
        } else {
            rest.push(ds.last())
        }
    }
}

/// Every draft is either already keyed in the index or among the fresh
/// drafts.
pub proof fn lemma_fresh_drafts_member(
    ds: Seq<DraftRec>,
    m: Map<(Seq<u8>, Seq<u8>), FnRec>,
    j: int,
)
    requires
        0 <= j < ds.len(),
    ensures
        m.contains_key((ds[j].path, ds[j].node)) || fresh_drafts(ds, m).contains(ds[j]),
    decreases ds.len(),
{
    let rest = fresh_drafts(ds.drop_last(), m);
    if j == ds.len() - 1 {
        if !m.contains_key((ds[j].path, ds[j].node)) {
            assert(fresh_drafts(ds, m)[fresh_drafts(ds, m).len() - 1] == ds[j]);
        }
    } else {
        lemma_fresh_drafts_member(ds.drop_last(), m, j);
        assert(ds.drop_last()[j] == ds[j]);
        if rest.contains(ds[j]) {
            let i = choose|i: int| 0 <= i < rest.len() && rest[i] == ds[j];
            if m.contains_key((ds.last().path, ds.last().node)) {
                assert(fresh_drafts(ds, m)[i] == ds[j]);
            } else {
                assert(fresh_drafts(ds, m)[i] == ds[j]);
            }
        }
    }
}

/// A staged filenode held by the uploader.
struct Draft {
    path: Vec<u8>,
    node: NodeId,
    p1: Option<NodeId>,
    p2: Option<NodeId>,
    copyfrom: Option<(Vec<u8>, NodeId)>,
}

impl Draft {
    spec fn rec(&self) -> DraftRec {
        DraftRec {
            path: self.path@,
            node: self.node@,
            p1: opt_id_view(self.p1),
            p2: opt_id_view(self.p2),
            copyfrom: match self.copyfrom {
                Some((p, n)) => Some((p@, n@)),
                None => None,
            },
        }
    }

    spec fn wf(&self) -> bool {
        &&& self.node.wf()
        &&& opt_id_wf(self.p1)
        &&& opt_id_wf(self.p2)
        &&& match self.copyfrom {
            Some((_, n)) => n.wf(),
            None => true,
        }
    }
}

/// The per-commit collector of uploaded entries.
pub struct UploadEntries {
    root: Option<NodeId>,
    seen: Vec<(Vec<u8>, NodeId)>,
    required: Vec<(Vec<u8>, NodeId)>,
    drafts: Vec<Draft>,
}

impl UploadEntries {
    /// The id of the root manifest, once it was added.
    pub closed spec fn root_view(&self) -> Option<Seq<u8>> {
        opt_id_view(self.root)
    }

    /// The `(path, node)` keys of the uploaded entries, in order.
    pub closed spec fn seen_view(&self) -> Seq<(Seq<u8>, Seq<u8>)> {
        Seq::new(self.seen@.len(), |i: int| (self.seen@[i].0@, self.seen@[i].1@))
    }

    /// The `(path, node)` keys referenced by uploaded trees, in order.
    pub closed spec fn required_view(&self) -> Seq<(Seq<u8>, Seq<u8>)> {
        Seq::new(self.required@.len(), |i: int| (self.required@[i].0@, self.required@[i].1@))
    }

    /// The staged filenodes, in order.
    pub closed spec fn drafts_view(&self) -> Seq<DraftRec> {
        Seq::new(self.drafts@.len(), |i: int| self.drafts@[i].rec())
    }

    pub open spec fn inv(&self) -> bool {
        &&& forall|i: int| 0 <= i < self.num_drafts() ==> self.draft_wf(i)
        &&& (self.root_view() matches Some(rid) ==> exists|j: int|
            0 <= j < self.seen_view().len() && (#[trigger] self.seen_view()[j]).1 == rid)
    }

    /// How many drafts are staged (spec-level).
    pub closed spec fn num_drafts(&self) -> int {
        self.drafts@.len() as int
    }

    /// Whether the draft at `i` is well formed (spec-level).
    pub closed spec fn draft_wf(&self, i: int) -> bool {
        self.drafts@[i].wf()
    }

    pub fn new() -> (r: Self)
        ensures
            r.inv(),
            r.root_view() is None,
            r.seen_view() =~= Seq::<(Seq<u8>, Seq<u8>)>::empty(),
            r.required_view() =~= Seq::<(Seq<u8>, Seq<u8>)>::empty(),
            r.drafts_view() =~= Seq::<DraftRec>::empty(),
    {
        UploadEntries { root: None, seen: Vec::new(), required: Vec::new(), drafts: Vec::new() }
    }

    /// Record one uploaded entry under its computed node id.
    ///
    /// A tree entry's content must be a manifest listing; its children join
    /// the required set. The root manifest is recorded once, by the entry
    /// added with `is_root` set, which must be a tree.
    pub fn add_entry(&mut self, entry: &BlobEntry, node: &NodeId, is_root: bool) -> (r: Result<
        (),
        ErrorKind,
    >)
        requires
            old(self).inv(),
            entry.wf(),
            node.wf(),
            is_root ==> entry.ty == EntryType::Tree,
        ensures
            final(self).inv(),
            match r {
                Ok(_) => {
                    &&& final(self).seen_view() == old(self).seen_view().push(
                        (entry.path@, node@),
                    )
                    &&& final(self).drafts_view() == old(self).drafts_view().push(
                        DraftRec {
                            path: entry.path@,
                            node: node@,
                            p1: entry.parents@.0,
                            p2: entry.parents@.1,
                            copyfrom: match entry.copyfrom {
                                Some((p, n)) => Some((p@, n@)),
                                None => None,
                            },
                        },
                    )
                    &&& final(self).root_view() == (if is_root {
                        Some(node@)
                    } else {
                        old(self).root_view()
                    })
                    &&& (entry.ty == EntryType::Tree ==> (manifest_dec(entry.content@) matches Some(
                        items,
                    ) && final(self).required_view() == old(self).required_view() + Seq::new(
                        items.len(),
                        |i: int| (items[i].0, items[i].1),
                    )))
                    &&& (entry.ty != EntryType::Tree ==> final(self).required_view() == old(
                        self,
                    ).required_view())
                },
                Err(e) => {
                    &&& e matches ErrorKind::SerializationFailed
                    &&& entry.ty == EntryType::Tree && manifest_dec(entry.content@) is None
                    &&& *final(self) == *old(self)
                },
            },
    {
        let is_tree = match entry.ty {
            EntryType::Tree => true,
            _ => false,
        };
        if is_tree {
            let mf = match BlobManifest::decode(&entry.content) {
                Some(m) => m,
                None => {
                    return Err(ErrorKind::SerializationFailed);
                },
            };
            let rows = mf.list();
            let ghost req_pre = self.required_view();
            let ghost items = mf.items_view();
            let mut i: usize = 0;
            while i < rows.len()
                invariant
                    i <= rows@.len(),
                    rows@.len() == items.len(),
                    forall|j: int| 0 <= j < rows@.len() ==> (#[trigger] rows@[j]).view_item()
                        == items[j],
                    self.required_view() =~= req_pre + Seq::new(
                        i as nat,
                        |j: int| (items[j].0, items[j].1),
                    ),
                    self.root == old(self).root,
                    self.seen == old(self).seen,
                    self.drafts == old(self).drafts,
                decreases rows@.len() - i,
            {
                let ghost before = self.required_view();
                let row = &rows[i];
                let path_copy = crate::codec::subvec(&row.path, 0, row.path.len());
                proof {
                    assert(path_copy@ =~= rows@[i as int].path@);
                }
                self.required.push((path_copy, row.node.clone()));
                proof {
                    assert(self.required_view() =~= before.push((items[i as int].0, items[
                        i as int].1)));
                    assert(self.required_view() =~= req_pre + Seq::new(
                        (i + 1) as nat,
                        |j: int| (items[j].0, items[j].1),
                    ));
                }
                i = i + 1;
            }
            proof {
                assert(Seq::new(items.len(), |j: int| (items[j].0, items[j].1)) =~= Seq::new(
                    rows@.len(),
                    |j: int| (items[j].0, items[j].1),
                ));
            }
        }
        let ghost seen_pre = self.seen_view();
        let ghost drafts_pre = self.drafts_view();
        let path_copy = crate::codec::subvec(&entry.path, 0, entry.path.len());
        proof {
            assert(path_copy@ =~= entry.path@);
        }
        self.seen.push((path_copy, node.clone()));
        let draft = Draft {
            path: crate::codec::subvec(&entry.path, 0, entry.path.len()),
            node: node.clone(),
            p1: crate::hash::clone_opt_id(&entry.parents.p1),
            p2: crate::hash::clone_opt_id(&entry.parents.p2),
            copyfrom: match &entry.copyfrom {
                Some((p, n)) => Some((crate::codec::subvec(p, 0, p.len()), n.clone())),
                None => None,
            },
        };
        let ghost saved_draft = draft;
        proof {
            assert(saved_draft.wf());
            assert(saved_draft.path@ =~= entry.path@);
            match (&entry.copyfrom, &saved_draft.copyfrom) {
                (Some((p, n)), Some((q, m))) => {
                    assert(q@ =~= p@);
                },
                _ => (),
            }
        }
        self.drafts.push(draft);
        if is_root {
            self.root = Some(node.clone());
        }
        proof {
            assert(self.seen_view() =~= seen_pre.push((entry.path@, node@)));
            assert(self.drafts_view() =~= drafts_pre.push(saved_draft.rec()));
            assert(saved_draft.rec() == DraftRec {
                path: entry.path@,
                node: node@,
                p1: entry.parents@.0,
                p2: entry.parents@.1,
                copyfrom: match entry.copyfrom {
                    Some((p, n)) => Some((p@, n@)),
                    None => None,
                },
            });
            assert forall|j: int| 0 <= j < self.num_drafts() implies self.draft_wf(j) by {
                if j < self.num_drafts() - 1 {
                    assert(old(self).draft_wf(j));
                    assert(self.drafts@[j] == old(self).drafts@[j]);
                } else {
                    assert(self.drafts@[j] == saved_draft);
                }
            }
            match self.root_view() {
                Some(rid) => {
                    if is_root {
                        assert(self.seen_view()[self.seen_view().len() - 1].1 == rid);
                    } else {
                        let j = choose|j: int|
                            0 <= j < old(self).seen_view().len() && (
                            #[trigger] old(self).seen_view()[j]).1 == rid;
                        assert(self.seen_view()[j].1 == rid);
                    }
                },
                None => (),
            }
        }
        Ok(())
    }

    /// Whether every required child was uploaded.
    fn required_subset_of_seen(&self) -> (r: bool)
        ensures
            r == (forall|i: int| 0 <= i < self.required_view().len() ==> self.seen_view().contains(
                #[trigger] self.required_view()[i],
            )),
    {
        let mut i: usize = 0;
        while i < self.required.len()
            invariant
                i <= self.required@.len(),
                self.required_view().len() == self.required@.len(),
                forall|j: int| 0 <= j < i ==> self.seen_view().contains(
                    #[trigger] self.required_view()[j],
                ),
            decreases self.required@.len() - i,
        {
            let want_path = &self.required[i].0;
            let want_node = &self.required[i].1;
            let mut found = false;
            let mut j: usize = 0;
            while j < self.seen.len()
                invariant
                    j <= self.seen@.len(),
                    i < self.required@.len(),
                    self.seen_view().len() == self.seen@.len(),
                    want_path == &self.required@[i as int].0,
                    want_node == &self.required@[i as int].1,
                    found ==> self.seen_view().contains(self.required_view()[i as int]),
                    !found ==> forall|k: int| 0 <= k < j ==> self.seen_view()[k]
                        != self.required_view()[i as int],
                decreases self.seen@.len() - j,
            {
                if !found {
                    let same_path = &self.seen[j].0 == want_path;
                    let same_node = &self.seen[j].1 == want_node;
                    proof {
                        if self.seen@[j as int].0@ =~= self.required@[i as int].0@ {
                        }
                    }
                    if same_path && same_node {
                        found = true;
                        proof {
                            assert(self.seen_view()[j as int] == self.required_view()[i as int]);
                        }
                    } else {
                        proof {
                            assert(self.seen_view()[j as int] != self.required_view()[i as int]);
                        }
                    }
                }
                j = j + 1;
            }
            if !found {
                proof {
                    if self.seen_view().contains(self.required_view()[i as int]) {
                        let k = choose|k: int|
                            0 <= k < self.seen_view().len() && self.seen_view()[k]
                                == self.required_view()[i as int];
                        assert(false);
                    }
                }
                return false;
            }
            i = i + 1;
        }
        true
    }

    /// Stamp every freshly staged filenode with the commit's id and submit
    /// them as one atomic batch.
    ///
    /// A staged filenode whose `(path, node)` key the index already holds
    /// is skipped: it was introduced by an earlier commit, whose linknode
    /// stands. Fails with `InconsistentEntries` when a tree referenced a
    /// child that was never uploaded, with `MissingRootManifest` when no
    /// root manifest was added, and with `ConflictingFileNode` when two
    /// staged records clash; on any failure the filenodes index is
    /// unchanged.
    pub fn finalize(&self, filenodes: &mut Filenodes, cs_id: &NodeId) -> (r: Result<
        (),
        ErrorKind,
    >)
        requires
            self.inv(),
            old(filenodes).inv(),
            cs_id.wf(),
        ensures
            final(filenodes).inv(),
            match r {
                Ok(_) => {
                    &&& forall|i: int| 0 <= i < self.required_view().len()
                        ==> self.seen_view().contains(#[trigger] self.required_view()[i])
                    &&& self.root_view() is Some
                    &&& add_fold(
                        old(filenodes).contents(),
                        stamp_all(
                            fresh_drafts(self.drafts_view(), old(filenodes).contents()),
                            cs_id@,
                        ),
                    ) == Some(final(filenodes).contents())
                },
                Err(e) => {
                    &&& final(filenodes).contents() == old(filenodes).contents()
                    &&& match e {
                        ErrorKind::InconsistentEntries => !(forall|i: int|
                            0 <= i < self.required_view().len() ==> self.seen_view().contains(
                                #[trigger] self.required_view()[i],
                            )),
                        ErrorKind::MissingRootManifest => (forall|i: int|
                            0 <= i < self.required_view().len() ==> self.seen_view().contains(
                                #[trigger] self.required_view()[i],
                            )) && self.root_view() is None,
                        ErrorKind::ConflictingFileNode => (forall|i: int|
                            0 <= i < self.required_view().len() ==> self.seen_view().contains(
                                #[trigger] self.required_view()[i],
                            )) && self.root_view() is Some && add_fold(
                            old(filenodes).contents(),
                            stamp_all(
                                fresh_drafts(self.drafts_view(), old(filenodes).contents()),
                                cs_id@,
                            ),
                        ) is None,
                        _ => false,
                    }
                },
            },
    {
        if !self.required_subset_of_seen() {
            return Err(ErrorKind::InconsistentEntries);
        }
        match &self.root {
            Some(_) => (),
            None => {
                return Err(ErrorKind::MissingRootManifest);
            },
        }
        let ghost m0 = filenodes.contents();
        let mut batch: Vec<FileNodeInfo> = Vec::new();
        let mut i: usize = 0;
        proof {
            assert(self.drafts_view().take(0) =~= Seq::<DraftRec>::empty());
            assert(batch_recs(batch@) =~= stamp_all(
                fresh_drafts(self.drafts_view().take(0), m0),
                cs_id@,
            ));
        }
        while i < self.drafts.len()
            invariant
                i <= self.drafts@.len(),
                self.inv(),
                cs_id.wf(),
                m0 == filenodes.contents(),
                filenodes.inv(),
                self.drafts_view().len() == self.drafts@.len(),
                batch_recs(batch@) == stamp_all(
                    fresh_drafts(self.drafts_view().take(i as int), m0),
                    cs_id@,
                ),
                forall|j: int| 0 <= j < batch@.len() ==> (#[trigger] batch@[j]).wf(),
            decreases self.drafts@.len() - i,
        {
            proof {
                assert(self.draft_wf(i as int));
                assert(self.drafts_view().take(i as int + 1).drop_last() =~= self
                    .drafts_view().take(i as int));
                assert(self.drafts_view().take(i as int + 1).last() == self.drafts_view()[
                    i as int]);
            }
            let d = &self.drafts[i];
            let existing = filenodes.get_filenode(&d.path, &d.node);
            match existing {
                Some(_) => {
                    proof {
                        assert(m0.contains_key(
                            (self.drafts_view()[i as int].path, self.drafts_view()[i as int].node),
                        ));
                    }
                },
                None => {
                    proof {
                        assert(!m0.contains_key(
                            (self.drafts_view()[i as int].path, self.drafts_view()[i as int].node),
                        ));
                    }
                    let info = FileNodeInfo {
                        path: crate::codec::subvec(&d.path, 0, d.path.len()),
                        filenode: d.node.clone(),
                        p1: crate::hash::clone_opt_id(&d.p1),
                        p2: crate::hash::clone_opt_id(&d.p2),
                        copyfrom: match &d.copyfrom {
                            Some((p, n)) => Some((crate::codec::subvec(p, 0, p.len()), n.clone())),
                            None => None,
                        },
                        linknode: cs_id.clone(),
                    };
                    proof {
                        assert(info.path@ =~= d.path@);
                        match (&d.copyfrom, &info.copyfrom) {
                            (Some((p, n)), Some((q, m))) => {
                                assert(q@ =~= p@);
                            },
                            _ => (),
                        }
                        assert(info.rec() == stamp(self.drafts@[i as int].rec(), cs_id@));
                    }
                    let ghost batch_pre = batch@;
                    batch.push(info);
                    proof {
                        assert(batch_recs(batch@) =~= batch_recs(batch_pre).push(
                            stamp(self.drafts_view()[i as int], cs_id@),
                        ));
                        let fresh_now = fresh_drafts(self.drafts_view().take(i as int + 1), m0);
                        assert(fresh_now == fresh_drafts(self.drafts_view().take(i as int), m0)
                            .push(self.drafts_view()[i as int]));
                        assert(stamp_all(fresh_now, cs_id@) =~= stamp_all(
                            fresh_drafts(self.drafts_view().take(i as int), m0),
                            cs_id@,
                        ).push(stamp(self.drafts_view()[i as int], cs_id@)));
                    }
                },
            }
            i = i + 1;
        }
        proof {
            assert(self.drafts_view().take(self.drafts@.len() as int) =~= self.drafts_view());
        }
        match filenodes.add(&batch) {
            Ok(_) => Ok(()),
            Err(e) => Err(e),
        }
    }
}

} // verus!
