//! The blob repository engine.
//!
//! A `BlobRepo` layers the typed indices — heads, bookmarks, filenodes,
//! changesets — over one content-addressed blobstore, and builds new commits
//! while preserving the invariants those indices depend on. Commits under
//! construction are reached through `ChangesetHandle`s, whose two latched
//! signals decouple "usable as a parent" from "fully durable".

use vstd::prelude::*;

use crate::blobstore::{Blobstore, BlobstoreBytes, EagerMemblob, FailingBlobstore};
use crate::bookmarks::{BookmarkTransaction, Bookmarks};
use crate::changeset::{changeset_enc, ChangesetContent, CsContent};
use crate::changesets::{Changesets, CsRec};
use crate::codec::{node_blob_dec, node_blob_enc, NodeBlob};
use crate::errors::ErrorKind;
use crate::filenodes::{FileNodeInfo, Filenodes, FnRec};
use crate::hash::{
    blob_key_view, get_blob_key, get_node_key, node_key_view, nodeid_of, opt_id_view, opt_id_wf,
    sha1_of, NodeId, Parents,
};
use crate::heads::Heads;
use crate::manifest::{manifest_dec, BlobManifest, EntryType};
use crate::changed::compute_changed_files;
use crate::changesets::ChangesetInsert;
use crate::uploader::{
    entries_drafts, entries_keys, entries_required, entry_key, stamp, stamp_all, BlobEntry,
    UploadEntries,
};

verus! {

/// A forward reference to a commit being built in a repository.
#[derive(Clone, Copy, Debug, PartialEq, Eq, Structural)]
pub struct ChangesetHandle {
    pub index: usize,
}

/// The state of one commit under construction.
pub(crate) struct BuilderState {
    pub(crate) p1: Option<usize>,
    pub(crate) p2: Option<usize>,
    pub(crate) user: Vec<u8>,
    pub(crate) time: u64,
    pub(crate) extra: Vec<(Vec<u8>, Vec<u8>)>,
    pub(crate) comments: Vec<u8>,
    pub(crate) root_id: Option<NodeId>,
    pub(crate) root_manifest: Option<BlobManifest>,
    pub(crate) uploader: UploadEntries,
    pub(crate) can_be_parent: Option<Result<(NodeId, NodeId), ErrorKind>>,
    pub(crate) completion: Option<Result<NodeId, ErrorKind>>,
}

impl BuilderState {
    /// The "usable as a parent" signal: unset, failed, or the commit and
    /// root-manifest ids.
    pub(crate) open spec fn cbp_view(&self) -> Option<Option<(Seq<u8>, Seq<u8>)>> {
        match self.can_be_parent {
            None => None,
            Some(Ok((cs, mf))) => Some(Some((cs@, mf@))),
            Some(Err(_)) => Some(None),
        }
    }

    /// The "fully durable" signal: unset, failed, or the commit id.
    pub(crate) open spec fn comp_view(&self) -> Option<Option<Seq<u8>>> {
        match self.completion {
            None => None,
            Some(Ok(cs)) => Some(Some(cs@)),
            Some(Err(_)) => Some(None),
        }
    }
}

/// A blob repository over a pluggable blobstore backend.
pub struct BlobRepo<B: Blobstore> {
    blobstore: B,
    heads: Heads,
    bookmarks: Bookmarks,
    filenodes: Filenodes,
    changesets: Changesets,
    repoid: u32,
    builders: Vec<BuilderState>,
}

impl<B: Blobstore> BlobRepo<B> {
    /// The blobstore's key→value contents.
    pub closed spec fn store_contents(&self) -> Map<Seq<u8>, Seq<u8>> {
        self.blobstore.contents()
    }

    /// The heads, in insertion order.
    pub closed spec fn heads_view(&self) -> Seq<Seq<u8>> {
        self.heads@
    }

    /// The bookmarks' live name→id map.
    pub closed spec fn bookmarks_map(&self) -> Map<Seq<u8>, Seq<u8>> {
        self.bookmarks.contents()
    }

    /// The filenodes index's `(path, node)`→record map.
    pub closed spec fn filenodes_map(&self) -> Map<(Seq<u8>, Seq<u8>), FnRec> {
        self.filenodes.contents()
    }

    /// The changesets index's id→record map.
    pub closed spec fn changesets_map(&self) -> Map<Seq<u8>, CsRec> {
        self.changesets.contents()
    }

    /// How many commit builders the repository holds.
    pub closed spec fn num_builders(&self) -> int {
        self.builders@.len() as int
    }

    /// The repository id (spec-level).
    pub closed spec fn repoid_view(&self) -> u32 {
        self.repoid
    }

    /// The repository id.
    pub fn repoid(&self) -> (r: u32)
        ensures
            r == self.repoid_view(),
    {
        self.repoid
    }

    /// The "usable as a parent" signal of builder `i`.
    pub closed spec fn cbp_view(&self, i: int) -> Option<Option<(Seq<u8>, Seq<u8>)>> {
        self.builders@[i].cbp_view()
    }

    /// The "fully durable" signal of builder `i`.
    pub closed spec fn comp_view(&self, i: int) -> Option<Option<Seq<u8>>> {
        self.builders@[i].comp_view()
    }

    /// The error a failed builder's completion signal carries, if any.
    pub closed spec fn comp_err_view(&self, i: int) -> Option<ErrorKind> {
        match self.builders@[i].completion {
            Some(Err(e)) => Some(e),
            _ => None,
        }
    }

    /// The author bytes builder `i` was given.
    pub closed spec fn builder_user(&self, i: int) -> Seq<u8> {
        self.builders@[i].user@
    }

    /// The timestamp builder `i` was given.
    pub closed spec fn builder_time(&self, i: int) -> u64 {
        self.builders@[i].time
    }

    /// The extra key/value pairs builder `i` was given, in order.
    pub closed spec fn builder_extra(&self, i: int) -> Seq<(Seq<u8>, Seq<u8>)> {
        Seq::new(
            self.builders@[i].extra@.len(),
            |j: int| (self.builders@[i].extra@[j].0@, self.builders@[i].extra@[j].1@),
        )
    }

    /// The commit message builder `i` was given.
    pub closed spec fn builder_comments(&self, i: int) -> Seq<u8> {
        self.builders@[i].comments@
    }

    /// The path→(node, type) map of builder `i`'s root manifest listing.
    pub closed spec fn builder_root_map(&self, i: int) -> Map<Seq<u8>, (Seq<u8>, EntryType)> {
        match self.builders@[i].root_manifest {
            Some(m) => m.lookup_map(),
            None => Map::empty(),
        }
    }

    /// The commit id a parent slot resolved to, when its first signal
    /// fired with success.
    pub open spec fn parent_cs(&self, p: Option<int>) -> Option<Seq<u8>> {
        match p {
            Some(pi) => match self.cbp_view(pi) {
                Some(Some(ids)) => Some(ids.0),
                _ => None,
            },
            None => None,
        }
    }

    /// The root-manifest id a parent slot resolved to, when its first
    /// signal fired with success.
    pub open spec fn parent_mf(&self, p: Option<int>) -> Option<Seq<u8>> {
        match p {
            Some(pi) => match self.cbp_view(pi) {
                Some(Some(ids)) => Some(ids.1),
                _ => None,
            },
            None => None,
        }
    }

    /// Whether a parent of builder `i` failed before becoming usable.
    pub open spec fn some_parent_cbp_failed(&self, i: int) -> bool {
        ||| (self.builder_p1(i) matches Some(p) && self.cbp_view(p) == Some(
            None::<(Seq<u8>, Seq<u8>)>,
        ))
        ||| (self.builder_p2(i) matches Some(p) && self.cbp_view(p) == Some(
            None::<(Seq<u8>, Seq<u8>)>,
        ))
    }

    /// Whether a parent of builder `i` has not fired its first signal yet.
    pub open spec fn some_parent_cbp_unset(&self, i: int) -> bool {
        ||| (self.builder_p1(i) matches Some(p) && self.cbp_view(p) is None)
        ||| (self.builder_p2(i) matches Some(p) && self.cbp_view(p) is None)
    }

    /// Whether a parent of builder `i` failed before becoming durable.
    pub open spec fn some_parent_comp_failed(&self, i: int) -> bool {
        ||| (self.builder_p1(i) matches Some(p) && self.comp_view(p) == Some(None::<Seq<u8>>))
        ||| (self.builder_p2(i) matches Some(p) && self.comp_view(p) == Some(None::<Seq<u8>>))
    }

    /// Whether a parent of builder `i` has not fired its durability signal.
    pub open spec fn some_parent_comp_unset(&self, i: int) -> bool {
        ||| (self.builder_p1(i) matches Some(p) && self.comp_view(p) is None)
        ||| (self.builder_p2(i) matches Some(p) && self.comp_view(p) is None)
    }

    /// Whether every parent of builder `i` is fully durable.
    pub open spec fn parents_complete_ok(&self, i: int) -> bool {
        &&& (self.builder_p1(i) matches Some(p) ==> self.comp_view(p) matches Some(Some(_)))
        &&& (self.builder_p2(i) matches Some(p) ==> self.comp_view(p) matches Some(Some(_)))
    }

    /// The parent ids builder `i`'s record carries: one entry per present
    /// parent slot, in slot order; identical parents give two entries.
    pub open spec fn record_parent_ids(&self, i: int) -> Seq<Seq<u8>> {
        let s1 = match self.builder_p1(i) {
            Some(p) => match self.comp_view(p) {
                Some(Some(cs)) => seq![cs],
                _ => Seq::<Seq<u8>>::empty(),
            },
            None => Seq::<Seq<u8>>::empty(),
        };
        let s2 = match self.builder_p2(i) {
            Some(p) => match self.comp_view(p) {
                Some(Some(cs)) => seq![cs],
                _ => Seq::<Seq<u8>>::empty(),
            },
            None => Seq::<Seq<u8>>::empty(),
        };
        s1 + s2
    }

    /// What builder `i`'s commit step computes, given the store the step
    /// read: `(cs, mf)` is fired exactly when `mf` is the recorded root
    /// manifest and `cs` hashes a commit object carrying the builder's
    /// author, time, extras and message, the resolved parent ids, and the
    /// changed-files list derived from the root manifest against the
    /// parents' manifests — one manifest when both slots name the same
    /// commit.
    pub open spec fn step_commit_id(
        &self,
        i: int,
        store: Map<Seq<u8>, Seq<u8>>,
        cs: Seq<u8>,
        mf: Seq<u8>,
    ) -> bool {
        exists|files: Seq<Seq<u8>>| #[trigger] self.step_commit_with(i, store, cs, mf, files)
    }

    /// The commit object builder `i`'s commit step assembles, for one
    /// concrete changed-files list: the builder's metadata, the resolved
    /// parent ids, and the given root-manifest id.
    pub open spec fn step_content(&self, i: int, mf: Seq<u8>, files: Seq<Seq<u8>>) -> CsContent {
        CsContent {
            p1: self.parent_cs(self.builder_p1(i)),
            p2: self.parent_cs(self.builder_p2(i)),
            manifest: mf,
            user: self.builder_user(i),
            time: self.builder_time(i),
            extra: self.builder_extra(i),
            files,
            comments: self.builder_comments(i),
        }
    }

    /// The body of `step_commit_id`, for one concrete changed-files list.
    pub open spec fn step_commit_with(
        &self,
        i: int,
        store: Map<Seq<u8>, Seq<u8>>,
        cs: Seq<u8>,
        mf: Seq<u8>,
        files: Seq<Seq<u8>>,
    ) -> bool {
        {
                let p1cs = self.parent_cs(self.builder_p1(i));
                let p2cs = self.parent_cs(self.builder_p2(i));
                let p1map = match self.parent_mf(self.builder_p1(i)) {
                    Some(mid) => manifest_map_of(store, mid),
                    None => None,
                };
                let p2map_raw = match self.parent_mf(self.builder_p2(i)) {
                    Some(mid) => manifest_map_of(store, mid),
                    None => None,
                };
                let p2map = if p1cs == p2cs {
                    None
                } else {
                    p2map_raw
                };
                let c = self.step_content(i, mf, files);
                &&& (self.builder_p1(i) is Some ==> p1cs is Some && p1map is Some)
                &&& (self.builder_p2(i) is Some ==> p2cs is Some && (p1cs == p2cs || p2map
                    is Some))
                &&& self.builder_root_view(i) == Some(mf)
                &&& crate::changed::sorted_strict(files)
                &&& (forall|f: Seq<u8>| files.contains(f) <==> crate::changed::file_changed(
                    self.builder_root_map(i),
                    p1map,
                    p2map,
                    f,
                ))
                &&& cs == crate::changeset::cs_id_of(c)
            }
    }

    /// Whether builder `i`'s commit step, read against `store`, computes
    /// an id naming one of its own resolved parents — the self-loop that
    /// the pipeline rejects with `CycleDetected`.
    pub open spec fn step_self_loop(&self, i: int, store: Map<Seq<u8>, Seq<u8>>) -> bool {
        exists|cs: Seq<u8>, mf: Seq<u8>|
            #![auto]
            self.step_commit_id(i, store, cs, mf) && (self.parent_cs(self.builder_p1(i)) == Some(
                cs,
            ) || self.parent_cs(self.builder_p2(i)) == Some(cs))
    }

    /// The commit step is a function of the builder and the store: any two
    /// ids and changed-files lists it validates are the same.
    pub proof fn lemma_step_commit_deterministic(
        &self,
        i: int,
        store: Map<Seq<u8>, Seq<u8>>,
        cs1: Seq<u8>,
        mf1: Seq<u8>,
        files1: Seq<Seq<u8>>,
        cs2: Seq<u8>,
        mf2: Seq<u8>,
        files2: Seq<Seq<u8>>,
    )
        requires
            self.step_commit_with(i, store, cs1, mf1, files1),
            self.step_commit_with(i, store, cs2, mf2, files2),
        ensures
            cs1 == cs2,
            mf1 == mf2,
            files1 == files2,
    {
        assert(Some(mf1) == self.builder_root_view(i));
        assert(Some(mf2) == self.builder_root_view(i));
        crate::changed::lemma_sorted_strict_unique(files1, files2);
        assert(self.step_content(i, mf1, files1) == self.step_content(i, mf2, files2));
    }

    /// The `(path, node)` keys builder `i` uploaded.
    pub closed spec fn builder_seen(&self, i: int) -> Seq<(Seq<u8>, Seq<u8>)> {
        self.builders@[i].uploader.seen_view()
    }

    /// The `(path, node)` keys builder `i`'s trees reference.
    pub closed spec fn builder_required(&self, i: int) -> Seq<(Seq<u8>, Seq<u8>)> {
        self.builders@[i].uploader.required_view()
    }

    /// The filenodes builder `i` staged.
    pub closed spec fn builder_drafts(&self, i: int) -> Seq<crate::uploader::DraftRec> {
        self.builders@[i].uploader.drafts_view()
    }

    /// The invariant of one builder: its uploads are in the store, its
    /// parents stand earlier in the arena, and its signals are coherent
    /// with the repository state.
    pub open spec fn builder_inv(&self, i: int) -> bool {
        &&& self.builder_uploader_inv(i)
        &&& (self.builder_p1(i) matches Some(p) ==> 0 <= p < i)
        &&& (self.builder_p2(i) matches Some(p) ==> 0 <= p < i)
        &&& forall|j: int| 0 <= j < self.builder_seen(i).len() ==> self.store_contents().contains_key(
            node_key_view((#[trigger] self.builder_seen(i)[j]).1),
        )
        &&& (self.cbp_view(i) matches Some(Some(ids)) ==> {
            &&& ids.0.len() == 20
            &&& ids.1.len() == 20
            &&& self.store_contents().contains_key(node_key_view(ids.0))
            &&& self.builder_root_view(i) == Some(ids.1)
            &&& (forall|j: int| 0 <= j < self.builder_required(i).len() ==> self.builder_seen(
                i,
            ).contains(#[trigger] self.builder_required(i)[j]))
            &&& (forall|j: int| 0 <= j < self.builder_drafts(i).len()
                ==> self.filenodes_map().contains_key(
                ((#[trigger] self.builder_drafts(i)[j]).path, self.builder_drafts(i)[j].node),
            ))
        })
        &&& (self.cbp_view(i) is None ==> self.comp_view(i) is None)
        &&& (self.cbp_view(i) is None ==> self.builder_ready_facts(i))
        &&& (self.cbp_view(i) matches Some(None) ==> self.comp_view(i) matches Some(None))
        &&& (self.comp_view(i) matches Some(Some(cs)) ==> {
            &&& self.cbp_view(i) matches Some(Some(ids)) && ids.0 == cs
            &&& self.changesets_map().contains_key(cs)
        })
    }

    /// The uploader invariant of builder `i` (spec-level).
    pub closed spec fn builder_uploader_inv(&self, i: int) -> bool {
        self.builders@[i].uploader.inv()
    }

    /// What holds of a builder that is still waiting to fire its first
    /// signal: its root manifest and root id are recorded (spec-level).
    pub closed spec fn builder_ready_facts(&self, i: int) -> bool {
        &&& (self.builders@[i].root_manifest matches Some(m) && m.wf())
        &&& (self.builders@[i].root_id matches Some(rid) && rid.wf()
            && self.builders@[i].uploader.root_view() == Some(rid@))
    }

    /// The root manifest id builder `i` recorded.
    pub closed spec fn builder_root_view(&self, i: int) -> Option<Seq<u8>> {
        self.builders@[i].uploader.root_view()
    }

    /// The first parent handle of builder `i` (spec-level).
    pub closed spec fn builder_p1(&self, i: int) -> Option<int> {
        match self.builders@[i].p1 {
            Some(p) => Some(p as int),
            None => None,
        }
    }

    /// The second parent handle of builder `i` (spec-level).
    pub closed spec fn builder_p2(&self, i: int) -> Option<int> {
        match self.builders@[i].p2 {
            Some(p) => Some(p as int),
            None => None,
        }
    }

    /// The internal well-formedness of the four indices (spec-level).
    pub closed spec fn indices_inv(&self) -> bool {
        &&& self.changesets.inv()
        &&& self.filenodes.inv()
        &&& self.heads.wf()
        &&& self.bookmarks.inv()
    }

    /// The repository invariant: the indices' own invariants, the
    /// generation law over the changesets map, and every builder's
    /// invariant.
    pub open spec fn inv(&self) -> bool {
        &&& self.indices_inv()
        &&& crate::changesets::changesets_inv(self.changesets_map())
        &&& forall|i: int| 0 <= i < self.num_builders() ==> self.builder_inv(i)
    }

    /// Assemble a repository from already-opened stores.
    pub fn new(
        heads: Heads,
        bookmarks: Bookmarks,
        blobstore: B,
        filenodes: Filenodes,
        changesets: Changesets,
        repoid: u32,
    ) -> (r: Self)
        requires
            heads.wf(),
            bookmarks.inv(),
            filenodes.inv(),
            changesets.inv(),
        ensures
            r.inv(),
            r.store_contents() == blobstore.contents(),
            r.heads_view() == heads@,
            r.bookmarks_map() == bookmarks.contents(),
            r.filenodes_map() == filenodes.contents(),
            r.changesets_map() == changesets.contents(),
            r.repoid_view() == repoid,
            r.num_builders() == 0,
    {
        BlobRepo { blobstore, heads, bookmarks, filenodes, changesets, repoid, builders: Vec::new() }
    }

    /// The blobstore, for direct reads.
    pub fn blobstore(&self) -> (r: &B)
        ensures
            r.contents() == self.store_contents(),
    {
        &self.blobstore
    }

    /// Compute a node id, write the content blob and the raw node record,
    /// and return the entry for a later changeset.
    ///
    /// The write is idempotent: re-uploading byte-identical content under
    /// the same parents writes the same two keys with the same values.
    pub fn upload_entry(
        &mut self,
        raw_content: Vec<u8>,
        content_type: EntryType,
        p1: Option<NodeId>,
        p2: Option<NodeId>,
        path: Vec<u8>,
        copyfrom: Option<(Vec<u8>, NodeId)>,
    ) -> (r: Result<(NodeId, BlobEntry), ErrorKind>)
        requires
            old(self).inv(),
            opt_id_wf(p1),
            opt_id_wf(p2),
            copyfrom matches Some((_, n)) ==> n.wf(),
        ensures
            final(self).inv(),
            final(self).same_except_store(old(self)),
            match r {
                Ok((node, entry)) => {
                    &&& node.wf()
                    &&& node@ == nodeid_of(opt_id_view(p1), opt_id_view(p2), raw_content@)
                    &&& entry.wf()
                    &&& entry.path@ == path@
                    &&& entry.ty == content_type
                    &&& entry.parents@ == (opt_id_view(p1), opt_id_view(p2))
                    &&& entry.content@ == raw_content@
                    &&& (match (entry.copyfrom, copyfrom) {
                        (Some((q, m)), Some((q0, m0))) => q@ == q0@ && m@ == m0@,
                        (None, None) => true,
                        _ => false,
                    })
                    &&& final(self).store_contents() == old(self).store_contents().insert(
                        blob_key_view(sha1_of(raw_content@)),
                        raw_content@,
                    ).insert(
                        node_key_view(node@),
                        node_blob_enc(opt_id_view(p1), opt_id_view(p2), sha1_of(raw_content@)),
                    )
                },
                Err(_) => final(self).store_contents() == old(self).store_contents()
                    || final(self).store_contents() == old(self).store_contents().insert(
                    blob_key_view(sha1_of(raw_content@)),
                    raw_content@,
                ),
            },
    {
        let node = crate::hash::compute_nodeid(&p1, &p2, &raw_content);
        let sha = crate::hash::sha1_digest(&raw_content);
        let blob_key = get_blob_key(&sha);
        let content_copy = crate::codec::subvec(&raw_content, 0, raw_content.len());
        proof {
            assert(content_copy@ =~= raw_content@);
        }
        match self.blobstore.put(blob_key, BlobstoreBytes::from_bytes(content_copy)) {
            Ok(_) => (),
            Err(e) => {
                proof {
                    self.lemma_store_grew(old(self));
                }
                return Err(e);
            },
        }
        let record = NodeBlob::new(
            Parents::new(crate::hash::clone_opt_id(&p1), crate::hash::clone_opt_id(&p2)),
            sha,
        );
        let node_key = get_node_key(&node);
        match self.blobstore.put(node_key, BlobstoreBytes::from_bytes(record.encode())) {
            Ok(_) => (),
            Err(e) => {
                proof {
                    self.lemma_store_grew(old(self));
                }
                return Err(e);
            },
        }
        let entry = BlobEntry {
            path,
            ty: content_type,
            parents: Parents::new(p1, p2),
            content: raw_content,
            copyfrom,
        };
        proof {
            self.lemma_store_grew(old(self));
        }
        Ok((node, entry))
    }

    /// Everything but the blobstore is unchanged, and the blobstore only
    /// gained keys.
    pub open spec fn same_except_store(&self, other: &Self) -> bool {
        &&& self.heads_view() == other.heads_view()
        &&& self.bookmarks_map() == other.bookmarks_map()
        &&& self.filenodes_map() == other.filenodes_map()
        &&& self.changesets_map() == other.changesets_map()
        &&& self.num_builders() == other.num_builders()
        &&& (forall|i: int| 0 <= i < self.num_builders() ==> self.cbp_view(i) == other.cbp_view(i)
            && self.comp_view(i) == other.comp_view(i))
        &&& (forall|k: Seq<u8>| other.store_contents().contains_key(k)
            ==> #[trigger] self.store_contents().contains_key(k))
    }

    /// Re-establish the repository invariant after blobstore-only growth.
    proof fn lemma_store_grew(&self, prev: &Self)
        requires
            prev.inv(),
            self.heads == prev.heads,
            self.bookmarks == prev.bookmarks,
            self.filenodes == prev.filenodes,
            self.changesets == prev.changesets,
            self.builders == prev.builders,
            forall|k: Seq<u8>| prev.store_contents().contains_key(k)
                ==> #[trigger] self.store_contents().contains_key(k),
        ensures
            self.inv(),
            self.same_except_store(prev),
    {
        assert forall|i: int| 0 <= i < self.num_builders() implies self.builder_inv(i) by {
            assert(prev.builder_inv(i));
            assert(self.builders@[i] == prev.builders@[i]);
            assert(self.builder_seen(i) == prev.builder_seen(i));
            assert(self.builder_required(i) == prev.builder_required(i));
            assert(self.builder_drafts(i) == prev.builder_drafts(i));
            assert forall|j: int| 0 <= j < self.builder_seen(i).len() implies self
                .store_contents().contains_key(
                node_key_view((#[trigger] self.builder_seen(i)[j]).1),
            ) by {
                assert(prev.store_contents().contains_key(
                    node_key_view(prev.builder_seen(i)[j].1),
                ));
            }
            match self.cbp_view(i) {
                Some(Some(ids)) => {
                    assert(prev.store_contents().contains_key(node_key_view(ids.0)));
                },
                _ => (),
            }
        }
    }

    /// The heads currently tracked, in insertion order, without duplicates.
    pub fn get_heads(&self) -> (r: Vec<NodeId>)
        requires
            self.inv(),
        ensures
            r@.len() == self.heads_view().len(),
            forall|i: int| 0 <= i < r@.len() ==> r@[i]@ == self.heads_view()[i],
            forall|i: int, j: int| 0 <= i < j < r@.len() ==> r@[i]@ != r@[j]@,
    {
        proof {
            assert(self.heads.wf());
        }
        let r = self.heads.heads();
        proof {
            assert forall|i: int, j: int| 0 <= i < j < r@.len() implies r@[i]@ != r@[j]@ by {
                assert(r@[i]@ == self.heads_view()[i]);
                assert(r@[j]@ == self.heads_view()[j]);
            }
        }
        r
    }

    /// Whether a changeset record exists for `changesetid`.
    pub fn changeset_exists(&self, changesetid: &NodeId) -> (r: bool)
        requires
            self.inv(),
        ensures
            r == self.changesets_map().contains_key(changesetid@),
    {
        match self.changesets.get(changesetid) {
            Some(_) => true,
            None => false,
        }
    }

    /// The generation number of a changeset, if it has a record.
    pub fn get_generation_number(&self, cs: &NodeId) -> (r: Option<u64>)
        requires
            self.inv(),
        ensures
            match r {
                Some(g) => self.changesets_map().contains_key(cs@) && g
                    == self.changesets_map()[cs@].gen,
                None => !self.changesets_map().contains_key(cs@),
            },
    {
        match self.changesets.get(cs) {
            Some(e) => Some(e.gen),
            None => None,
        }
    }

    /// The full changeset record, if one exists.
    pub fn get_changeset_record(&self, cs: &NodeId) -> (r: Option<crate::changesets::ChangesetEntry>)
        requires
            self.inv(),
        ensures
            match r {
                Some(e) => self.changesets_map().contains_key(cs@) && e.rec()
                    == self.changesets_map()[cs@] && e.cs_id@ == cs@ && e.wf(),
                None => !self.changesets_map().contains_key(cs@),
            },
    {
        self.changesets.get(cs)
    }

    /// The parents recorded in the filenode for `(path, node)`.
    ///
    /// Fails with `MissingFilenode` exactly when no such filenode exists.
    pub fn get_parents(&self, path: &Vec<u8>, node: &NodeId) -> (r: Result<Parents, ErrorKind>)
        requires
            self.inv(),
        ensures
            match r {
                Ok(ps) => self.filenodes_map().contains_key((path@, node@)) && ps@ == (
                    self.filenodes_map()[(path@, node@)].p1,
                    self.filenodes_map()[(path@, node@)].p2,
                ) && ps.wf(),
                Err(e) => e matches ErrorKind::MissingFilenode(p, n) && p@ == path@ && n@ == node@
                    && !self.filenodes_map().contains_key((path@, node@)),
            },
    {
        match self.filenodes.get_filenode(path, node) {
            Some(info) => Ok(Parents::new(info.p1, info.p2)),
            None => Err(
                ErrorKind::MissingFilenode(
                    crate::codec::subvec(path, 0, path.len()),
                    node.clone(),
                ),
            ),
        }
    }

    /// The copy source recorded in the filenode for `(path, node)`.
    ///
    /// Fails with `MissingFilenode` exactly when no such filenode exists.
    pub fn get_file_copy(&self, path: &Vec<u8>, node: &NodeId) -> (r: Result<
        Option<(Vec<u8>, NodeId)>,
        ErrorKind,
    >)
        requires
            self.inv(),
        ensures
            match r {
                Ok(cf) => self.filenodes_map().contains_key((path@, node@)) && (match (cf,
                self.filenodes_map()[(path@, node@)].copyfrom) {
                    (Some((p, n)), Some((ps, ns))) => p@ == ps && n@ == ns,
                    (None, None) => true,
                    _ => false,
                }),
                Err(e) => e matches ErrorKind::MissingFilenode(p, n) && p@ == path@ && n@ == node@
                    && !self.filenodes_map().contains_key((path@, node@)),
            },
    {
        match self.filenodes.get_filenode(path, node) {
            Some(info) => Ok(info.copyfrom),
            None => Err(
                ErrorKind::MissingFilenode(
                    crate::codec::subvec(path, 0, path.len()),
                    node.clone(),
                ),
            ),
        }
    }

    /// The changeset that introduced the filenode for `(path, node)`.
    ///
    /// Fails with `MissingFilenode` exactly when no such filenode exists.
    pub fn get_linknode(&self, path: &Vec<u8>, node: &NodeId) -> (r: Result<NodeId, ErrorKind>)
        requires
            self.inv(),
        ensures
            match r {
                Ok(link) => self.filenodes_map().contains_key((path@, node@)) && link@
                    == self.filenodes_map()[(path@, node@)].linknode && link.wf(),
                Err(e) => e matches ErrorKind::MissingFilenode(p, n) && p@ == path@ && n@ == node@
                    && !self.filenodes_map().contains_key((path@, node@)),
            },
    {
        match self.filenodes.get_filenode(path, node) {
            Some(info) => Ok(info.linknode),
            None => Err(
                ErrorKind::MissingFilenode(
                    crate::codec::subvec(path, 0, path.len()),
                    node.clone(),
                ),
            ),
        }
    }

    /// All live bookmarks with their targets.
    pub fn get_bookmarks(&self) -> (r: Vec<(Vec<u8>, NodeId)>)
        requires
            self.inv(),
        ensures
            forall|m: int| 0 <= m < r@.len() ==> self.bookmarks_map().contains_key(
                (#[trigger] r@[m]).0@,
            ) && self.bookmarks_map()[r@[m].0@] == r@[m].1@,
            forall|k: Seq<u8>| #[trigger] self.bookmarks_map().contains_key(k) ==> exists|m: int|
                0 <= m < r@.len() && (#[trigger] r@[m]).0@ == k,
    {
        let empty: Vec<u8> = Vec::new();
        let r = self.bookmarks.list_by_prefix(&empty);
        proof {
            assert forall|k: Seq<u8>| #[trigger] self.bookmarks_map().contains_key(k) implies
                exists|m: int| 0 <= m < r@.len() && (#[trigger] r@[m]).0@ == k by {
                assert(k.take(empty@.len() as int) =~= empty@);
                assert(crate::bookmarks::is_prefix(empty@, k));
            }
        }
        r
    }

    /// Open a bookmark transaction against this repository.
    pub fn update_bookmark_transaction(&self) -> (r: BookmarkTransaction)
        ensures
            r.ops_view() =~= Seq::<crate::bookmarks::BookmarkOp>::empty(),
            r.wf(),
    {
        self.bookmarks.create_transaction()
    }

    /// Commit a bookmark transaction against this repository.
    pub fn commit_bookmark_transaction(&mut self, tx: BookmarkTransaction) -> (r: Result<
        (),
        ErrorKind,
    >)
        requires
            old(self).inv(),
            tx.wf(),
        ensures
            final(self).inv(),
            final(self).store_contents() == old(self).store_contents(),
            final(self).changesets_map() == old(self).changesets_map(),
            final(self).filenodes_map() == old(self).filenodes_map(),
            final(self).heads_view() == old(self).heads_view(),
            match r {
                Ok(_) => crate::bookmarks::all_expectations_hold(
                    old(self).bookmarks_map(),
                    tx.ops_view(),
                ) && final(self).bookmarks_map() == crate::bookmarks::apply_ops(
                    old(self).bookmarks_map(),
                    tx.ops_view(),
                ),
                Err(e) => e matches ErrorKind::BookmarkConflict && final(self).bookmarks_map()
                    == old(self).bookmarks_map() && !crate::bookmarks::all_expectations_hold(
                    old(self).bookmarks_map(),
                    tx.ops_view(),
                ),
            },
    {
        let r = self.bookmarks.commit_transaction(tx);
        proof {
            assert(self.blobstore == old(self).blobstore);
            assert(self.heads == old(self).heads);
            assert(self.filenodes == old(self).filenodes);
            assert(self.changesets == old(self).changesets);
            assert(self.builders == old(self).builders);
            assert forall|i: int| 0 <= i < self.num_builders() implies self.builder_inv(i) by {
                assert(old(self).builder_inv(i));
                assert(self.builders@[i] == old(self).builders@[i]);
                assert(self.store_contents() == old(self).store_contents());
                assert(self.builder_seen(i) == old(self).builder_seen(i));
                assert(self.builder_required(i) == old(self).builder_required(i));
                assert(self.builder_drafts(i) == old(self).builder_drafts(i));
                assert(self.cbp_view(i) == old(self).cbp_view(i));
                assert(self.comp_view(i) == old(self).comp_view(i));
                assert(self.builder_root_view(i) == old(self).builder_root_view(i));
                assert(self.builder_uploader_inv(i) == old(self).builder_uploader_inv(i));
            }
        }
        r
    }
}

/// What a node's record points at in a store, if the chain is intact.
pub open spec fn node_record_of(store: Map<Seq<u8>, Seq<u8>>, id: Seq<u8>) -> Option<
    (Option<Seq<u8>>, Option<Seq<u8>>, Seq<u8>),
> {
    if store.contains_key(node_key_view(id)) {
        node_blob_dec(store[node_key_view(id)])
    } else {
        None
    }
}

/// The content bytes a node's record points at in a store, if present.
pub open spec fn content_of_node(store: Map<Seq<u8>, Seq<u8>>, id: Seq<u8>) -> Option<Seq<u8>> {
    match node_record_of(store, id) {
        Some((_, _, sha)) => {
            if store.contains_key(blob_key_view(sha)) {
                Some(store[blob_key_view(sha)])
            } else {
                None
            }
        },
        None => None,
    }
}

/// Whether a store holds, under `id`, a node whose content decodes as a
/// manifest listing.
pub open spec fn manifest_loadable(store: Map<Seq<u8>, Seq<u8>>, id: Seq<u8>) -> bool {
    content_of_node(store, id) matches Some(bytes) && manifest_dec(bytes) is Some
}

/// The path→(node, type) map of the manifest stored under `id`, if its
/// chain decodes.
pub open spec fn manifest_map_of(store: Map<Seq<u8>, Seq<u8>>, id: Seq<u8>) -> Option<
    Map<Seq<u8>, (Seq<u8>, EntryType)>,
> {
    match content_of_node(store, id) {
        Some(bytes) => match manifest_dec(bytes) {
            Some(items) => Some(crate::manifest::listing_map(items)),
            None => None,
        },
        None => None,
    }
}

impl<B: Blobstore> BlobRepo<B> {
    /// Fetch the content bytes of the node `key`.
    ///
    /// The node's record is read first; its digest then addresses the blob.
    /// A `NotFound` names exactly the missing key of that chain, a
    /// `SerializationFailed` means the stored record does not decode, and a
    /// backend fault surfaces as `BackendUnavailable`; a node whose chain is
    /// intact can fail for no other reason.
    pub fn get_file_content(&self, key: &NodeId) -> (r: Result<Vec<u8>, ErrorKind>)
        ensures
            match r {
                Ok(v) => content_of_node(self.store_contents(), key@) == Some(v@),
                Err(e) => match e {
                    ErrorKind::NotFound(k) => (!self.store_contents().contains_key(
                        node_key_view(key@),
                    ) && k@ == node_key_view(key@)) || (node_record_of(
                        self.store_contents(),
                        key@,
                    ) matches Some((_, _, sha)) && !self.store_contents().contains_key(
                        blob_key_view(sha),
                    ) && k@ == blob_key_view(sha)),
                    ErrorKind::SerializationFailed => self.store_contents().contains_key(
                        node_key_view(key@),
                    ) && node_blob_dec(self.store_contents()[node_key_view(key@)]) is None,
                    ErrorKind::BackendUnavailable => true,
                    _ => false,
                },
            },
    {
        let node_key = get_node_key(key);
        let record_bytes = match self.blobstore.get(&node_key) {
            Ok(Some(b)) => b,
            Ok(None) => {
                return Err(ErrorKind::NotFound(node_key));
            },
            Err(_) => {
                return Err(ErrorKind::BackendUnavailable);
            },
        };
        let record = match NodeBlob::decode(record_bytes.as_bytes()) {
            Some(nb) => nb,
            None => {
                return Err(ErrorKind::SerializationFailed);
            },
        };
        let blob_key = get_blob_key(&record.blob);
        match self.blobstore.get(&blob_key) {
            Ok(Some(b)) => Ok(b.into_bytes()),
            Ok(None) => Err(ErrorKind::NotFound(blob_key)),
            Err(_) => Err(ErrorKind::BackendUnavailable),
        }
    }

    /// Load the commit stored under `changesetid`.
    ///
    /// Converts absence into `ChangesetMissing`, naming the asked-for id; a
    /// `SerializationFailed` means a record exists but is not a commit
    /// written by `save` under this id; a backend fault surfaces as
    /// `BackendUnavailable`, so a loadable commit can fail for no other
    /// reason.
    pub fn get_changeset_by_changesetid(&self, changesetid: &NodeId) -> (r: Result<
        crate::changeset::BlobChangeset,
        ErrorKind,
    >)
        ensures
            match r {
                Ok(bc) => {
                    &&& bc.wf()
                    &&& bc.id_view() == changesetid@
                    &&& self.store_contents().contains_key(node_key_view(changesetid@))
                    &&& (node_blob_dec(self.store_contents()[node_key_view(changesetid@)])
                        matches Some((_, _, sha)) && sha == sha1_of(
                        changeset_enc(bc.content_view()),
                    ))
                    &&& self.store_contents().contains_key(
                        blob_key_view(sha1_of(changeset_enc(bc.content_view()))),
                    )
                    &&& crate::changeset::changeset_dec(
                        self.store_contents()[blob_key_view(
                            sha1_of(changeset_enc(bc.content_view())),
                        )],
                    ) == Some(bc.content_view())
                },
                Err(e) => match e {
                    ErrorKind::ChangesetMissing(n) => n@ == changesetid@
                        && !self.store_contents().contains_key(node_key_view(changesetid@)),
                    ErrorKind::SerializationFailed => self.store_contents().contains_key(
                        node_key_view(changesetid@),
                    ) && !crate::changeset::changeset_loadable(
                        self.store_contents(),
                        changesetid@,
                    ),
                    ErrorKind::BackendUnavailable => true,
                    _ => false,
                },
            },
    {
        match crate::changeset::BlobChangeset::load(&self.blobstore, changesetid) {
            Ok(Some(bc)) => Ok(bc),
            Ok(None) => Err(ErrorKind::ChangesetMissing(changesetid.clone())),
            Err(e) => Err(e),
        }
    }

    /// Load the manifest stored under `nodeid`.
    ///
    /// Converts absence into `ManifestMissing`, naming the asked-for id; a
    /// `SerializationFailed` means a record exists but its chain does not
    /// decode to a manifest; a backend fault surfaces as
    /// `BackendUnavailable`, so a loadable manifest can fail for no other
    /// reason.
    pub fn get_manifest_by_nodeid(&self, nodeid: &NodeId) -> (r: Result<BlobManifest, ErrorKind>)
        ensures
            match r {
                Ok(m) => m.wf() && (content_of_node(self.store_contents(), nodeid@) matches Some(
                    bytes,
                ) && manifest_dec(bytes) == Some(m.items_view())),
                Err(e) => match e {
                    ErrorKind::ManifestMissing(n) => n@ == nodeid@
                        && !self.store_contents().contains_key(node_key_view(nodeid@)),
                    ErrorKind::SerializationFailed => self.store_contents().contains_key(
                        node_key_view(nodeid@),
                    ) && !manifest_loadable(self.store_contents(), nodeid@),
                    ErrorKind::BackendUnavailable => true,
                    _ => false,
                },
            },
    {
        let node_key = get_node_key(nodeid);
        let record_bytes = match self.blobstore.get(&node_key) {
            Ok(Some(b)) => b,
            Ok(None) => {
                return Err(ErrorKind::ManifestMissing(nodeid.clone()));
            },
            Err(_) => {
                return Err(ErrorKind::BackendUnavailable);
            },
        };
        let record = match NodeBlob::decode(record_bytes.as_bytes()) {
            Some(nb) => nb,
            None => {
                return Err(ErrorKind::SerializationFailed);
            },
        };
        let blob_key = get_blob_key(&record.blob);
        let blob = match self.blobstore.get(&blob_key) {
            Ok(Some(b)) => b,
            Ok(None) => {
                return Err(ErrorKind::SerializationFailed);
            },
            Err(_) => {
                return Err(ErrorKind::BackendUnavailable);
            },
        };
        match BlobManifest::decode(blob.as_bytes()) {
            Some(m) => Ok(m),
            None => Err(ErrorKind::SerializationFailed),
        }
    }
}

/// What polling a commit builder reported.
#[derive(Clone, Copy, Debug, PartialEq, Eq, Structural)]
pub enum PollOutcome {
    /// The builder waits on a parent signal.
    Pending,
    /// The commit is fully durable.
    Complete,
    /// The commit failed; its signals carry the error.
    Failed,
}

/// Clone a list of key/value byte pairs, preserving views.
fn clone_pairs(v: &Vec<(Vec<u8>, Vec<u8>)>) -> (r: Vec<(Vec<u8>, Vec<u8>)>)
    ensures
        r@.len() == v@.len(),
        forall|i: int| 0 <= i < v@.len() ==> (#[trigger] r@[i]).0@ == v@[i].0@ && r@[i].1@
            == v@[i].1@,
{
    let mut out: Vec<(Vec<u8>, Vec<u8>)> = Vec::new();
    let mut i: usize = 0;
    while i < v.len()
        invariant
            i <= v@.len(),
            out@.len() == i,
            forall|j: int| 0 <= j < i ==> (#[trigger] out@[j]).0@ == v@[j].0@ && out@[j].1@
                == v@[j].1@,
        decreases v@.len() - i,
    {
        let k = crate::codec::subvec(&v[i].0, 0, v[i].0.len());
        let w = crate::codec::subvec(&v[i].1, 0, v[i].1.len());
        proof {
            assert(k@ =~= v@[i as int].0@);
            assert(w@ =~= v@[i as int].1@);
        }
        out.push((k, w));
        i = i + 1;
    }
    out
}

impl BlobRepo<EagerMemblob> {
    /// An empty in-memory repository for tests and small imports; a
    /// pre-filled in-memory blobstore may be supplied.
    pub fn new_memblob_empty(blobstore: Option<EagerMemblob>) -> (r: BlobRepo<EagerMemblob>)
        ensures
            r.inv(),
            r.num_builders() == 0,
            r.heads_view() =~= Seq::<Seq<u8>>::empty(),
            r.bookmarks_map() =~= Map::<Seq<u8>, Seq<u8>>::empty(),
            r.changesets_map() =~= Map::<Seq<u8>, CsRec>::empty(),
            r.filenodes_map() =~= Map::<(Seq<u8>, Seq<u8>), FnRec>::empty(),
            r.repoid_view() == 0,
            blobstore matches Some(b) ==> r.store_contents() == b.contents(),
            blobstore is None ==> r.store_contents() =~= Map::<Seq<u8>, Seq<u8>>::empty(),
    {
        let store = match blobstore {
            Some(b) => b,
            None => EagerMemblob::new(),
        };
        BlobRepo::new(
            Heads::new(),
            Bookmarks::new(),
            store,
            Filenodes::new(),
            Changesets::new(),
            0,
        )
    }
}

impl<B: Blobstore> BlobRepo<FailingBlobstore<B>> {
    /// Start or stop injecting write failures on the wrapped store.
    pub fn set_store_fail_writes(&mut self, fail_writes: bool)
        requires
            old(self).inv(),
        ensures
            final(self).inv(),
            final(self).store_contents() == old(self).store_contents(),
            final(self).heads_view() == old(self).heads_view(),
            final(self).bookmarks_map() == old(self).bookmarks_map(),
            final(self).filenodes_map() == old(self).filenodes_map(),
            final(self).changesets_map() == old(self).changesets_map(),
            final(self).num_builders() == old(self).num_builders(),
            forall|i: int| 0 <= i < final(self).num_builders() ==> final(self).cbp_view(i) == old(
                self,
            ).cbp_view(i) && final(self).comp_view(i) == old(self).comp_view(i),
    {
        self.blobstore.set_fail_writes(fail_writes);
        proof {
            assert(self.builders == old(self).builders);
            self.lemma_builders_stable_except(old(self), -1);
        }
    }
}

impl<B: Blobstore> BlobRepo<B> {
    /// Write one entry's content blob and raw node record.
    fn put_entry(&mut self, e: &BlobEntry) -> (r: Result<NodeId, ErrorKind>)
        requires
            old(self).inv(),
            e.wf(),
        ensures
            final(self).inv(),
            final(self).same_except_store(old(self)),
            match r {
                Ok(node) => {
                    &&& node.wf()
                    &&& node@ == nodeid_of(e.parents@.0, e.parents@.1, e.content@)
                    &&& final(self).store_contents() == old(self).store_contents().insert(
                        blob_key_view(sha1_of(e.content@)),
                        e.content@,
                    ).insert(
                        node_key_view(node@),
                        node_blob_enc(e.parents@.0, e.parents@.1, sha1_of(e.content@)),
                    )
                },
                Err(_) => true,
            },
    {
        let node = crate::hash::compute_nodeid(&e.parents.p1, &e.parents.p2, &e.content);
        let sha = crate::hash::sha1_digest(&e.content);
        let blob_key = get_blob_key(&sha);
        let content_copy = crate::codec::subvec(&e.content, 0, e.content.len());
        proof {
            assert(content_copy@ =~= e.content@);
        }
        match self.blobstore.put(blob_key, BlobstoreBytes::from_bytes(content_copy)) {
            Ok(_) => (),
            Err(err) => {
                proof {
                    self.lemma_store_grew(old(self));
                }
                return Err(err);
            },
        }
        let record = NodeBlob::new(
            Parents::new(
                crate::hash::clone_opt_id(&e.parents.p1),
                crate::hash::clone_opt_id(&e.parents.p2),
            ),
            sha,
        );
        let node_key = get_node_key(&node);
        match self.blobstore.put(node_key, BlobstoreBytes::from_bytes(record.encode())) {
            Ok(_) => (),
            Err(err) => {
                proof {
                    self.lemma_store_grew(old(self));
                }
                return Err(err);
            },
        }
        proof {
            self.lemma_store_grew(old(self));
        }
        Ok(node)
    }

    /// Start building a changeset: upload the root manifest and every child
    /// entry, and register a builder reached through the returned handle.
    ///
    /// The handle is usable as a parent of a dependent commit at once. When
    /// an upload fails, both of the handle's signals carry the error; the
    /// commit then never becomes visible.
    pub fn create_changeset(
        &mut self,
        p1: Option<ChangesetHandle>,
        p2: Option<ChangesetHandle>,
        root_manifest: BlobEntry,
        new_child_entries: Vec<BlobEntry>,
        user: Vec<u8>,
        time: u64,
        extra: Vec<(Vec<u8>, Vec<u8>)>,
        comments: Vec<u8>,
    ) -> (h: ChangesetHandle)
        requires
            old(self).inv(),
            p1 matches Some(hh) ==> hh.index < old(self).num_builders(),
            p2 matches Some(hh) ==> hh.index < old(self).num_builders(),
            root_manifest.wf(),
            root_manifest.ty == EntryType::Tree,
            forall|i: int| 0 <= i < new_child_entries@.len() ==> (
            #[trigger] new_child_entries@[i]).wf(),
        ensures
            final(self).inv(),
            h.index == old(self).num_builders(),
            final(self).num_builders() == old(self).num_builders() + 1,
            final(self).heads_view() == old(self).heads_view(),
            final(self).bookmarks_map() == old(self).bookmarks_map(),
            final(self).filenodes_map() == old(self).filenodes_map(),
            final(self).changesets_map() == old(self).changesets_map(),
            forall|k: Seq<u8>| old(self).store_contents().contains_key(k)
                ==> #[trigger] final(self).store_contents().contains_key(k),
            forall|i: int| 0 <= i < old(self).num_builders() ==> final(self).cbp_view(i) == old(
                self,
            ).cbp_view(i) && final(self).comp_view(i) == old(self).comp_view(i),
            final(self).comp_view(h.index as int) is None ==> final(self).cbp_view(h.index as int)
                is None,
            final(self).cbp_view(h.index as int) is None || final(self).cbp_view(h.index as int)
                == Some(None::<(Seq<u8>, Seq<u8>)>),
            final(self).builder_p1(h.index as int) == (match p1 {
                Some(hh) => Some(hh.index as int),
                None => None::<int>,
            }),
            final(self).builder_p2(h.index as int) == (match p2 {
                Some(hh) => Some(hh.index as int),
                None => None::<int>,
            }),
            final(self).builder_user(h.index as int) == user@,
            final(self).builder_time(h.index as int) == time,
            final(self).builder_extra(h.index as int) == Seq::new(
                extra@.len(),
                |j: int| (extra@[j].0@, extra@[j].1@),
            ),
            final(self).builder_comments(h.index as int) == comments@,
            manifest_dec(root_manifest.content@) is None ==> final(self).cbp_view(
                h.index as int,
            ) == Some(None::<(Seq<u8>, Seq<u8>)>),
            final(self).cbp_view(h.index as int) is None ==> {
                &&& (manifest_dec(root_manifest.content@) matches Some(items)
                    && final(self).builder_root_map(h.index as int)
                    == crate::manifest::listing_map(items))
                &&& final(self).builder_root_view(h.index as int) == Some(
                    nodeid_of(
                        root_manifest.parents@.0,
                        root_manifest.parents@.1,
                        root_manifest.content@,
                    ),
                )
                &&& final(self).builder_seen(h.index as int) == entries_keys(
                    root_manifest,
                    new_child_entries@,
                )
                &&& final(self).builder_drafts(h.index as int) == entries_drafts(
                    root_manifest,
                    new_child_entries@,
                )
                &&& final(self).builder_required(h.index as int) == entries_required(
                    root_manifest,
                    new_child_entries@,
                )
                &&& final(self).store_contents().contains_key(
                    blob_key_view(sha1_of(root_manifest.content@)),
                )
                &&& final(self).store_contents().contains_key(
                    node_key_view(
                        nodeid_of(
                            root_manifest.parents@.0,
                            root_manifest.parents@.1,
                            root_manifest.content@,
                        ),
                    ),
                )
                &&& forall|i: int| 0 <= i < new_child_entries@.len()
                    ==> final(self).store_contents().contains_key(
                    blob_key_view(sha1_of((#[trigger] new_child_entries@[i]).content@)),
                ) && final(self).store_contents().contains_key(
                    node_key_view(
                        nodeid_of(
                            new_child_entries@[i].parents@.0,
                            new_child_entries@[i].parents@.1,
                            new_child_entries@[i].content@,
                        ),
                    ),
                )
            },
    {
        let mut uploader = UploadEntries::new();
        let mut failed: Option<ErrorKind> = None;
        let mut root_id: Option<NodeId> = None;
        let mut root_mf: Option<BlobManifest> = None;
        match self.put_entry(&root_manifest) {
            Ok(node) => {
                match uploader.add_entry(&root_manifest, &node, true) {
                    Ok(_) => {
                        proof {
                            assert(uploader.seen_view() =~= entries_keys(
                                root_manifest,
                                new_child_entries@.take(0),
                            ));
                            assert(uploader.drafts_view() =~= entries_drafts(
                                root_manifest,
                                new_child_entries@.take(0),
                            ));
                            assert(uploader.required_view() =~= entries_required(
                                root_manifest,
                                new_child_entries@.take(0),
                            ));
                        }
                        root_id = Some(node);
                    },
                    Err(e) => {
                        failed = Some(e);
                    },
                }
            },
            Err(e) => {
                failed = Some(e);
            },
        }
        if failed.is_none() {
            match BlobManifest::decode(&root_manifest.content) {
                Some(m) => {
                    root_mf = Some(m);
                },
                None => {
                    failed = Some(ErrorKind::SerializationFailed);
                },
            }
        }
        let mut i: usize = 0;
        while i < new_child_entries.len()
            invariant
                i <= new_child_entries@.len(),
                self.inv(),
                self.same_except_store(old(self)),
                uploader.inv(),
                root_manifest.wf(),
                root_manifest.ty == EntryType::Tree,
                forall|j: int| 0 <= j < new_child_entries@.len() ==> (
                #[trigger] new_child_entries@[j]).wf(),
                forall|j: int| 0 <= j < uploader.seen_view().len() ==> self
                    .store_contents().contains_key(
                    node_key_view((#[trigger] uploader.seen_view()[j]).1),
                ),
                failed.is_none() ==> (root_id matches Some(rid) && rid.wf()
                    && uploader.root_view() == Some(rid@) && rid@ == nodeid_of(
                    root_manifest.parents@.0,
                    root_manifest.parents@.1,
                    root_manifest.content@,
                )),
                failed.is_none() ==> (root_mf matches Some(m) && m.wf() && manifest_dec(
                    root_manifest.content@,
                ) == Some(m.items_view())),
                failed.is_none() ==> uploader.seen_view() == entries_keys(
                    root_manifest,
                    new_child_entries@.take(i as int),
                ),
                failed.is_none() ==> uploader.drafts_view() == entries_drafts(
                    root_manifest,
                    new_child_entries@.take(i as int),
                ),
                failed.is_none() ==> uploader.required_view() == entries_required(
                    root_manifest,
                    new_child_entries@.take(i as int),
                ),
                failed.is_none() ==> self.store_contents().contains_key(
                    blob_key_view(sha1_of(root_manifest.content@)),
                ),
                failed.is_none() ==> forall|j: int| 0 <= j < i ==> self
                    .store_contents().contains_key(
                    blob_key_view(sha1_of((#[trigger] new_child_entries@[j]).content@)),
                ) && self.store_contents().contains_key(
                    node_key_view(
                        nodeid_of(
                            new_child_entries@[j].parents@.0,
                            new_child_entries@[j].parents@.1,
                            new_child_entries@[j].content@,
                        ),
                    ),
                ),
            decreases new_child_entries@.len() - i,
        {
            if failed.is_none() {
                let e = &new_child_entries[i];
                let ghost keys_pre = uploader.seen_view();
                let ghost drafts_pre = uploader.drafts_view();
                let ghost req_pre = uploader.required_view();
                match self.put_entry(e) {
                    Ok(node) => {
                        match uploader.add_entry(e, &node, false) {
                            Ok(_) => {
                                proof {
                                    let cv = new_child_entries@;
                                    assert(uploader.seen_view() =~= entries_keys(
                                        root_manifest,
                                        cv.take(i as int + 1),
                                    )) by {
                                        assert(uploader.seen_view() == keys_pre.push(
                                            (e.path@, node@),
                                        ));
                                        assert((e.path@, node@) == entry_key(cv[i as int]));
                                    }
                                    assert(uploader.drafts_view() =~= entries_drafts(
                                        root_manifest,
                                        cv.take(i as int + 1),
                                    )) by {
                                        assert(uploader.drafts_view() == drafts_pre.push(
                                            crate::uploader::entry_draft(cv[i as int]),
                                        ));
                                    }
                                    assert(uploader.required_view() =~= entries_required(
                                        root_manifest,
                                        cv.take(i as int + 1),
                                    )) by {
                                        assert(cv.take(i as int + 1).drop_last() =~= cv.take(
                                            i as int,
                                        ));
                                        assert(cv.take(i as int) =~= cv.take(i as int + 1)
                                            .drop_last());
                                        crate::uploader::lemma_children_required_snoc(
                                            cv.take(i as int),
                                            cv[i as int],
                                        );
                                        assert(cv.take(i as int).push(cv[i as int]) =~= cv.take(
                                            i as int + 1,
                                        ));
                                        assert(crate::uploader::entry_required(cv[i as int])
                                            =~= (if cv[i as int].ty
                                            == EntryType::Tree {
                                            crate::uploader::listing_pairs(
                                                manifest_dec(cv[i as int].content@).unwrap(),
                                            )
                                        } else {
                                            Seq::<(Seq<u8>, Seq<u8>)>::empty()
                                        }));
                                    }
                                }
                            },
                            Err(err) => {
                                failed = Some(err);
                            },
                        }
                    },
                    Err(err) => {
                        failed = Some(err);
                    },
                }
            }
            i = i + 1;
        }
        let ghost ok_path = failed.is_none();
        let (can_be_parent, completion): (
            Option<Result<(NodeId, NodeId), ErrorKind>>,
            Option<Result<NodeId, ErrorKind>>,
        ) = match failed {
            Some(e) => (Some(Err(e.clone())), Some(Err(e))),
            None => (None, None),
        };
        let builder = BuilderState {
            p1: match p1 {
                Some(hh) => Some(hh.index),
                None => None,
            },
            p2: match p2 {
                Some(hh) => Some(hh.index),
                None => None,
            },
            user,
            time,
            extra,
            comments,
            root_id,
            root_manifest: root_mf,
            uploader,
            can_be_parent,
            completion,
        };
        let h = ChangesetHandle { index: self.builders.len() };
        let ghost pre_push = *self;
        let ghost saved_builder = builder;
        self.builders.push(builder);
        proof {
            assert(self.blobstore == pre_push.blobstore);
            assert(self.store_contents() == pre_push.store_contents());
            assert(self.builders@.last() == saved_builder);
            assert(forall|i2: int|
                0 <= i2 < pre_push.num_builders() ==> self.builders@[i2]
                    == pre_push.builders@[i2]);
            assert forall|k: Seq<u8>| old(self).store_contents().contains_key(k) implies
                #[trigger] self.store_contents().contains_key(k) by {
                assert(pre_push.store_contents().contains_key(k));
            }
            assert forall|i2: int| 0 <= i2 < self.num_builders() implies self.builder_inv(i2) by {
                if i2 < self.num_builders() - 1 {
                    assert(pre_push.builder_inv(i2));
                    assert(self.builders@[i2] == pre_push.builders@[i2]);
                    assert(self.builder_seen(i2) == pre_push.builder_seen(i2));
                    assert(self.builder_required(i2) == pre_push.builder_required(i2));
                    assert(self.builder_drafts(i2) == pre_push.builder_drafts(i2));
                    assert(self.cbp_view(i2) == pre_push.cbp_view(i2));
                    assert(self.comp_view(i2) == pre_push.comp_view(i2));
                    assert(self.builder_root_view(i2) == pre_push.builder_root_view(i2));
                    assert(self.builder_uploader_inv(i2) == pre_push.builder_uploader_inv(i2));
                    assert(self.builder_ready_facts(i2) == pre_push.builder_ready_facts(i2));
                    assert(self.builder_p1(i2) == pre_push.builder_p1(i2));
                    assert(self.builder_p2(i2) == pre_push.builder_p2(i2));
                } else {
                    assert(self.builders@[i2] == saved_builder);
                    assert(self.builder_seen(i2) == saved_builder.uploader.seen_view());
                    assert(self.builder_uploader_inv(i2) == saved_builder.uploader.inv());
                    if ok_path {
                        assert(self.cbp_view(i2) is None);
                        assert(self.comp_view(i2) is None);
                        assert(self.builder_ready_facts(i2));
                    } else {
                        assert(self.cbp_view(i2) == Some(None::<(Seq<u8>, Seq<u8>)>));
                        assert(self.comp_view(i2) == Some(None::<Seq<u8>>));
                    }
                }
            }
            let hi = h.index as int;
            assert(self.builders@[hi] == saved_builder);
            assert(self.builder_user(hi) == user@);
            assert(self.builder_time(hi) == time);
            assert(self.builder_extra(hi) =~= Seq::new(
                extra@.len(),
                |j: int| (extra@[j].0@, extra@[j].1@),
            ));
            assert(self.builder_comments(hi) == comments@);
            if ok_path {
                assert(new_child_entries@.take(new_child_entries@.len() as int)
                    =~= new_child_entries@);
                assert(self.builder_seen(hi) == entries_keys(root_manifest, new_child_entries@));
                assert(self.builder_drafts(hi) == entries_drafts(
                    root_manifest,
                    new_child_entries@,
                ));
                assert(self.builder_required(hi) == entries_required(
                    root_manifest,
                    new_child_entries@,
                ));
                match saved_builder.root_manifest {
                    Some(m) => {
                        assert(self.builder_root_map(hi) == m.lookup_map());
                        assert(manifest_dec(root_manifest.content@) == Some(m.items_view()));
                    },
                    None => {
                        assert(false);
                    },
                }
            }
        }
        h
    }

    /// Builders other than `except` keep their invariant when the stores
    /// only grow and keep their values.
    proof fn lemma_builders_stable_except(&self, prev: &Self, except: int)
        requires
            forall|i: int| 0 <= i < prev.num_builders() ==> prev.builder_inv(i),
            self.num_builders() == prev.num_builders(),
            forall|i: int| 0 <= i < self.num_builders() && i != except ==> self.builders@[i]
                == prev.builders@[i],
            forall|k: Seq<u8>| prev.store_contents().contains_key(k)
                ==> #[trigger] self.store_contents().contains_key(k),
            forall|k: (Seq<u8>, Seq<u8>)| #[trigger] prev.filenodes_map().contains_key(k)
                ==> self.filenodes_map().contains_key(k) && self.filenodes_map()[k]
                == prev.filenodes_map()[k],
            forall|k: Seq<u8>| prev.changesets_map().contains_key(k)
                ==> #[trigger] self.changesets_map().contains_key(k),
        ensures
            forall|i: int| 0 <= i < self.num_builders() && i != except ==> self.builder_inv(i),
    {
        assert forall|i: int| 0 <= i < self.num_builders() && i != except implies self.builder_inv(
            i,
        ) by {
            assert(prev.builder_inv(i));
            assert(self.builders@[i] == prev.builders@[i]);
            assert(self.builder_seen(i) == prev.builder_seen(i));
            assert(self.builder_required(i) == prev.builder_required(i));
            assert(self.builder_drafts(i) == prev.builder_drafts(i));
            assert(self.cbp_view(i) == prev.cbp_view(i));
            assert(self.comp_view(i) == prev.comp_view(i));
            assert(self.builder_root_view(i) == prev.builder_root_view(i));
            assert(self.builder_uploader_inv(i) == prev.builder_uploader_inv(i));
            assert(self.builder_ready_facts(i) == prev.builder_ready_facts(i));
            assert(self.builder_p1(i) == prev.builder_p1(i));
            assert(self.builder_p2(i) == prev.builder_p2(i));
            assert forall|j: int| 0 <= j < self.builder_seen(i).len() implies self
                .store_contents().contains_key(
                node_key_view((#[trigger] self.builder_seen(i)[j]).1),
            ) by {
                assert(prev.store_contents().contains_key(
                    node_key_view(prev.builder_seen(i)[j].1),
                ));
            }
            match self.cbp_view(i) {
                Some(Some(ids)) => {
                    assert(prev.store_contents().contains_key(node_key_view(ids.0)));
                    assert forall|j: int| 0 <= j < self.builder_drafts(i).len() implies self
                        .filenodes_map().contains_key(
                        ((#[trigger] self.builder_drafts(i)[j]).path,
                        self.builder_drafts(i)[j].node),
                    ) by {
                        let d = self.builder_drafts(i)[j];
                        assert(prev.filenodes_map().contains_key((d.path, d.node)));
                    }
                },
                _ => (),
            }
            match self.comp_view(i) {
                Some(Some(cs)) => {
                    assert(prev.changesets_map().contains_key(cs));
                },
                _ => (),
            }
        }
    }

    /// Mark builder `i` as failed: the completion signal carries the error,
    /// and so does the parent signal when it had not fired yet.
    fn fail_builder(&mut self, i: usize, e: ErrorKind)
        requires
            old(self).inv(),
            i < old(self).num_builders(),
            old(self).comp_view(i as int) is None,
        ensures
            final(self).inv(),
            final(self).num_builders() == old(self).num_builders(),
            final(self).store_contents() == old(self).store_contents(),
            final(self).heads_view() == old(self).heads_view(),
            final(self).bookmarks_map() == old(self).bookmarks_map(),
            final(self).filenodes_map() == old(self).filenodes_map(),
            final(self).changesets_map() == old(self).changesets_map(),
            forall|j: int| 0 <= j < final(self).num_builders() && j != i ==> final(self).cbp_view(
                j,
            ) == old(self).cbp_view(j) && final(self).comp_view(j) == old(self).comp_view(j),
            final(self).comp_view(i as int) == Some(None::<Seq<u8>>),
            final(self).comp_err_view(i as int) == Some(e),
            final(self).builder_p1(i as int) == old(self).builder_p1(i as int),
            final(self).builder_p2(i as int) == old(self).builder_p2(i as int),
            old(self).cbp_view(i as int) is None ==> final(self).cbp_view(i as int) == Some(
                None::<(Seq<u8>, Seq<u8>)>,
            ),
            !(old(self).cbp_view(i as int) is None) ==> final(self).cbp_view(i as int) == old(
                self,
            ).cbp_view(i as int),
    {
        proof {
            assert(old(self).builder_inv(i as int));
        }
        let b = &mut self.builders[i];
        if b.can_be_parent.is_none() {
            b.can_be_parent = Some(Err(e.clone()));
        }
        b.completion = Some(Err(e));
        proof {
            assert(forall|j: int|
                0 <= j < self.num_builders() && j != i ==> self.builders@[j] == old(
                    self,
                ).builders@[j]);
            self.lemma_builders_stable_except(old(self), i as int);
            assert(self.builder_inv(i as int)) by {
                assert(self.builders@[i as int].uploader == old(self).builders@[
                    i as int].uploader);
                assert(self.builder_seen(i as int) == old(self).builder_seen(i as int));
                assert(self.builder_uploader_inv(i as int) == old(self).builder_uploader_inv(
                    i as int,
                ));
                assert(self.builder_p1(i as int) == old(self).builder_p1(i as int));
                assert(self.builder_p2(i as int) == old(self).builder_p2(i as int));
                assert(old(self).builder_inv(i as int));
                assert forall|j: int| 0 <= j < self.builder_seen(i as int).len() implies self
                    .store_contents().contains_key(
                    node_key_view((#[trigger] self.builder_seen(i as int)[j]).1),
                ) by {
                    assert(old(self).store_contents().contains_key(
                        node_key_view(old(self).builder_seen(i as int)[j].1),
                    ));
                }
                match self.cbp_view(i as int) {
                    Some(Some(ids)) => {
                        assert(old(self).cbp_view(i as int) == Some(Some(ids)));
                        assert(self.builder_required(i as int) == old(self).builder_required(
                            i as int,
                        ));
                        assert(self.builder_drafts(i as int) == old(self).builder_drafts(
                            i as int,
                        ));
                        assert(self.builder_root_view(i as int) == old(self).builder_root_view(
                            i as int,
                        ));
                    },
                    _ => (),
                }
            }
        }
    }

    /// Run a ready builder's commit step: derive the changed files, write
    /// the commit blob, add the head, finalize the filenodes, and fire the
    /// "usable as a parent" signal.
    fn advance_ready(&mut self, h: ChangesetHandle) -> (r: PollOutcome)
        requires
            old(self).inv(),
            h.index < old(self).num_builders(),
            old(self).cbp_view(h.index as int) is None,
        ensures
            final(self).inv(),
            final(self).num_builders() == old(self).num_builders(),
            final(self).bookmarks_map() == old(self).bookmarks_map(),
            final(self).changesets_map() == old(self).changesets_map(),
            forall|k: Seq<u8>| old(self).store_contents().contains_key(k)
                ==> #[trigger] final(self).store_contents().contains_key(k),
            forall|k: (Seq<u8>, Seq<u8>)| #[trigger] old(self).filenodes_map().contains_key(k)
                ==> final(self).filenodes_map().contains_key(k) && final(self).filenodes_map()[k]
                == old(self).filenodes_map()[k],
            forall|j: int| 0 <= j < final(self).num_builders() && j != h.index
                ==> final(self).cbp_view(j) == old(self).cbp_view(j)
                && final(self).comp_view(j) == old(self).comp_view(j),
            match r {
                PollOutcome::Pending => *final(self) == *old(self),
                PollOutcome::Complete => (final(self).cbp_view(h.index as int) matches Some(
                    Some(_),
                )) && final(self).comp_view(h.index as int) is None,
                PollOutcome::Failed => final(self).comp_view(h.index as int) == Some(
                    None::<Seq<u8>>,
                ),
            },
            final(self).builder_p1(h.index as int) == old(self).builder_p1(h.index as int),
            final(self).builder_p2(h.index as int) == old(self).builder_p2(h.index as int),
            r == PollOutcome::Failed ==> final(self).cbp_view(h.index as int) == Some(
                None::<(Seq<u8>, Seq<u8>)>,
            ),
            r == PollOutcome::Failed ==> final(self).heads_view() == old(self).heads_view()
                && final(self).filenodes_map() == old(self).filenodes_map(),
            old(self).some_parent_cbp_failed(h.index as int) ==> r == PollOutcome::Failed && (
            final(self).comp_err_view(h.index as int) matches Some(e) && e is ParentsFailed),
            (final(self).comp_err_view(h.index as int) matches Some(e) && e is ParentsFailed)
                ==> old(self).some_parent_cbp_failed(h.index as int),
            (!old(self).some_parent_cbp_failed(h.index as int) && old(self).some_parent_cbp_unset(
                h.index as int,
            )) ==> r == PollOutcome::Pending,
            r == PollOutcome::Pending ==> old(self).some_parent_cbp_unset(h.index as int),
            r == PollOutcome::Complete ==> (final(self).cbp_view(h.index as int) matches Some(
                Some(ids),
            ) && {
                &&& old(self).step_commit_id(
                    h.index as int,
                    old(self).store_contents(),
                    ids.0,
                    ids.1,
                )
                &&& final(self).heads_view() == (if old(self).heads_view().contains(ids.0) {
                    old(self).heads_view()
                } else {
                    old(self).heads_view().push(ids.0)
                })
                &&& crate::filenodes::add_fold(
                    old(self).filenodes_map(),
                    stamp_all(
                        crate::uploader::fresh_drafts(
                            old(self).builder_drafts(h.index as int),
                            old(self).filenodes_map(),
                        ),
                        ids.0,
                    ),
                ) == Some(final(self).filenodes_map())
                &&& exists|files: Seq<Seq<u8>>|
                    #![auto]
                    old(self).step_commit_with(
                        h.index as int,
                        old(self).store_contents(),
                        ids.0,
                        ids.1,
                        files,
                    ) && final(self).store_contents() == old(self).store_contents().insert(
                        blob_key_view(
                            sha1_of(
                                changeset_enc(
                                    old(self).step_content(h.index as int, ids.1, files),
                                ),
                            ),
                        ),
                        changeset_enc(old(self).step_content(h.index as int, ids.1, files)),
                    ).insert(
                        node_key_view(ids.0),
                        node_blob_enc(
                            old(self).step_content(h.index as int, ids.1, files).p1,
                            old(self).step_content(h.index as int, ids.1, files).p2,
                            sha1_of(
                                changeset_enc(
                                    old(self).step_content(h.index as int, ids.1, files),
                                ),
                            ),
                        ),
                    )
            }),
            (final(self).comp_err_view(h.index as int) matches Some(e) && e is CycleDetected)
                ==> old(self).step_self_loop(h.index as int, old(self).store_contents()),
            (!old(self).some_parent_cbp_failed(h.index as int) && !old(
                self,
            ).some_parent_cbp_unset(h.index as int) && old(self).step_self_loop(
                h.index as int,
                old(self).store_contents(),
            )) ==> r == PollOutcome::Failed && (final(self).comp_err_view(h.index as int)
                matches Some(e) && (e is CycleDetected || e is BackendUnavailable)),
    {
        let hi = h.index;
        proof {
            assert(old(self).builder_inv(hi as int));
        }
        let p1i = self.builders[hi].p1;
        let p2i = self.builders[hi].p2;
        let mut p1_ids: Option<(NodeId, NodeId)> = None;
        let mut p2_ids: Option<(NodeId, NodeId)> = None;
        let mut any_err = false;
        let mut any_unset = false;
        match p1i {
            Some(pi) => {
                proof {
                    assert(self.builder_p1(hi as int) == Some(pi as int));
                    assert(self.builder_inv(pi as int));
                }
                match &self.builders[pi].can_be_parent {
                    None => {
                        any_unset = true;
                    },
                    Some(Err(_)) => {
                        any_err = true;
                    },
                    Some(Ok((cs, mf))) => {
                        proof {
                            assert(self.cbp_view(pi as int) == Some(Some((cs@, mf@))));
                        }
                        p1_ids = Some((cs.clone(), mf.clone()));
                    },
                }
            },
            None => (),
        }
        match p2i {
            Some(pi) => {
                proof {
                    assert(self.builder_p2(hi as int) == Some(pi as int));
                    assert(self.builder_inv(pi as int));
                }
                match &self.builders[pi].can_be_parent {
                    None => {
                        any_unset = true;
                    },
                    Some(Err(_)) => {
                        any_err = true;
                    },
                    Some(Ok((cs, mf))) => {
                        proof {
                            assert(self.cbp_view(pi as int) == Some(Some((cs@, mf@))));
                        }
                        p2_ids = Some((cs.clone(), mf.clone()));
                    },
                }
            },
            None => (),
        }
        proof {
            assert(any_err == old(self).some_parent_cbp_failed(hi as int));
            assert(any_unset == old(self).some_parent_cbp_unset(hi as int));
        }
        if any_err {
            self.fail_builder(hi, ErrorKind::ParentsFailed);
            return PollOutcome::Failed;
        }
        if any_unset {
            return PollOutcome::Pending;
        }
        let mut p1m: Option<BlobManifest> = None;
        let mut p2m: Option<BlobManifest> = None;
        match &p1_ids {
            Some((_, mf)) => {
                match self.get_manifest_by_nodeid(mf) {
                    Ok(m) => {
                        p1m = Some(m);
                    },
                    Err(e) => {
                        proof {
                            if !(e is BackendUnavailable) && old(self).step_self_loop(
                                hi as int,
                                old(self).store_contents(),
                            ) {
                                let (cs2, mf2) = choose|cs2: Seq<u8>, mf2: Seq<u8>|
                                    #![auto]
                                    old(self).step_commit_id(
                                        hi as int,
                                        old(self).store_contents(),
                                        cs2,
                                        mf2,
                                    ) && (old(self).parent_cs(
                                        old(self).builder_p1(hi as int),
                                    ) == Some(cs2) || old(self).parent_cs(
                                        old(self).builder_p2(hi as int),
                                    ) == Some(cs2));
                                let files2 = choose|files2: Seq<Seq<u8>>| #[trigger] old(
                                    self,
                                ).step_commit_with(
                                    hi as int,
                                    old(self).store_contents(),
                                    cs2,
                                    mf2,
                                    files2,
                                );
                                assert(manifest_map_of(old(self).store_contents(), mf@)
                                    is None);
                                assert(false);
                            }
                        }
                        self.fail_builder(hi, e);
                        return PollOutcome::Failed;
                    },
                }
            },
            None => (),
        }
        let same_parents = match (&p1_ids, &p2_ids) {
            (Some((c1, _)), Some((c2, _))) => c1 == c2,
            _ => false,
        };
        if !same_parents {
            match &p2_ids {
                Some((_, mf)) => {
                    match self.get_manifest_by_nodeid(mf) {
                        Ok(m) => {
                            p2m = Some(m);
                        },
                        Err(e) => {
                            proof {
                                if !(e is BackendUnavailable) && old(self).step_self_loop(
                                    hi as int,
                                    old(self).store_contents(),
                                ) {
                                    let (cs2, mf2) = choose|cs2: Seq<u8>, mf2: Seq<u8>|
                                        #![auto]
                                        old(self).step_commit_id(
                                            hi as int,
                                            old(self).store_contents(),
                                            cs2,
                                            mf2,
                                        ) && (old(self).parent_cs(
                                            old(self).builder_p1(hi as int),
                                        ) == Some(cs2) || old(self).parent_cs(
                                            old(self).builder_p2(hi as int),
                                        ) == Some(cs2));
                                    let files2 = choose|files2: Seq<Seq<u8>>| #[trigger] old(
                                        self,
                                    ).step_commit_with(
                                        hi as int,
                                        old(self).store_contents(),
                                        cs2,
                                        mf2,
                                        files2,
                                    );
                                    assert(manifest_map_of(old(self).store_contents(), mf@)
                                        is None);
                                    assert(false);
                                }
                            }
                            self.fail_builder(hi, e);
                            return PollOutcome::Failed;
                        },
                    }
                },
                None => (),
            }
        }
        proof {
            assert(self.builder_inv(hi as int));
            assert(self.builder_ready_facts(hi as int));
            assert(*self == *old(self));
        }
        let files = {
            let root_ref = match &self.builders[hi].root_manifest {
                Some(m) => m,
                None => {
                    proof {
                        assert(false);
                    }
                    vstd::pervasive::unreached()
                },
            };
            let p1r: Option<&BlobManifest> = match &p1m {
                Some(m) => Some(m),
                None => None,
            };
            let p2r: Option<&BlobManifest> = match &p2m {
                Some(m) => Some(m),
                None => None,
            };
            compute_changed_files(root_ref, p1r, p2r)
        };
        let ghost fview = crate::changed::paths_view(files@);
        let root_id = match &self.builders[hi].root_id {
            Some(rid) => rid.clone(),
            None => {
                proof {
                    assert(false);
                }
                vstd::pervasive::unreached()
            },
        };
        let content = {
            let b_ref = &self.builders[hi];
            ChangesetContent {
                p1: match &p1_ids {
                    Some((cs, _)) => Some(cs.clone()),
                    None => None,
                },
                p2: match &p2_ids {
                    Some((cs, _)) => Some(cs.clone()),
                    None => None,
                },
                manifest_id: root_id.clone(),
                user: crate::codec::subvec(&b_ref.user, 0, b_ref.user.len()),
                time: b_ref.time,
                extra: clone_pairs(&b_ref.extra),
                files,
                comments: crate::codec::subvec(&b_ref.comments, 0, b_ref.comments.len()),
            }
        };
        let ghost cview = content@;
        let bc = crate::changeset::BlobChangeset::new(content);
        let cs_id = bc.get_changeset_id();
        proof {
            let i = hi as int;
            let st0 = old(self).store_contents();
            assert(old(self).step_commit_with(i, st0, cs_id@, root_id@, cview.files) && cview
                == old(self).step_content(i, root_id@, cview.files)) by {
                assert(cview.files =~= fview);
                assert(cview.user =~= old(self).builder_user(i));
                assert(cview.extra =~= old(self).builder_extra(i));
                assert(cview.comments =~= old(self).builder_comments(i));
                match (&p1_ids, p1i) {
                    (Some((cs, mf)), Some(pi)) => {
                        assert(old(self).parent_cs(old(self).builder_p1(i)) == Some(cs@));
                        assert(old(self).parent_mf(old(self).builder_p1(i)) == Some(mf@));
                    },
                    (None, None) => {
                        assert(old(self).parent_cs(old(self).builder_p1(i)) is None);
                    },
                    _ => {
                        assert(false);
                    },
                }
                match (&p2_ids, p2i) {
                    (Some((cs, mf)), Some(pi)) => {
                        assert(old(self).parent_cs(old(self).builder_p2(i)) == Some(cs@));
                        assert(old(self).parent_mf(old(self).builder_p2(i)) == Some(mf@));
                    },
                    (None, None) => {
                        assert(old(self).parent_cs(old(self).builder_p2(i)) is None);
                    },
                    _ => {
                        assert(false);
                    },
                }
                match (&p1_ids, &p1m) {
                    (Some((_, mf)), Some(m)) => {
                        assert(manifest_map_of(st0, mf@) == Some(m.lookup_map()));
                    },
                    (None, None) => (),
                    _ => {
                        assert(false);
                    },
                }
                if !same_parents {
                    match (&p2_ids, &p2m) {
                        (Some((_, mf)), Some(m)) => {
                            assert(manifest_map_of(st0, mf@) == Some(m.lookup_map()));
                        },
                        (None, None) => (),
                        _ => {
                            assert(false);
                        },
                    }
                }
                match &self.builders@[i].root_manifest {
                    Some(m) => {
                        assert(old(self).builder_root_map(i) == m.lookup_map());
                    },
                    None => {
                        assert(false);
                    },
                }
            }
        }
        let cycle = {
            let c1 = match &p1_ids {
                Some((cs, _)) => cs == &cs_id,
                None => false,
            };
            let c2 = match &p2_ids {
                Some((cs, _)) => cs == &cs_id,
                None => false,
            };
            c1 || c2
        };
        if cycle {
            proof {
                assert(old(self).step_commit_id(
                    hi as int,
                    old(self).store_contents(),
                    cs_id@,
                    root_id@,
                ));
                assert(old(self).parent_cs(old(self).builder_p1(hi as int)) == Some(cs_id@) || old(
                    self,
                ).parent_cs(old(self).builder_p2(hi as int)) == Some(cs_id@));
                assert(old(self).step_self_loop(hi as int, old(self).store_contents()));
            }
            self.fail_builder(hi, ErrorKind::CycleDetected);
            return PollOutcome::Failed;
        }
        proof {
            if old(self).step_self_loop(hi as int, old(self).store_contents()) {
                let (cs2, mf2) = choose|cs2: Seq<u8>, mf2: Seq<u8>|
                    #![auto]
                    old(self).step_commit_id(hi as int, old(self).store_contents(), cs2, mf2) && (
                    old(self).parent_cs(old(self).builder_p1(hi as int)) == Some(cs2) || old(
                        self,
                    ).parent_cs(old(self).builder_p2(hi as int)) == Some(cs2));
                let files2 = choose|files2: Seq<Seq<u8>>| #[trigger] old(self).step_commit_with(
                    hi as int,
                    old(self).store_contents(),
                    cs2,
                    mf2,
                    files2,
                );
                old(self).lemma_step_commit_deterministic(
                    hi as int,
                    old(self).store_contents(),
                    cs2,
                    mf2,
                    files2,
                    cs_id@,
                    root_id@,
                    cview.files,
                );
                assert(false);
            }
        }
        let ghost pre_save = *self;
        match bc.save(&mut self.blobstore) {
            Ok(_) => (),
            Err(_) => {
                proof {
                    self.lemma_store_grew(&pre_save);
                }
                self.fail_builder(hi, ErrorKind::BackendUnavailable);
                return PollOutcome::Failed;
            },
        }
        proof {
            self.lemma_store_grew(&pre_save);
        }
        let ghost pre_fin = *self;
        let fin = self.builders[hi].uploader.finalize(&mut self.filenodes, &cs_id);
        match fin {
            Ok(_) => (),
            Err(e) => {
                proof {
                    assert(self.builders == pre_fin.builders);
                    assert(self.filenodes_map() == pre_fin.filenodes_map());
                    self.lemma_builders_stable_except(&pre_fin, -1);
                }
                self.fail_builder(hi, e);
                return PollOutcome::Failed;
            },
        }
        proof {
            crate::filenodes::lemma_add_fold_members(
                pre_fin.filenodes_map(),
                stamp_all(
                    crate::uploader::fresh_drafts(
                        pre_fin.builder_drafts(hi as int),
                        pre_fin.filenodes_map(),
                    ),
                    cs_id@,
                ),
                self.filenodes_map(),
            );
            assert(self.builders == pre_fin.builders);
            self.lemma_builders_stable_except(&pre_fin, -1);
        }
        let ghost pre_heads = *self;
        self.heads.add(&cs_id);
        proof {
            assert(self.builders == pre_heads.builders);
            self.lemma_builders_stable_except(&pre_heads, -1);
        }
        proof {
            assert(self.builders == pre_fin.builders);
            self.lemma_builders_stable_except(&pre_fin, hi as int);
            assert(self.builder_inv(hi as int)) by {
                assert(pre_fin.builder_inv(hi as int));
                assert(self.builders@[hi as int] == pre_fin.builders@[hi as int]);
                assert forall|j: int| 0 <= j < self.builder_seen(hi as int).len() implies self
                    .store_contents().contains_key(
                    node_key_view((#[trigger] self.builder_seen(hi as int)[j]).1),
                ) by {
                    assert(pre_fin.store_contents().contains_key(
                        node_key_view(pre_fin.builder_seen(hi as int)[j].1),
                    ));
                }
            }
        }
        let ghost pre_sig = *self;
        let ghost rootv = root_id@;
        let b = &mut self.builders[hi];
        b.can_be_parent = Some(Ok((cs_id.clone(), root_id)));
        proof {
            assert(old(self).step_commit_id(
                hi as int,
                old(self).store_contents(),
                cs_id@,
                rootv,
            ));
            assert(self.cbp_view(hi as int) == Some(Some((cs_id@, rootv))));
            assert(pre_heads.heads_view() == old(self).heads_view());
            assert(self.heads_view() == (if old(self).heads_view().contains(cs_id@) {
                old(self).heads_view()
            } else {
                old(self).heads_view().push(cs_id@)
            }));
            assert(pre_fin.filenodes_map() == old(self).filenodes_map());
            assert(pre_fin.builder_drafts(hi as int) == old(self).builder_drafts(hi as int));
            assert(crate::filenodes::add_fold(
                old(self).filenodes_map(),
                stamp_all(
                    crate::uploader::fresh_drafts(
                        old(self).builder_drafts(hi as int),
                        old(self).filenodes_map(),
                    ),
                    cs_id@,
                ),
            ) == Some(self.filenodes_map()));
            assert(old(self).step_commit_with(
                hi as int,
                old(self).store_contents(),
                cs_id@,
                rootv,
                cview.files,
            ));
            assert(self.store_contents() == old(self).store_contents().insert(
                blob_key_view(sha1_of(changeset_enc(cview))),
                changeset_enc(cview),
            ).insert(
                node_key_view(cs_id@),
                node_blob_enc(cview.p1, cview.p2, sha1_of(changeset_enc(cview))),
            ));
            assert(cview == old(self).step_content(hi as int, rootv, cview.files));
            assert(forall|j: int|
                0 <= j < self.num_builders() && j != hi ==> self.builders@[j] == pre_sig.builders@[
                    j]);
            self.lemma_builders_stable_except(&pre_sig, hi as int);
            assert(self.builder_inv(hi as int)) by {
                assert(pre_sig.builder_inv(hi as int));
                assert(self.builders@[hi as int].uploader == pre_sig.builders@[
                    hi as int].uploader);
                assert(self.builder_seen(hi as int) == pre_sig.builder_seen(hi as int));
                assert(self.builder_required(hi as int) == pre_sig.builder_required(hi as int));
                assert(self.builder_drafts(hi as int) == pre_sig.builder_drafts(hi as int));
                assert(self.builder_root_view(hi as int) == pre_sig.builder_root_view(hi as int));
                assert(self.builder_uploader_inv(hi as int) == pre_sig.builder_uploader_inv(
                    hi as int,
                ));
                assert(self.builder_p1(hi as int) == pre_sig.builder_p1(hi as int));
                assert(self.builder_p2(hi as int) == pre_sig.builder_p2(hi as int));
                assert(self.cbp_view(hi as int) == Some(Some((cs_id@, pre_fin.builders@[
                    hi as int].root_id.unwrap()@))));
                assert(self.comp_view(hi as int) is None);
                assert forall|j: int| 0 <= j < self.builder_seen(hi as int).len() implies self
                    .store_contents().contains_key(
                    node_key_view((#[trigger] self.builder_seen(hi as int)[j]).1),
                ) by {
                    assert(pre_sig.store_contents().contains_key(
                        node_key_view(pre_sig.builder_seen(hi as int)[j].1),
                    ));
                }
                assert(self.store_contents().contains_key(node_key_view(cs_id@)));
                assert forall|j: int| 0 <= j < self.builder_drafts(hi as int).len() implies self
                    .filenodes_map().contains_key(
                    ((#[trigger] self.builder_drafts(hi as int)[j]).path,
                    self.builder_drafts(hi as int)[j].node),
                ) by {
                    let d = self.builder_drafts(hi as int)[j];
                    let m0fn = pre_fin.filenodes_map();
                    let ds = pre_fin.builder_drafts(hi as int);
                    assert(ds[j] == d);
                    crate::uploader::lemma_fresh_drafts_member(ds, m0fn, j);
                    if m0fn.contains_key((d.path, d.node)) {
                        assert(self.filenodes_map().contains_key((d.path, d.node)));
                    } else {
                        let fresh = crate::uploader::fresh_drafts(ds, m0fn);
                        let fi = choose|fi: int| 0 <= fi < fresh.len() && fresh[fi] == d;
                        assert(stamp_all(fresh, cs_id@)[fi] == stamp(d, cs_id@));
                        assert(crate::filenodes::fn_key(stamp(d, cs_id@)) == (d.path, d.node));
                    }
                }
            }
        }
        PollOutcome::Complete
    }

    /// Run a commit's durability step: once both parents are fully durable,
    /// insert the changeset record and fire the completion signal.
    fn advance_complete(&mut self, h: ChangesetHandle) -> (r: PollOutcome)
        requires
            old(self).inv(),
            h.index < old(self).num_builders(),
            old(self).cbp_view(h.index as int) matches Some(Some(_)),
            old(self).comp_view(h.index as int) is None,
        ensures
            final(self).inv(),
            final(self).num_builders() == old(self).num_builders(),
            final(self).bookmarks_map() == old(self).bookmarks_map(),
            final(self).store_contents() == old(self).store_contents(),
            final(self).filenodes_map() == old(self).filenodes_map(),
            final(self).heads_view() == old(self).heads_view(),
            forall|k: Seq<u8>| old(self).changesets_map().contains_key(k)
                ==> #[trigger] final(self).changesets_map().contains_key(k)
                && final(self).changesets_map()[k] == old(self).changesets_map()[k],
            forall|j: int| 0 <= j < final(self).num_builders() && j != h.index
                ==> final(self).cbp_view(j) == old(self).cbp_view(j)
                && final(self).comp_view(j) == old(self).comp_view(j),
            final(self).cbp_view(h.index as int) == old(self).cbp_view(h.index as int),
            match r {
                PollOutcome::Pending => *final(self) == *old(self),
                PollOutcome::Complete => final(self).comp_view(h.index as int) matches Some(
                    Some(_),
                ),
                PollOutcome::Failed => final(self).comp_view(h.index as int) == Some(
                    None::<Seq<u8>>,
                ),
            },
            final(self).builder_p1(h.index as int) == old(self).builder_p1(h.index as int),
            final(self).builder_p2(h.index as int) == old(self).builder_p2(h.index as int),
            !(final(self).comp_err_view(h.index as int) matches Some(e) && e is CycleDetected),
            r == PollOutcome::Failed ==> final(self).changesets_map() == old(
                self,
            ).changesets_map(),
            old(self).some_parent_comp_failed(h.index as int) ==> r == PollOutcome::Failed && (
            final(self).comp_err_view(h.index as int) matches Some(e) && e is ParentsFailed),
            (final(self).comp_err_view(h.index as int) matches Some(e) && e is ParentsFailed)
                ==> old(self).some_parent_comp_failed(h.index as int),
            (!old(self).some_parent_comp_failed(h.index as int)
                && old(self).some_parent_comp_unset(h.index as int)) ==> r == PollOutcome::Pending,
            r == PollOutcome::Pending ==> old(self).some_parent_comp_unset(h.index as int),
            r == PollOutcome::Complete ==> (old(self).cbp_view(h.index as int) matches Some(
                Some(ids),
            ) && final(self).comp_view(h.index as int) == Some(Some(ids.0))
                && final(self).changesets_map() == crate::changesets::record_step(
                old(self).changesets_map(),
                ids.0,
                old(self).record_parent_ids(h.index as int),
            )),
            match old(self).cbp_view(h.index as int) {
                Some(Some(ids)) => (old(self).parents_complete_ok(h.index as int)
                    && (old(self).changesets_map().contains_key(ids.0)
                    ==> old(self).changesets_map()[ids.0].parents
                    == old(self).record_parent_ids(h.index as int))
                    && crate::changesets::max_parent_gen(
                    old(self).record_parent_ids(h.index as int),
                    old(self).changesets_map(),
                ) < u64::MAX) ==> r == PollOutcome::Complete,
                _ => true,
            },
    {
        let hi = h.index;
        proof {
            assert(old(self).builder_inv(hi as int));
        }
        let p1i = self.builders[hi].p1;
        let p2i = self.builders[hi].p2;
        let mut parent_ids: Vec<NodeId> = Vec::new();
        let mut any_err = false;
        let mut any_unset = false;
        match p1i {
            Some(pi) => {
                proof {
                    assert(self.builder_p1(hi as int) == Some(pi as int));
                    assert(self.builder_inv(pi as int));
                }
                match &self.builders[pi].completion {
                    None => {
                        any_unset = true;
                    },
                    Some(Err(_)) => {
                        any_err = true;
                    },
                    Some(Ok(cs)) => {
                        proof {
                            assert(self.comp_view(pi as int) == Some(Some(cs@)));
                            assert(self.changesets_map().contains_key(cs@));
                            assert(cs@.len() == 20) by {
                                match self.cbp_view(pi as int) {
                                    Some(Some(ids)) => {
                                        assert(ids.0 == cs@);
                                    },
                                    _ => (),
                                }
                            }
                        }
                        parent_ids.push(cs.clone());
                    },
                }
            },
            None => (),
        }
        match p2i {
            Some(pi) => {
                proof {
                    assert(self.builder_p2(hi as int) == Some(pi as int));
                    assert(self.builder_inv(pi as int));
                }
                match &self.builders[pi].completion {
                    None => {
                        any_unset = true;
                    },
                    Some(Err(_)) => {
                        any_err = true;
                    },
                    Some(Ok(cs)) => {
                        proof {
                            assert(self.comp_view(pi as int) == Some(Some(cs@)));
                            assert(self.changesets_map().contains_key(cs@));
                            assert(cs@.len() == 20) by {
                                match self.cbp_view(pi as int) {
                                    Some(Some(ids)) => {
                                        assert(ids.0 == cs@);
                                    },
                                    _ => (),
                                }
                            }
                        }
                        parent_ids.push(cs.clone());
                    },
                }
            },
            None => (),
        }
        proof {
            assert(any_err == old(self).some_parent_comp_failed(hi as int));
            assert(any_unset == old(self).some_parent_comp_unset(hi as int));
            if !any_err && !any_unset {
                assert(old(self).parents_complete_ok(hi as int));
                assert(crate::changeset::parent_ids_view(parent_ids@) =~= old(
                    self,
                ).record_parent_ids(hi as int));
                assert forall|j: int|
                    0 <= j < crate::changeset::parent_ids_view(parent_ids@).len() implies self
                    .changesets_map().contains_key(
                    #[trigger] crate::changeset::parent_ids_view(parent_ids@)[j],
                ) by {
                    assert(crate::changeset::parent_ids_view(parent_ids@)[j] == parent_ids@[j]@);
                }
            }
        }
        if any_err {
            self.fail_builder(hi, ErrorKind::ParentsFailed);
            return PollOutcome::Failed;
        }
        if any_unset {
            return PollOutcome::Pending;
        }
        let cs_id = match &self.builders[hi].can_be_parent {
            Some(Ok((cs, _))) => cs.clone(),
            _ => {
                proof {
                    assert(false);
                }
                vstd::pervasive::unreached()
            },
        };
        let insert = ChangesetInsert { cs_id: cs_id.clone(), parents: parent_ids };
        proof {
            assert(insert.parents_view() =~= old(self).record_parent_ids(hi as int));
            match old(self).cbp_view(hi as int) {
                Some(Some(ids)) => {
                    assert(ids.0 == insert.cs_id@);
                },
                _ => {
                    assert(false);
                },
            }
            assert(forall|j: int|
                0 <= j < insert.parents_view().len() ==> self.changesets_map().contains_key(
                    #[trigger] insert.parents_view()[j],
                ));
        }
        let ghost pre_add = *self;
        let res = self.changesets.add(&insert);
        match res {
            Ok(fresh) => {
                proof {
                    assert(self.builders == pre_add.builders);
                    self.lemma_builders_stable_except(&pre_add, -1);
                    let m0 = pre_add.changesets_map();
                    let k = insert.cs_id@;
                    let rp = old(self).record_parent_ids(hi as int);
                    if fresh {
                        assert(self.changesets_map() =~= crate::changesets::record_step(
                            m0,
                            k,
                            rp,
                        ));
                    } else {
                        assert(m0.contains_key(k) && m0[k].parents == insert.parents_view());
                        assert(m0[k].gen == 1 + crate::changesets::max_parent_gen(
                            m0[k].parents,
                            m0,
                        ));
                        assert(m0[k] == crate::changesets::CsRec {
                            parents: rp,
                            gen: (1 + crate::changesets::max_parent_gen(rp, m0)) as u64,
                        });
                        assert(self.changesets_map() =~= crate::changesets::record_step(
                            m0,
                            k,
                            rp,
                        ));
                    }
                }
                let ghost pre_sig = *self;
                let b = &mut self.builders[hi];
                b.completion = Some(Ok(cs_id));
                proof {
                    assert(forall|j: int|
                        0 <= j < self.num_builders() && j != hi ==> self.builders@[j]
                            == pre_sig.builders@[j]);
                    self.lemma_builders_stable_except(&pre_sig, hi as int);
                    assert(self.builder_inv(hi as int)) by {
                        assert(pre_sig.builder_inv(hi as int));
                        assert(self.builders@[hi as int].uploader == pre_sig.builders@[
                            hi as int].uploader);
                        assert(self.builder_seen(hi as int) == pre_sig.builder_seen(hi as int));
                        assert(self.builder_required(hi as int) == pre_sig.builder_required(
                            hi as int,
                        ));
                        assert(self.builder_drafts(hi as int) == pre_sig.builder_drafts(
                            hi as int,
                        ));
                        assert(self.builder_root_view(hi as int) == pre_sig.builder_root_view(
                            hi as int,
                        ));
                        assert(self.builder_uploader_inv(hi as int)
                            == pre_sig.builder_uploader_inv(hi as int));
                        assert(self.builder_p1(hi as int) == pre_sig.builder_p1(hi as int));
                        assert(self.builder_p2(hi as int) == pre_sig.builder_p2(hi as int));
                        assert(self.cbp_view(hi as int) == pre_sig.cbp_view(hi as int));
                        assert(self.comp_view(hi as int) == Some(Some(insert.cs_id@)));
                        assert(self.changesets_map().contains_key(insert.cs_id@));
                        assert forall|j: int|
                            0 <= j < self.builder_seen(hi as int).len() implies self
                            .store_contents().contains_key(
                            node_key_view((#[trigger] self.builder_seen(hi as int)[j]).1),
                        ) by {
                            assert(pre_sig.store_contents().contains_key(
                                node_key_view(pre_sig.builder_seen(hi as int)[j].1),
                            ));
                        }
                        match self.cbp_view(hi as int) {
                            Some(Some(ids)) => {
                                assert(pre_sig.store_contents().contains_key(
                                    node_key_view(ids.0),
                                ));
                                assert forall|j: int|
                                    0 <= j < self.builder_drafts(hi as int).len() implies self
                                    .filenodes_map().contains_key(
                                    ((#[trigger] self.builder_drafts(hi as int)[j]).path,
                                    self.builder_drafts(hi as int)[j].node),
                                ) by {
                                    let d = self.builder_drafts(hi as int)[j];
                                    assert(pre_sig.filenodes_map().contains_key(
                                        (d.path, d.node),
                                    ));
                                }
                            },
                            _ => (),
                        }
                    }
                }
                PollOutcome::Complete
            },
            Err(e) => {
                proof {
                    assert(self.builders == pre_add.builders);
                    self.lemma_builders_stable_except(&pre_add, -1);
                }
                self.fail_builder(hi, e);
                PollOutcome::Failed
            },
        }
    }

    /// Advance a commit as far as its parents' signals allow: run its
    /// commit step once both parents are usable, then its durability step
    /// once both parents are durable.
    pub fn poll_changeset(&mut self, h: ChangesetHandle) -> (r: PollOutcome)
        requires
            old(self).inv(),
            h.index < old(self).num_builders(),
        ensures
            final(self).inv(),
            final(self).num_builders() == old(self).num_builders(),
            final(self).bookmarks_map() == old(self).bookmarks_map(),
            forall|k: Seq<u8>| old(self).store_contents().contains_key(k)
                ==> #[trigger] final(self).store_contents().contains_key(k),
            forall|k: (Seq<u8>, Seq<u8>)| #[trigger] old(self).filenodes_map().contains_key(k)
                ==> final(self).filenodes_map().contains_key(k) && final(self).filenodes_map()[k]
                == old(self).filenodes_map()[k],
            forall|k: Seq<u8>| old(self).changesets_map().contains_key(k)
                ==> #[trigger] final(self).changesets_map().contains_key(k)
                && final(self).changesets_map()[k] == old(self).changesets_map()[k],
            forall|j: int| 0 <= j < final(self).num_builders() && j != h.index
                ==> final(self).cbp_view(j) == old(self).cbp_view(j)
                && final(self).comp_view(j) == old(self).comp_view(j),
            old(self).cbp_view(h.index as int) matches Some(x) ==> final(self).cbp_view(
                h.index as int,
            ) == Some(x),
            old(self).comp_view(h.index as int) matches Some(x) ==> final(self).comp_view(
                h.index as int,
            ) == Some(x),
            match r {
                PollOutcome::Pending => final(self).comp_view(h.index as int) is None,
                PollOutcome::Complete => final(self).comp_view(h.index as int) matches Some(
                    Some(_),
                ),
                PollOutcome::Failed => final(self).comp_view(h.index as int) == Some(
                    None::<Seq<u8>>,
                ),
            },
            (old(self).comp_view(h.index as int) is None && old(self).cbp_view(h.index as int)
                is None && old(self).some_parent_cbp_failed(h.index as int)) ==> r
                == PollOutcome::Failed && (final(self).comp_err_view(h.index as int) matches Some(
                e,
            ) && e is ParentsFailed),
            (old(self).comp_view(h.index as int) is None && old(self).cbp_view(h.index as int)
                is None && !old(self).some_parent_cbp_failed(h.index as int) && old(
                self,
            ).some_parent_cbp_unset(h.index as int)) ==> r == PollOutcome::Pending
                && *final(self) == *old(self),
            (old(self).comp_view(h.index as int) is None && (old(self).cbp_view(h.index as int)
                matches Some(Some(_))) && old(self).some_parent_comp_failed(h.index as int)) ==> r
                == PollOutcome::Failed && (final(self).comp_err_view(h.index as int) matches Some(
                e,
            ) && e is ParentsFailed),
            (old(self).comp_view(h.index as int) is None && (old(self).cbp_view(h.index as int)
                matches Some(Some(_))) && !old(self).some_parent_comp_failed(h.index as int)
                && old(self).some_parent_comp_unset(h.index as int)) ==> r == PollOutcome::Pending
                && *final(self) == *old(self),
            (old(self).comp_view(h.index as int) is None && (final(self).comp_err_view(
                h.index as int,
            ) matches Some(e) && e is ParentsFailed)) ==> old(self).some_parent_cbp_failed(
                h.index as int,
            ) || old(self).some_parent_comp_failed(h.index as int),
            r == PollOutcome::Pending ==> old(self).some_parent_cbp_unset(h.index as int) || old(
                self,
            ).some_parent_comp_unset(h.index as int),
            r == PollOutcome::Failed ==> final(self).changesets_map() == old(
                self,
            ).changesets_map(),
            (r == PollOutcome::Failed && final(self).cbp_view(h.index as int) == Some(
                None::<(Seq<u8>, Seq<u8>)>,
            )) ==> final(self).heads_view() == old(self).heads_view()
                && final(self).filenodes_map() == old(self).filenodes_map(),
            old(self).cbp_view(h.index as int) is None ==> (final(self).cbp_view(
                h.index as int,
            ) matches Some(Some(ids)) ==> {
                &&& old(self).step_commit_id(
                    h.index as int,
                    old(self).store_contents(),
                    ids.0,
                    ids.1,
                )
                &&& final(self).heads_view() == (if old(self).heads_view().contains(ids.0) {
                    old(self).heads_view()
                } else {
                    old(self).heads_view().push(ids.0)
                })
                &&& crate::filenodes::add_fold(
                    old(self).filenodes_map(),
                    stamp_all(
                        crate::uploader::fresh_drafts(
                            old(self).builder_drafts(h.index as int),
                            old(self).filenodes_map(),
                        ),
                        ids.0,
                    ),
                ) == Some(final(self).filenodes_map())
                &&& exists|files: Seq<Seq<u8>>|
                    #![auto]
                    old(self).step_commit_with(
                        h.index as int,
                        old(self).store_contents(),
                        ids.0,
                        ids.1,
                        files,
                    ) && final(self).store_contents() == old(self).store_contents().insert(
                        blob_key_view(
                            sha1_of(
                                changeset_enc(
                                    old(self).step_content(h.index as int, ids.1, files),
                                ),
                            ),
                        ),
                        changeset_enc(old(self).step_content(h.index as int, ids.1, files)),
                    ).insert(
                        node_key_view(ids.0),
                        node_blob_enc(
                            old(self).step_content(h.index as int, ids.1, files).p1,
                            old(self).step_content(h.index as int, ids.1, files).p2,
                            sha1_of(
                                changeset_enc(
                                    old(self).step_content(h.index as int, ids.1, files),
                                ),
                            ),
                        ),
                    )
            }),
            (r == PollOutcome::Complete && old(self).comp_view(h.index as int) is None) ==> (
            final(self).cbp_view(h.index as int) matches Some(Some(ids)) && final(self).comp_view(
                h.index as int,
            ) == Some(Some(ids.0)) && final(self).changesets_map()
                == crate::changesets::record_step(
                old(self).changesets_map(),
                ids.0,
                old(self).record_parent_ids(h.index as int),
            )),
            match old(self).cbp_view(h.index as int) {
                Some(Some(ids)) => (old(self).comp_view(h.index as int) is None && old(
                    self,
                ).parents_complete_ok(h.index as int)
                    && (old(self).changesets_map().contains_key(ids.0)
                    ==> old(self).changesets_map()[ids.0].parents
                    == old(self).record_parent_ids(h.index as int))
                    && crate::changesets::max_parent_gen(
                    old(self).record_parent_ids(h.index as int),
                    old(self).changesets_map(),
                ) < u64::MAX) ==> r == PollOutcome::Complete,
                _ => true,
            },
            (old(self).comp_view(h.index as int) is None && (final(self).comp_err_view(
                h.index as int,
            ) matches Some(e) && e is CycleDetected)) ==> old(self).step_self_loop(
                h.index as int,
                old(self).store_contents(),
            ),
            (old(self).comp_view(h.index as int) is None && old(self).cbp_view(h.index as int)
                is None && !old(self).some_parent_cbp_failed(h.index as int) && !old(
                self,
            ).some_parent_cbp_unset(h.index as int) && old(self).step_self_loop(
                h.index as int,
                old(self).store_contents(),
            )) ==> r == PollOutcome::Failed && (final(self).comp_err_view(h.index as int)
                matches Some(e) && (e is CycleDetected || e is BackendUnavailable)),
    {
        let hi = h.index;
        proof {
            assert(self.builder_inv(hi as int));
        }
        match &self.builders[hi].completion {
            Some(Ok(_)) => {
                return PollOutcome::Complete;
            },
            Some(Err(_)) => {
                return PollOutcome::Failed;
            },
            None => (),
        }
        let need_b = self.builders[hi].can_be_parent.is_none();
        let ghost mid0 = *old(self);
        if need_b {
            match self.advance_ready(h) {
                PollOutcome::Pending => {
                    return PollOutcome::Pending;
                },
                PollOutcome::Failed => {
                    return PollOutcome::Failed;
                },
                PollOutcome::Complete => (),
            }
        }
        proof {
            assert(self.builder_inv(hi as int));
        }
        let ghost mid = *self;
        proof {
            if !need_b {
                assert(mid == *old(self));
            }
            assert(mid.builder_p1(hi as int) == old(self).builder_p1(hi as int));
            assert(mid.builder_p2(hi as int) == old(self).builder_p2(hi as int));
            assert(old(self).builder_inv(hi as int));
            match old(self).builder_p1(hi as int) {
                Some(p) => {
                    assert(mid.comp_view(p) == old(self).comp_view(p));
                },
                None => (),
            }
            match old(self).builder_p2(hi as int) {
                Some(p) => {
                    assert(mid.comp_view(p) == old(self).comp_view(p));
                },
                None => (),
            }
            assert(mid.record_parent_ids(hi as int) == old(self).record_parent_ids(hi as int));
            assert(mid.some_parent_comp_failed(hi as int) == old(self).some_parent_comp_failed(
                hi as int,
            ));
            assert(mid.some_parent_comp_unset(hi as int) == old(self).some_parent_comp_unset(
                hi as int,
            ));
            assert(mid.parents_complete_ok(hi as int) == old(self).parents_complete_ok(
                hi as int,
            ));
            assert(mid.changesets_map() == old(self).changesets_map());
        }
        let r = self.advance_complete(h);
        proof {
            assert forall|k: Seq<u8>| old(self).store_contents().contains_key(k) implies
                #[trigger] final(self).store_contents().contains_key(k) by {
                assert(mid.store_contents().contains_key(k));
            }
            assert forall|k: (Seq<u8>, Seq<u8>)| #[trigger] old(
                self,
            ).filenodes_map().contains_key(k) implies final(self).filenodes_map().contains_key(k)
                && final(self).filenodes_map()[k] == old(self).filenodes_map()[k] by {
                assert(mid.filenodes_map().contains_key(k));
                assert(mid.filenodes_map()[k] == old(self).filenodes_map()[k]);
            }
        }
        r
    }

    /// A breadth-first stream over the commit graph, seeded from the heads.
    ///
    /// The stream starts fresh: nothing visited, the seeds exactly the
    /// heads, and the walk invariants holding for every store.
    pub fn get_changesets(&self) -> (r: crate::stream::BlobChangesetStream)
        requires
            self.inv(),
        ensures
            r.wf(),
            r.seen_view() =~= Seq::<Seq<u8>>::empty(),
            r.frontier_view() == self.heads_view(),
            r.roots_view() == self.heads_view(),
            forall|store: Map<Seq<u8>, Seq<u8>>| #[trigger] r.sound_for(store),
            forall|store: Map<Seq<u8>, Seq<u8>>| #[trigger] r.complete_for(store),
    {
        let heads = self.heads.heads();
        let r = crate::stream::BlobChangesetStream::new(heads);
        proof {
            assert(r.frontier_view() =~= self.heads_view());
        }
        r
    }

    /// The root manifest entry stored under `manifestid`, rebuilt from the
    /// store: its node record supplies the parents, its blob the content.
    ///
    /// Absence of the node record surfaces as `ManifestMissing`; a broken
    /// chain behind a present record as `SerializationFailed`; a backend
    /// fault as `BackendUnavailable`; nothing else.
    pub fn get_root_entry(&self, manifestid: &NodeId) -> (r: Result<BlobEntry, ErrorKind>)
        ensures
            match r {
                Ok(entry) => {
                    &&& entry.wf()
                    &&& entry.ty == EntryType::Tree
                    &&& entry.path@.len() == 0
                    &&& content_of_node(self.store_contents(), manifestid@) == Some(entry.content@)
                },
                Err(e) => match e {
                    ErrorKind::ManifestMissing(n) => n@ == manifestid@
                        && !self.store_contents().contains_key(node_key_view(manifestid@)),
                    ErrorKind::SerializationFailed => self.store_contents().contains_key(
                        node_key_view(manifestid@),
                    ) && content_of_node(self.store_contents(), manifestid@) is None,
                    ErrorKind::BackendUnavailable => true,
                    _ => false,
                },
            },
    {
        let node_key = get_node_key(manifestid);
        let record_bytes = match self.blobstore.get(&node_key) {
            Ok(Some(b)) => b,
            Ok(None) => {
                return Err(ErrorKind::ManifestMissing(manifestid.clone()));
            },
            Err(_) => {
                return Err(ErrorKind::BackendUnavailable);
            },
        };
        let record = match NodeBlob::decode(record_bytes.as_bytes()) {
            Some(nb) => nb,
            None => {
                return Err(ErrorKind::SerializationFailed);
            },
        };
        let blob_key = get_blob_key(&record.blob);
        let blob = match self.blobstore.get(&blob_key) {
            Ok(Some(b)) => b,
            Ok(None) => {
                return Err(ErrorKind::SerializationFailed);
            },
            Err(_) => {
                return Err(ErrorKind::BackendUnavailable);
            },
        };
        Ok(
            BlobEntry {
                path: Vec::new(),
                ty: EntryType::Tree,
                parents: record.parents,
                content: blob.into_bytes(),
                copyfrom: None,
            },
        )
    }

    /// Every commit that became durable through a handle is visible with
    /// all its supporting state: its record is in the changesets index,
    /// records exist for all its parents, its generation obeys the
    /// generation law, its commit blob's node record is in the blobstore,
    /// every entry its uploader saw has its node record in the blobstore,
    /// every child referenced by an uploaded tree was itself uploaded, and
    /// every staged filenode is stored, stamped with the commit's id.
    pub proof fn lemma_commit_visibility(&self, i: int)
        requires
            self.inv(),
            0 <= i < self.num_builders(),
            self.comp_view(i) matches Some(Some(_)),
        ensures
            self.comp_view(i) matches Some(Some(cs)) ==> {
                &&& self.changesets_map().contains_key(cs)
                &&& forall|j: int| 0 <= j < self.changesets_map()[cs].parents.len()
                    ==> self.changesets_map().contains_key(
                    #[trigger] self.changesets_map()[cs].parents[j],
                )
                &&& self.changesets_map()[cs].gen == 1 + crate::changesets::max_parent_gen(
                    self.changesets_map()[cs].parents,
                    self.changesets_map(),
                )
                &&& self.store_contents().contains_key(node_key_view(cs))
                &&& (self.cbp_view(i) matches Some(Some(ids))
                    && self.store_contents().contains_key(node_key_view(ids.1)))
                &&& forall|j: int| 0 <= j < self.builder_seen(i).len()
                    ==> self.store_contents().contains_key(
                    node_key_view((#[trigger] self.builder_seen(i)[j]).1),
                )
                &&& forall|j: int| 0 <= j < self.builder_required(i).len()
                    ==> self.builder_seen(i).contains(#[trigger] self.builder_required(i)[j])
                &&& forall|j: int| 0 <= j < self.builder_drafts(i).len()
                    ==> self.filenodes_map().contains_key(
                    ((#[trigger] self.builder_drafts(i)[j]).path,
                    self.builder_drafts(i)[j].node),
                )
            },
    {
        assert(self.builder_inv(i));
        match self.comp_view(i) {
            Some(Some(cs)) => {
                match self.cbp_view(i) {
                    Some(Some(ids)) => {
                        assert(ids.0 == cs);
                        assert(self.builder_root_view(i) == Some(ids.1));
                        assert(self.builder_uploader_inv(i));
                        let j = choose|j: int|
                            0 <= j < self.builders@[i].uploader.seen_view().len() && (
                            #[trigger] self.builders@[i].uploader.seen_view()[j]).1 == ids.1;
                        assert(self.builder_seen(i)[j].1 == ids.1);
                        assert(self.store_contents().contains_key(node_key_view(ids.1)));
                    },
                    _ => (),
                }
                assert(self.changesets_map().contains_key(cs));
            },
            _ => (),
        }
    }

    /// The "usable as a parent" signal of a handle.
    pub fn can_be_parent(&self, h: ChangesetHandle) -> (r: Option<
        Result<(NodeId, NodeId), ErrorKind>,
    >)
        requires
            self.inv(),
            h.index < self.num_builders(),
        ensures
            match r {
                None => self.cbp_view(h.index as int) is None,
                Some(Ok((cs, mf))) => self.cbp_view(h.index as int) == Some(Some((cs@, mf@)))
                    && cs.wf() && mf.wf(),
                Some(Err(_)) => self.cbp_view(h.index as int) == Some(None::<(Seq<u8>, Seq<u8>)>),
            },
    {
        proof {
            assert(self.builder_inv(h.index as int));
        }
        match &self.builders[h.index].can_be_parent {
            None => None,
            Some(Ok((cs, mf))) => Some(Ok((cs.clone(), mf.clone()))),
            Some(Err(e)) => Some(Err(e.clone())),
        }
    }

    /// The "fully durable" signal of a handle.
    pub fn completion(&self, h: ChangesetHandle) -> (r: Option<Result<NodeId, ErrorKind>>)
        requires
            self.inv(),
            h.index < self.num_builders(),
        ensures
            match r {
                None => self.comp_view(h.index as int) is None,
                Some(Ok(cs)) => self.comp_view(h.index as int) == Some(Some(cs@))
                    && self.changesets_map().contains_key(cs@),
                Some(Err(_)) => self.comp_view(h.index as int) == Some(None::<Seq<u8>>),
            },
    {
        proof {
            assert(self.builder_inv(h.index as int));
        }
        match &self.builders[h.index].completion {
            None => None,
            Some(Ok(cs)) => Some(Ok(cs.clone())),
            Some(Err(e)) => Some(Err(e.clone())),
        }
    }
}

} // verus!
