//! Importing commits wholesale into a blobstore.
//!
//! An import copies a changeset blob, its root manifest, and the manifest's
//! entries into the store, deduplicating entries that were already copied.
//! Reading the source revision log is the caller's business; the functions
//! here take the decoded values.

use vstd::prelude::*;

use crate::blobstore::{Blobstore, BlobstoreBytes};
use crate::changeset::{changeset_enc, BlobChangeset, ChangesetContent};
use crate::codec::{node_blob_enc, NodeBlob};
use crate::errors::ErrorKind;
use crate::hash::{
    blob_key_view, get_blob_key, get_node_key, node_key_view, nodeid_of, sha1_of, NodeId, Parents,
};
use crate::uploader::BlobEntry;

verus! {

pub fn _assert_clone<T: Clone>(_t: &T) {
}

pub fn _assert_send<T: Send>(_t: &T) {
}

pub fn _assert_static<T: 'static>(_t: &T) {
}

pub fn _assert_blobstore<T: Blobstore>(_t: &T) {
}

/// Copy a single manifest entry into the blobstore: the content blob under
/// its digest key, then the raw node record under the entry's node key.
pub fn copy_manifest_entry<B: Blobstore>(entry: &BlobEntry, blobstore: &mut B) -> (r: Result<
    NodeId,
    ErrorKind,
>)
    requires
        entry.wf(),
    ensures
        match r {
            Ok(node) => {
                &&& node.wf()
                &&& node@ == nodeid_of(entry.parents@.0, entry.parents@.1, entry.content@)
                &&& final(blobstore).contents() == old(blobstore).contents().insert(
                    blob_key_view(sha1_of(entry.content@)),
                    entry.content@,
                ).insert(
                    node_key_view(node@),
                    node_blob_enc(entry.parents@.0, entry.parents@.1, sha1_of(entry.content@)),
                )
            },
            Err(_) => final(blobstore).contents() == old(blobstore).contents()
                || final(blobstore).contents() == old(blobstore).contents().insert(
                blob_key_view(sha1_of(entry.content@)),
                entry.content@,
            ),
        },
{
    let node = crate::hash::compute_nodeid(&entry.parents.p1, &entry.parents.p2, &entry.content);
    let sha = crate::hash::sha1_digest(&entry.content);
    let blob_key = get_blob_key(&sha);
    let content_copy = crate::codec::subvec(&entry.content, 0, entry.content.len());
    proof {
        assert(content_copy@ =~= entry.content@);
    }
    match blobstore.put(blob_key, BlobstoreBytes::from_bytes(content_copy)) {
        Ok(_) => (),
        Err(e) => {
            return Err(e);
        },
    }
    let record = NodeBlob::new(
        Parents::new(
            crate::hash::clone_opt_id(&entry.parents.p1),
            crate::hash::clone_opt_id(&entry.parents.p2),
        ),
        sha,
    );
    let node_key = get_node_key(&node);
    match blobstore.put(node_key, BlobstoreBytes::from_bytes(record.encode())) {
        Ok(_) => Ok(node),
        Err(e) => Err(e),
    }
}

/// Copy a changeset and its root manifest into the blobstore.
///
/// The changeset blob is written under its computed node key, the root
/// manifest entry like any other entry. The caller copies the remaining
/// entries afterwards. On failure the store holds a prefix of the four
/// writes, in order — the changeset's content blob and node record, then
/// the root manifest's content blob — so whether the changeset's own keys
/// landed can be read off the result.
pub fn copy_changeset<B: Blobstore>(
    blobstore: &mut B,
    cs: ChangesetContent,
    root_manifest: &BlobEntry,
) -> (r: Result<NodeId, ErrorKind>)
    requires
        cs.wf(),
        root_manifest.wf(),
    ensures
        match r {
            Ok(csid) => {
                &&& csid.wf()
                &&& csid@ == crate::changeset::cs_id_of(cs@)
                &&& final(blobstore).contents().contains_key(node_key_view(csid@))
                &&& final(blobstore).contents().contains_key(
                    blob_key_view(sha1_of(changeset_enc(cs@))),
                )
                &&& final(blobstore).contents().contains_key(
                    blob_key_view(sha1_of(root_manifest.content@)),
                )
                &&& final(blobstore).contents().contains_key(
                    node_key_view(
                        nodeid_of(
                            root_manifest.parents@.0,
                            root_manifest.parents@.1,
                            root_manifest.content@,
                        ),
                    ),
                )
                &&& forall|k: Seq<u8>| old(blobstore).contents().contains_key(k)
                    ==> #[trigger] final(blobstore).contents().contains_key(k)
            },
            Err(_) => {
                let m0 = old(blobstore).contents();
                let m1 = m0.insert(
                    blob_key_view(sha1_of(changeset_enc(cs@))),
                    changeset_enc(cs@),
                );
                let m2 = m1.insert(
                    node_key_view(crate::changeset::cs_id_of(cs@)),
                    crate::codec::node_blob_enc(cs@.p1, cs@.p2, sha1_of(changeset_enc(cs@))),
                );
                let m3 = m2.insert(
                    blob_key_view(sha1_of(root_manifest.content@)),
                    root_manifest.content@,
                );
                ||| final(blobstore).contents() == m0
                ||| final(blobstore).contents() == m1
                ||| final(blobstore).contents() == m2
                ||| final(blobstore).contents() == m3
            },
        },
{
    let ghost cs_view = cs@;
    let bc = BlobChangeset::new(cs);
    let csid = bc.get_changeset_id();
    match bc.save(blobstore) {
        Ok(_) => (),
        Err(e) => {
            return Err(e);
        },
    }
    let ghost mid = blobstore.contents();
    match copy_manifest_entry(root_manifest, blobstore) {
        Ok(_) => (),
        Err(e) => {
            return Err(e);
        },
    }
    proof {
        assert(mid.contains_key(node_key_view(csid@)));
        assert(mid.contains_key(blob_key_view(sha1_of(changeset_enc(cs_view)))));
    }
    Ok(csid)
}

/// Record a batch of imported heads: afterwards every given id is tracked,
/// alongside whatever heads were tracked before; re-adding changes nothing.
pub fn import_heads(heads: &mut crate::heads::Heads, ids: &Vec<NodeId>)
    requires
        old(heads).wf(),
        forall|i: int| 0 <= i < ids@.len() ==> (#[trigger] ids@[i]).wf(),
    ensures
        final(heads).wf(),
        forall|i: int| 0 <= i < ids@.len() ==> final(heads)@.contains((#[trigger] ids@[i])@),
        forall|x: Seq<u8>| old(heads)@.contains(x) ==> final(heads)@.contains(x),
{
    let mut i: usize = 0;
    while i < ids.len()
        invariant
            i <= ids@.len(),
            heads.wf(),
            forall|j: int| 0 <= j < ids@.len() ==> (#[trigger] ids@[j]).wf(),
            forall|j: int| 0 <= j < i ==> heads@.contains((#[trigger] ids@[j])@),
            forall|x: Seq<u8>| old(heads)@.contains(x) ==> heads@.contains(x),
        decreases ids@.len() - i,
    {
        let ghost pre = heads@;
        heads.add(&ids[i]);
        proof {
            assert forall|x: Seq<u8>| pre.contains(x) implies heads@.contains(x) by {
                if !pre.contains(ids@[i as int]@) {
                    let m = choose|m: int| 0 <= m < pre.len() && pre[m] == x;
                    assert(heads@[m] == x);
                }
            }
            assert(heads@.contains(ids@[i as int]@)) by {
                if pre.contains(ids@[i as int]@) {
                } else {
                    assert(heads@[heads@.len() - 1] == ids@[i as int]@);
                }
            }
            assert forall|j: int| 0 <= j < i + 1 implies heads@.contains((
            #[trigger] ids@[j])@) by {
                if j < i {
                    let m = choose|m: int| 0 <= m < pre.len() && pre[m] == ids@[j]@;
                    if !pre.contains(ids@[i as int]@) {
                        assert(heads@[m] == pre[m]);
                    }
                }
            }
        }
        i = i + 1;
    }
}

/// The nodes of the tree rows of a listing, in row order: the manifests a
/// tree refers to, which an import must fetch in turn.
pub open spec fn tree_children(
    items: Seq<(Seq<u8>, Seq<u8>, crate::manifest::EntryType)>,
) -> Seq<Seq<u8>>
    decreases items.len(),
{
    if items.len() == 0 {
        Seq::empty()
    } else {
        let rest = tree_children(items.drop_last());
        if items.last().2 == crate::manifest::EntryType::Tree {
            rest.push(items.last().1)
        } else {
            rest
        }
    }
}

/// The rows of a fetched listing, as views.
pub open spec fn listing_items(rows: Seq<crate::manifest::ManifestEntry>) -> Seq<
    (Seq<u8>, Seq<u8>, crate::manifest::EntryType),
> {
    Seq::new(rows.len(), |i: int| rows[i].view_item())
}

/// One step of the depth-first expansion of nested manifests that an
/// import performs: push the tree children of the listing just fetched,
/// then pop the next manifest node to fetch. The pushed nodes are exactly
/// the listing's tree rows, in order; `None` ends the walk with an empty
/// stack. The caller fetches each handed-out node's listing from the
/// source repository and feeds it to the next step.
pub fn traversal_step(
    stack: &mut Vec<NodeId>,
    listing: &Vec<crate::manifest::ManifestEntry>,
) -> (r: Option<NodeId>)
    requires
        forall|i: int| 0 <= i < listing@.len() ==> (#[trigger] listing@[i]).wf(),
        forall|i: int| 0 <= i < old(stack)@.len() ==> (#[trigger] old(stack)@[i]).wf(),
    ensures
        forall|i: int| 0 <= i < final(stack)@.len() ==> (#[trigger] final(stack)@[i]).wf(),
        ({
            let mid = crate::changeset::parent_ids_view(old(stack)@) + tree_children(
                listing_items(listing@),
            );
            match r {
                Some(n) => n.wf() && mid.len() > 0 && n@ == mid.last()
                    && crate::changeset::parent_ids_view(final(stack)@) == mid.drop_last(),
                None => mid.len() == 0 && final(stack)@.len() == 0,
            }
        }),
{
    let ghost pre = crate::changeset::parent_ids_view(stack@);
    let ghost items = listing_items(listing@);
    let mut i: usize = 0;
    proof {
        assert(items.take(0) =~= Seq::<(Seq<u8>, Seq<u8>, crate::manifest::EntryType)>::empty());
        assert(crate::changeset::parent_ids_view(stack@) =~= pre + tree_children(items.take(0)));
    }
    while i < listing.len()
        invariant
            i <= listing@.len(),
            items == listing_items(listing@),
            forall|j: int| 0 <= j < listing@.len() ==> (#[trigger] listing@[j]).wf(),
            forall|j: int| 0 <= j < stack@.len() ==> (#[trigger] stack@[j]).wf(),
            crate::changeset::parent_ids_view(stack@) == pre + tree_children(
                items.take(i as int),
            ),
        decreases listing@.len() - i,
    {
        proof {
            assert(items.take(i as int + 1).drop_last() =~= items.take(i as int));
            assert(items.take(i as int + 1).last() == items[i as int]);
        }
        let is_tree = match listing[i].ty {
            crate::manifest::EntryType::Tree => true,
            _ => false,
        };
        if is_tree {
            let ghost before = crate::changeset::parent_ids_view(stack@);
            stack.push(listing[i].node.clone());
            proof {
                assert(crate::changeset::parent_ids_view(stack@) =~= before.push(
                    items[i as int].1,
                ));
                assert(crate::changeset::parent_ids_view(stack@) =~= pre + tree_children(
                    items.take(i as int + 1),
                ));
            }
        }
        i = i + 1;
    }
    proof {
        assert(items.take(items.len() as int) =~= items);
    }
    let ghost mid = pre + tree_children(items);
    let r = stack.pop();
    proof {
        match &r {
            Some(n) => {
                assert(crate::changeset::parent_ids_view(stack@) =~= mid.drop_last());
                assert(n@ == mid.last());
            },
            None => {
                assert(mid.len() == 0);
            },
        }
    }
    r
}

/// Copy a batch of manifest entries, skipping ones already copied in this
/// run: the dedup key is the entry's path together with its computed node.
///
/// On success the store holds the content blob and node record of every
/// entry of the batch.
pub fn convert_entries<B: Blobstore>(blobstore: &mut B, entries: &Vec<BlobEntry>) -> (r: Result<
    usize,
    ErrorKind,
>)
    requires
        forall|i: int| 0 <= i < entries@.len() ==> (#[trigger] entries@[i]).wf(),
    ensures
        forall|k: Seq<u8>| old(blobstore).contents().contains_key(k)
            ==> #[trigger] final(blobstore).contents().contains_key(k),
        match r {
            Ok(copied) => {
                &&& copied <= entries@.len()
                &&& forall|i: int| 0 <= i < entries@.len()
                    ==> final(blobstore).contents().contains_key(
                    node_key_view(
                        nodeid_of(
                            (#[trigger] entries@[i]).parents@.0,
                            entries@[i].parents@.1,
                            entries@[i].content@,
                        ),
                    ),
                ) && final(blobstore).contents().contains_key(
                    blob_key_view(sha1_of(entries@[i].content@)),
                )
            },
            Err(_) => true,
        },
{
    let mut seen: Vec<(Vec<u8>, NodeId)> = Vec::new();
    let mut copied: usize = 0;
    let mut i: usize = 0;
    while i < entries.len()
        invariant
            i <= entries@.len(),
            copied <= i,
            forall|j: int| 0 <= j < entries@.len() ==> (#[trigger] entries@[j]).wf(),
            forall|k: Seq<u8>| old(blobstore).contents().contains_key(k)
                ==> #[trigger] blobstore.contents().contains_key(k),
            forall|j: int| 0 <= j < i ==> blobstore.contents().contains_key(
                node_key_view(
                    nodeid_of(
                        (#[trigger] entries@[j]).parents@.0,
                        entries@[j].parents@.1,
                        entries@[j].content@,
                    ),
                ),
            ) && blobstore.contents().contains_key(blob_key_view(sha1_of(entries@[j].content@))),
            forall|m: int| 0 <= m < seen@.len() ==> blobstore.contents().contains_key(
                node_key_view((#[trigger] seen@[m]).1@),
            ),
            forall|j: int| 0 <= j < i ==> (exists|m: int|
                0 <= m < seen@.len() && (#[trigger] seen@[m]).0@ == (
                #[trigger] entries@[j]).path@ && seen@[m].1@ == nodeid_of(
                    entries@[j].parents@.0,
                    entries@[j].parents@.1,
                    entries@[j].content@,
                )),
        decreases entries@.len() - i,
    {
        let e = &entries[i];
        let node = crate::hash::compute_nodeid(&e.parents.p1, &e.parents.p2, &e.content);
        let mut dup = false;
        let mut m: usize = 0;
        while m < seen.len()
            invariant
                m <= seen@.len(),
                i < entries@.len(),
                node@ == nodeid_of(e.parents@.0, e.parents@.1, e.content@),
                dup ==> exists|q: int|
                    0 <= q < seen@.len() && (#[trigger] seen@[q]).0@ == e.path@ && seen@[q].1@
                        == node@,
            decreases seen@.len() - m,
        {
            if !dup {
                let same_path = seen[m].0 == e.path;
                let same_node = &seen[m].1 == &node;
                proof {
                    if seen@[m as int].0@ =~= e.path@ {
                    }
                }
                if same_path && same_node {
                    dup = true;
                    proof {
                        assert((seen@[m as int]).0@ == e.path@ && seen@[m as int].1@ == node@);
                    }
                }
            }
            m = m + 1;
        }
        if dup {
            proof {
                let q = choose|q: int|
                    0 <= q < seen@.len() && (#[trigger] seen@[q]).0@ == e.path@ && seen@[q].1@
                        == node@;
                assert(blobstore.contents().contains_key(node_key_view(node@)));
            }
            // An identical entry was copied earlier in this run; only the
            // content blob is re-put, an idempotent content-addressed write.
            let sha = crate::hash::sha1_digest(&e.content);
            let blob_key = get_blob_key(&sha);
            match blobstore.put(
                blob_key,
                BlobstoreBytes::from_bytes(crate::codec::subvec(&e.content, 0, e.content.len())),
            ) {
                Ok(_) => (),
                Err(err) => {
                    return Err(err);
                },
            }
            proof {
                assert(e.content@.subrange(0, e.content@.len() as int) =~= e.content@);
                assert forall|j: int| 0 <= j < i + 1 implies (exists|m2: int|
                    0 <= m2 < seen@.len() && (#[trigger] seen@[m2]).0@ == (
                    #[trigger] entries@[j]).path@ && seen@[m2].1@ == nodeid_of(
                        entries@[j].parents@.0,
                        entries@[j].parents@.1,
                        entries@[j].content@,
                    )) by {
                    if j == i {
                        let q = choose|q: int|
                            0 <= q < seen@.len() && (#[trigger] seen@[q]).0@ == e.path@
                                && seen@[q].1@ == node@;
                        assert(seen@[q].0@ == entries@[j].path@ && seen@[q].1@ == nodeid_of(
                            entries@[j].parents@.0,
                            entries@[j].parents@.1,
                            entries@[j].content@,
                        ));
                    }
                }
            }
        } else {
            match copy_manifest_entry(e, blobstore) {
                Ok(_) => (),
                Err(err) => {
                    return Err(err);
                },
            }
            copied = copied + 1;
            let path_copy = crate::codec::subvec(&e.path, 0, e.path.len());
            proof {
                assert(path_copy@ =~= e.path@);
            }
            let ghost pre_seen = seen@;
            seen.push((path_copy, node));
            proof {
                assert forall|j: int| 0 <= j < i + 1 implies (exists|m2: int|
                    0 <= m2 < seen@.len() && (#[trigger] seen@[m2]).0@ == (
                    #[trigger] entries@[j]).path@ && seen@[m2].1@ == nodeid_of(
                        entries@[j].parents@.0,
                        entries@[j].parents@.1,
                        entries@[j].content@,
                    )) by {
                    if j < i {
                        let m2 = choose|m2: int|
                            0 <= m2 < pre_seen.len() && (#[trigger] pre_seen[m2]).0@ == (
                            #[trigger] entries@[j]).path@ && pre_seen[m2].1@ == nodeid_of(
                                entries@[j].parents@.0,
                                entries@[j].parents@.1,
                                entries@[j].content@,
                            );
                        assert(seen@[m2] == pre_seen[m2]);
                    } else {
                        let last = seen@.len() - 1;
                        assert(seen@[last].0@ == entries@[j].path@ && seen@[last].1@ == nodeid_of(
                            entries@[j].parents@.0,
                            entries@[j].parents@.1,
                            entries@[j].content@,
                        ));
                    }
                }
            }
        }
        i = i + 1;
    }
    Ok(copied)
}

} // verus!
