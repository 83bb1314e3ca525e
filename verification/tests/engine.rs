//! End-to-end commit construction through the repository engine.

use blobrepo::blobstore::{Blobstore, EagerMemblob, FailingBlobstore};
use blobrepo::bookmarks::Bookmarks;
use blobrepo::changesets::Changesets;
use blobrepo::errors::ErrorKind;
use blobrepo::filenodes::Filenodes;
use blobrepo::hash::{compute_nodeid, NodeId, Parents};
use blobrepo::heads::Heads;
use blobrepo::manifest::{BlobManifest, EntryType, ManifestEntry};
use blobrepo::repo::{BlobRepo, ChangesetHandle, PollOutcome};
use blobrepo::uploader::BlobEntry;

fn file_entry(path: &[u8], content: &[u8]) -> (NodeId, BlobEntry) {
    let node = compute_nodeid(&None, &None, &content.to_vec());
    let entry = BlobEntry {
        path: path.to_vec(),
        ty: EntryType::File,
        parents: Parents::new(None, None),
        content: content.to_vec(),
        copyfrom: None,
    };
    (node, entry)
}

fn tree_entry(rows: Vec<ManifestEntry>) -> (NodeId, BlobEntry) {
    let content = BlobManifest::from_entries(rows).encode();
    let node = compute_nodeid(&None, &None, &content);
    let entry = BlobEntry {
        path: Vec::new(),
        ty: EntryType::Tree,
        parents: Parents::new(None, None),
        content,
        copyfrom: None,
    };
    (node, entry)
}

fn completed_id(repo: &BlobRepo<EagerMemblob>, h: ChangesetHandle) -> NodeId {
    match repo.completion(h) {
        Some(Ok(cs)) => cs,
        other => panic!("commit did not complete: {:?}", other.is_some()),
    }
}

fn commit_one_file(
    repo: &mut BlobRepo<EagerMemblob>,
    p1: Option<ChangesetHandle>,
    path: &[u8],
    content: &[u8],
) -> ChangesetHandle {
    let (fnode, fentry) = file_entry(path, content);
    let (_, mentry) = tree_entry(vec![ManifestEntry {
        path: path.to_vec(),
        node: fnode,
        ty: EntryType::File,
    }]);
    repo.create_changeset(
        p1,
        None,
        mentry,
        vec![fentry],
        b"tester".to_vec(),
        0,
        vec![],
        b"msg".to_vec(),
    )
}

#[test]
fn single_root_commit() {
    let mut repo = BlobRepo::new_memblob_empty(None);
    let (fnode, fentry) = file_entry(b"README", b"hello");
    let (_, mentry) = tree_entry(vec![ManifestEntry {
        path: b"README".to_vec(),
        node: fnode.clone(),
        ty: EntryType::File,
    }]);
    let h = repo.create_changeset(
        None,
        None,
        mentry,
        vec![fentry],
        b"alice".to_vec(),
        42,
        vec![],
        b"initial import".to_vec(),
    );
    assert_eq!(repo.poll_changeset(h), PollOutcome::Complete);
    let cs = completed_id(&repo, h);

    // The content blob sits under the well-known digest of "hello".
    let key = b"sha1-aaf4c61ddcc5e8a2dabede0f3b482cd9aea9434d".to_vec();
    let blob = repo.blobstore().get(&key).unwrap().expect("content blob present");
    assert_eq!(blob.into_bytes(), b"hello".to_vec());
    assert_eq!(repo.get_file_content(&fnode).unwrap(), b"hello".to_vec());

    // One head, one record, generation one.
    let heads = repo.get_heads();
    assert_eq!(heads.len(), 1);
    assert_eq!(heads[0].as_bytes(), cs.as_bytes());
    assert!(repo.changeset_exists(&cs));
    assert_eq!(repo.get_generation_number(&cs), Some(1));
    let record = repo.get_changeset_record(&cs).unwrap();
    assert_eq!(record.parents.len(), 0);

    // The filenode carries empty parents and the commit as linknode.
    let parents = repo.get_parents(&b"README".to_vec(), &fnode).unwrap();
    assert!(parents.p1.is_none() && parents.p2.is_none());
    let link = repo.get_linknode(&b"README".to_vec(), &fnode).unwrap();
    assert_eq!(link.as_bytes(), cs.as_bytes());
    assert_eq!(repo.get_file_copy(&b"README".to_vec(), &fnode).unwrap(), None);

    // The stored commit blob decodes back to what was committed.
    let bc = repo.get_changeset_by_changesetid(&cs).unwrap();
    assert_eq!(bc.content().user, b"alice".to_vec());
    assert_eq!(bc.content().time, 42);
    assert_eq!(bc.content().files, vec![b"README".to_vec()]);
    assert_eq!(bc.content().comments, b"initial import".to_vec());
}

#[test]
fn linear_chain_pipelines_and_orders_records() {
    let mut repo = BlobRepo::new_memblob_empty(None);
    // All three commits are started before any polling.
    let h1 = commit_one_file(&mut repo, None, b"one", b"1\n");
    let h2 = commit_one_file(&mut repo, Some(h1), b"two", b"2\n");
    let h3 = commit_one_file(&mut repo, Some(h2), b"three", b"3\n");

    // Children block until their parent's signals fire.
    assert_eq!(repo.poll_changeset(h3), PollOutcome::Pending);
    assert_eq!(repo.poll_changeset(h2), PollOutcome::Pending);
    assert!(repo.completion(h2).is_none());

    assert_eq!(repo.poll_changeset(h1), PollOutcome::Complete);
    let c1 = completed_id(&repo, h1);
    // C2's record is not inserted before C1's.
    assert_eq!(repo.poll_changeset(h3), PollOutcome::Pending);
    assert_eq!(repo.poll_changeset(h2), PollOutcome::Complete);
    assert_eq!(repo.poll_changeset(h3), PollOutcome::Complete);
    let c2 = completed_id(&repo, h2);
    let c3 = completed_id(&repo, h3);

    assert_eq!(repo.get_generation_number(&c1), Some(1));
    assert_eq!(repo.get_generation_number(&c2), Some(2));
    assert_eq!(repo.get_generation_number(&c3), Some(3));

    // A walk from the newest tip yields newest to oldest, each once.
    let mut stream = blobrepo::stream::BlobChangesetStream::new(vec![c3.clone()]);
    let y1 = stream.next(&repo).unwrap().expect("first yield");
    let y2 = stream.next(&repo).unwrap().expect("second yield");
    let y3 = stream.next(&repo).unwrap().expect("third yield");
    assert_eq!(y1.as_bytes(), c3.as_bytes());
    assert_eq!(y2.as_bytes(), c2.as_bytes());
    assert_eq!(y3.as_bytes(), c1.as_bytes());
    assert!(stream.next(&repo).unwrap().is_none());
}

#[test]
fn stream_from_heads_yields_each_reachable_commit_once() {
    let mut repo = BlobRepo::new_memblob_empty(None);
    let h1 = commit_one_file(&mut repo, None, b"one", b"1\n");
    let h2 = commit_one_file(&mut repo, Some(h1), b"two", b"2\n");
    repo.poll_changeset(h1);
    repo.poll_changeset(h2);
    let c1 = completed_id(&repo, h1);
    let c2 = completed_id(&repo, h2);

    let mut stream = repo.get_changesets();
    let mut yielded: Vec<Vec<u8>> = Vec::new();
    while let Some(id) = stream.next(&repo).unwrap() {
        yielded.push(id.as_bytes().clone());
    }
    assert_eq!(yielded.len(), 2);
    assert!(yielded.contains(c1.as_bytes()));
    assert!(yielded.contains(c2.as_bytes()));
}

#[test]
fn merge_commit_unions_changed_files() {
    let mut repo = BlobRepo::new_memblob_empty(None);
    let ha = commit_one_file(&mut repo, None, b"a.txt", b"a\n");
    let hb = commit_one_file(&mut repo, None, b"b.txt", b"b\n");
    assert_eq!(repo.poll_changeset(ha), PollOutcome::Complete);
    assert_eq!(repo.poll_changeset(hb), PollOutcome::Complete);

    let (na, fa) = file_entry(b"a.txt", b"a\n");
    let (nb, fb) = file_entry(b"b.txt", b"b\n");
    let (_, merged_tree) = tree_entry(vec![
        ManifestEntry { path: b"a.txt".to_vec(), node: na, ty: EntryType::File },
        ManifestEntry { path: b"b.txt".to_vec(), node: nb, ty: EntryType::File },
    ]);
    let hm = repo.create_changeset(
        Some(ha),
        Some(hb),
        merged_tree,
        vec![fa, fb],
        b"merger".to_vec(),
        7,
        vec![],
        b"merge".to_vec(),
    );
    assert_eq!(repo.poll_changeset(hm), PollOutcome::Complete);
    let m = completed_id(&repo, hm);

    // gen(M) = 1 + max(gen(A), gen(B)).
    assert_eq!(repo.get_generation_number(&m), Some(2));
    let record = repo.get_changeset_record(&m).unwrap();
    assert_eq!(record.parents.len(), 2);

    // The changed-files list is the sorted union of the two sides.
    let bc = repo.get_changeset_by_changesetid(&m).unwrap();
    assert_eq!(bc.content().files, vec![b"a.txt".to_vec(), b"b.txt".to_vec()]);
}

#[test]
fn failed_parent_cascades() {
    let store = FailingBlobstore::new(EagerMemblob::new(), true);
    let mut repo = BlobRepo::new(
        Heads::new(),
        Bookmarks::new(),
        store,
        Filenodes::new(),
        Changesets::new(),
        0,
    );
    let (fnode, fentry) = file_entry(b"f", b"x\n");
    let (_, mentry) = tree_entry(vec![ManifestEntry {
        path: b"f".to_vec(),
        node: fnode,
        ty: EntryType::File,
    }]);
    let h1 = repo.create_changeset(
        None,
        None,
        mentry,
        vec![fentry],
        b"u".to_vec(),
        0,
        vec![],
        b"c1".to_vec(),
    );
    // C1's uploads failed permanently: both signals carry the error.
    assert!(matches!(repo.can_be_parent(h1), Some(Err(_))));
    assert!(matches!(repo.completion(h1), Some(Err(_))));

    let (fnode2, fentry2) = file_entry(b"g", b"y\n");
    let (_, mentry2) = tree_entry(vec![ManifestEntry {
        path: b"g".to_vec(),
        node: fnode2,
        ty: EntryType::File,
    }]);
    let h2 = repo.create_changeset(
        Some(h1),
        None,
        mentry2,
        vec![fentry2],
        b"u".to_vec(),
        0,
        vec![],
        b"c2".to_vec(),
    );
    // C2's own uploads also fail against this store; with a healthy store
    // it would fail with ParentsFailed when polled. Either way neither
    // commit becomes visible.
    let _ = repo.poll_changeset(h2);
    assert!(matches!(repo.completion(h2), Some(Err(_))));
    assert_eq!(repo.get_heads().len(), 0);
}

#[test]
fn failed_parent_yields_parents_failed() {
    // C1 fails only its writes; C2 uploads against a healthy store and
    // then fails because its parent failed.
    let store = FailingBlobstore::new(EagerMemblob::new(), true);
    let mut repo = BlobRepo::new(
        Heads::new(),
        Bookmarks::new(),
        store,
        Filenodes::new(),
        Changesets::new(),
        0,
    );
    let h1 = {
        let (fnode, fentry) = file_entry(b"f", b"x\n");
        let (_, mentry) = tree_entry(vec![ManifestEntry {
            path: b"f".to_vec(),
            node: fnode,
            ty: EntryType::File,
        }]);
        repo.create_changeset(None, None, mentry, vec![fentry], b"u".to_vec(), 0, vec![], b"c1".to_vec())
    };
    repo.set_store_fail_writes(false);
    let h2 = {
        let (fnode, fentry) = file_entry(b"g", b"y\n");
        let (_, mentry) = tree_entry(vec![ManifestEntry {
            path: b"g".to_vec(),
            node: fnode,
            ty: EntryType::File,
        }]);
        repo.create_changeset(Some(h1), None, mentry, vec![fentry], b"u".to_vec(), 0, vec![], b"c2".to_vec())
    };
    assert_eq!(repo.poll_changeset(h2), PollOutcome::Failed);
    assert!(matches!(repo.completion(h2), Some(Err(ErrorKind::ParentsFailed))));
    assert!(matches!(repo.can_be_parent(h2), Some(Err(ErrorKind::ParentsFailed))));
    assert_eq!(repo.get_heads().len(), 0);
}

#[test]
fn failed_parent_beats_unready_parent() {
    // One parent has failed while the other has not even fired its first
    // signal: the child fails with ParentsFailed rather than waiting.
    let store = FailingBlobstore::new(EagerMemblob::new(), true);
    let mut repo = BlobRepo::new(
        Heads::new(),
        Bookmarks::new(),
        store,
        Filenodes::new(),
        Changesets::new(),
        0,
    );
    let h1 = {
        let (fnode, fentry) = file_entry(b"f", b"x\n");
        let (_, mentry) = tree_entry(vec![ManifestEntry {
            path: b"f".to_vec(),
            node: fnode,
            ty: EntryType::File,
        }]);
        repo.create_changeset(None, None, mentry, vec![fentry], b"u".to_vec(), 0, vec![], b"c1".to_vec())
    };
    repo.set_store_fail_writes(false);
    let h2 = commit_one_file_failing(&mut repo, None, b"g", b"y\n");
    // h1 failed at creation; h2 is healthy but never polled.
    assert!(repo.completion(h2).is_none());
    let (fnode3, fentry3) = file_entry(b"h", b"z\n");
    let (_, mentry3) = tree_entry(vec![ManifestEntry {
        path: b"h".to_vec(),
        node: fnode3,
        ty: EntryType::File,
    }]);
    let h3 = repo.create_changeset(
        Some(h1),
        Some(h2),
        mentry3,
        vec![fentry3],
        b"u".to_vec(),
        0,
        vec![],
        b"c3".to_vec(),
    );
    assert_eq!(repo.poll_changeset(h3), PollOutcome::Failed);
    assert!(matches!(repo.completion(h3), Some(Err(ErrorKind::ParentsFailed))));
}

fn commit_one_file_failing(
    repo: &mut BlobRepo<FailingBlobstore<EagerMemblob>>,
    p1: Option<ChangesetHandle>,
    path: &[u8],
    content: &[u8],
) -> ChangesetHandle {
    let (fnode, fentry) = file_entry(path, content);
    let (_, mentry) = tree_entry(vec![ManifestEntry {
        path: path.to_vec(),
        node: fnode,
        ty: EntryType::File,
    }]);
    repo.create_changeset(
        p1,
        None,
        mentry,
        vec![fentry],
        b"tester".to_vec(),
        0,
        vec![],
        b"msg".to_vec(),
    )
}

#[test]
fn failed_finalization_leaves_no_head() {
    // The root manifest references a child entry that is never supplied:
    // finalization fails with InconsistentEntries, and the repository is
    // unchanged from a reader's perspective — no head, no filenodes, no
    // record; only orphan blobs remain.
    let mut repo = BlobRepo::new_memblob_empty(None);
    let (fnode, _) = file_entry(b"missing", b"never uploaded\n");
    let (_, mentry) = tree_entry(vec![ManifestEntry {
        path: b"missing".to_vec(),
        node: fnode.clone(),
        ty: EntryType::File,
    }]);
    let h = repo.create_changeset(
        None,
        None,
        mentry,
        vec![],
        b"u".to_vec(),
        0,
        vec![],
        b"broken".to_vec(),
    );
    assert_eq!(repo.poll_changeset(h), PollOutcome::Failed);
    assert!(matches!(repo.completion(h), Some(Err(ErrorKind::InconsistentEntries))));
    assert_eq!(repo.get_heads().len(), 0);
    assert!(repo
        .get_parents(&b"missing".to_vec(), &fnode)
        .is_err());
}

#[test]
fn idempotent_reimport() {
    let mut repo = BlobRepo::new_memblob_empty(None);
    let h1 = commit_one_file(&mut repo, None, b"f", b"data\n");
    assert_eq!(repo.poll_changeset(h1), PollOutcome::Complete);
    let c1 = completed_id(&repo, h1);

    // Importing the identical commit again succeeds and changes nothing.
    let h2 = commit_one_file(&mut repo, None, b"f", b"data\n");
    assert_eq!(repo.poll_changeset(h2), PollOutcome::Complete);
    let c2 = completed_id(&repo, h2);
    assert_eq!(c1.as_bytes(), c2.as_bytes());
    assert_eq!(repo.get_heads().len(), 1);
    assert_eq!(repo.get_generation_number(&c1), Some(1));
}

#[test]
fn copyfrom_is_recorded() {
    let mut repo = BlobRepo::new_memblob_empty(None);
    let h1 = commit_one_file(&mut repo, None, b"a.txt", b"same\n");
    assert_eq!(repo.poll_changeset(h1), PollOutcome::Complete);
    let prior = compute_nodeid(&None, &None, &b"same\n".to_vec());

    // The rename carries where the content came from.
    let renamed = BlobEntry {
        path: b"b.txt".to_vec(),
        ty: EntryType::File,
        parents: Parents::new(None, None),
        content: b"same\n".to_vec(),
        copyfrom: Some((b"a.txt".to_vec(), prior.clone())),
    };
    let new_node = compute_nodeid(&None, &None, &b"same\n".to_vec());
    let (_, mentry) = tree_entry(vec![ManifestEntry {
        path: b"b.txt".to_vec(),
        node: new_node.clone(),
        ty: EntryType::File,
    }]);
    let h2 = repo.create_changeset(
        Some(h1),
        None,
        mentry,
        vec![renamed],
        b"u".to_vec(),
        0,
        vec![],
        b"rename".to_vec(),
    );
    assert_eq!(repo.poll_changeset(h2), PollOutcome::Complete);

    let copy = repo.get_file_copy(&b"b.txt".to_vec(), &new_node).unwrap().expect("copy recorded");
    assert_eq!(copy.0, b"a.txt".to_vec());
    assert_eq!(copy.1.as_bytes(), prior.as_bytes());

    // The changed files of the rename commit are both sides, sorted.
    let c2 = completed_id(&repo, h2);
    let bc = repo.get_changeset_by_changesetid(&c2).unwrap();
    assert_eq!(bc.content().files, vec![b"a.txt".to_vec(), b"b.txt".to_vec()]);
}

#[test]
fn merge_with_identical_parents() {
    let mut repo = BlobRepo::new_memblob_empty(None);
    let h1 = commit_one_file(&mut repo, None, b"f", b"v1\n");
    assert_eq!(repo.poll_changeset(h1), PollOutcome::Complete);
    let c1 = completed_id(&repo, h1);

    // Both parent slots name the same commit; the child modifies the file.
    let (fnode2, fentry2) = file_entry(b"f", b"v2\n");
    let (_, mentry2) = tree_entry(vec![ManifestEntry {
        path: b"f".to_vec(),
        node: fnode2,
        ty: EntryType::File,
    }]);
    let h2 = repo.create_changeset(
        Some(h1),
        Some(h1),
        mentry2,
        vec![fentry2],
        b"u".to_vec(),
        0,
        vec![],
        b"self-merge".to_vec(),
    );
    assert_eq!(repo.poll_changeset(h2), PollOutcome::Complete);
    let c2 = completed_id(&repo, h2);

    // Both entries of the stored record point at the single parent.
    let record = repo.get_changeset_record(&c2).unwrap();
    assert_eq!(record.parents.len(), 2);
    assert_eq!(record.parents[0].as_bytes(), c1.as_bytes());
    assert_eq!(record.parents[1].as_bytes(), c1.as_bytes());

    // Changed files are computed against the single parent manifest.
    let bc = repo.get_changeset_by_changesetid(&c2).unwrap();
    assert_eq!(bc.content().files, vec![b"f".to_vec()]);
    assert_eq!(repo.get_generation_number(&c2), Some(2));
}

#[test]
fn empty_changed_files_is_valid() {
    let mut repo = BlobRepo::new_memblob_empty(None);
    let h1 = commit_one_file(&mut repo, None, b"f", b"same\n");
    assert_eq!(repo.poll_changeset(h1), PollOutcome::Complete);

    // The child re-commits the identical tree: a no-op merge.
    let (fnode, fentry) = file_entry(b"f", b"same\n");
    let (_, mentry) = tree_entry(vec![ManifestEntry {
        path: b"f".to_vec(),
        node: fnode,
        ty: EntryType::File,
    }]);
    let h2 = repo.create_changeset(
        Some(h1),
        None,
        mentry,
        vec![fentry],
        b"u".to_vec(),
        1,
        vec![],
        b"no-op".to_vec(),
    );
    assert_eq!(repo.poll_changeset(h2), PollOutcome::Complete);
    let c2 = completed_id(&repo, h2);
    let bc = repo.get_changeset_by_changesetid(&c2).unwrap();
    assert_eq!(bc.content().files.len(), 0);
}

#[test]
fn large_commit_succeeds() {
    let mut repo = BlobRepo::new_memblob_empty(None);
    let mut rows = Vec::new();
    let mut entries = Vec::new();
    let mut i: usize = 0;
    while i < 120 {
        let path = format!("file-{:03}", i).into_bytes();
        let content = format!("content {}\n", i).into_bytes();
        let (node, entry) = file_entry(&path, &content);
        rows.push(ManifestEntry { path, node, ty: EntryType::File });
        entries.push(entry);
        i += 1;
    }
    let (_, mentry) = tree_entry(rows);
    let h = repo.create_changeset(
        None,
        None,
        mentry,
        entries,
        b"bulk".to_vec(),
        0,
        vec![],
        b"large".to_vec(),
    );
    assert_eq!(repo.poll_changeset(h), PollOutcome::Complete);
    let cs = completed_id(&repo, h);
    let bc = repo.get_changeset_by_changesetid(&cs).unwrap();
    assert_eq!(bc.content().files.len(), 120);
}

#[test]
fn upload_entry_writes_blob_and_record() {
    let mut repo = BlobRepo::new_memblob_empty(None);
    let (node, entry) = repo
        .upload_entry(
            b"payload".to_vec(),
            EntryType::File,
            None,
            None,
            b"p".to_vec(),
            None,
        )
        .expect("upload succeeds");
    assert_eq!(entry.content, b"payload".to_vec());
    assert_eq!(entry.path, b"p".to_vec());
    let node_key = blobrepo::hash::get_node_key(&node);
    assert!(repo.blobstore().get(&node_key).unwrap().is_some());
    assert_eq!(repo.get_file_content(&node).unwrap(), b"payload".to_vec());

    // Re-uploading identical content is idempotent.
    let (node2, _) = repo
        .upload_entry(
            b"payload".to_vec(),
            EntryType::File,
            None,
            None,
            b"p".to_vec(),
            None,
        )
        .expect("re-upload succeeds");
    assert_eq!(node.as_bytes(), node2.as_bytes());
}

#[test]
fn missing_objects_surface_as_errors() {
    let repo = BlobRepo::new_memblob_empty(None);
    let absent = NodeId::from_vec(vec![0xAB; 20]);
    assert!(matches!(
        repo.get_parents(&b"nope".to_vec(), &absent),
        Err(ErrorKind::MissingFilenode(_, _))
    ));
    assert!(matches!(
        repo.get_changeset_by_changesetid(&absent),
        Err(ErrorKind::ChangesetMissing(_))
    ));
    assert!(matches!(
        repo.get_manifest_by_nodeid(&absent),
        Err(ErrorKind::ManifestMissing(_))
    ));
    assert!(matches!(repo.get_file_content(&absent), Err(ErrorKind::NotFound(_))));
    assert_eq!(repo.get_generation_number(&absent), None);
    assert!(!repo.changeset_exists(&absent));
}

#[test]
fn interleaving_of_independent_commits_is_immaterial() {
    // Two independent root commits, polled in both orders, leave the same
    // observable state.
    let build = |first_a: bool| {
        let mut repo = BlobRepo::new_memblob_empty(None);
        let ha = commit_one_file(&mut repo, None, b"a", b"a\n");
        let hb = commit_one_file(&mut repo, None, b"b", b"b\n");
        if first_a {
            repo.poll_changeset(ha);
            repo.poll_changeset(hb);
        } else {
            repo.poll_changeset(hb);
            repo.poll_changeset(ha);
        }
        let ca = completed_id(&repo, ha);
        let cb = completed_id(&repo, hb);
        let ga = repo.get_generation_number(&ca);
        let gb = repo.get_generation_number(&cb);
        let mut heads: Vec<Vec<u8>> = repo
            .get_heads()
            .iter()
            .map(|h| h.as_bytes().clone())
            .collect();
        heads.sort();
        (ca.as_bytes().clone(), cb.as_bytes().clone(), ga, gb, heads)
    };
    assert_eq!(build(true), build(false));
}
