//! The typed indices and the blobstore variants on their own.

use blobrepo::blobstore::{Blobstore, BlobstoreBytes, EagerMemblob, FailingBlobstore};
use blobrepo::bookmarks::Bookmarks;
use blobrepo::changesets::{Changesets, ChangesetInsert};
use blobrepo::errors::ErrorKind;
use blobrepo::filenodes::{FileNodeInfo, Filenodes};
use blobrepo::hash::NodeId;
use blobrepo::heads::Heads;

fn nid(b: u8) -> NodeId {
    NodeId::from_vec(vec![b; 20])
}

#[test]
fn memblob_put_then_get() {
    let mut store = EagerMemblob::new();
    store
        .put(b"key".to_vec(), BlobstoreBytes::from_bytes(b"value".to_vec()))
        .expect("in-memory put succeeds");
    let got = store.get(&b"key".to_vec()).expect("get succeeds").expect("key is present");
    assert_eq!(got.into_bytes(), b"value".to_vec());
    assert!(store.get(&b"other".to_vec()).expect("get succeeds").is_none());
}

#[test]
fn memblob_overwrite_last_wins() {
    let mut store = EagerMemblob::new();
    store.put(b"k".to_vec(), BlobstoreBytes::from_bytes(b"v1".to_vec())).unwrap();
    store.put(b"k".to_vec(), BlobstoreBytes::from_bytes(b"v2".to_vec())).unwrap();
    let got = store.get(&b"k".to_vec()).unwrap().unwrap();
    assert_eq!(got.into_bytes(), b"v2".to_vec());
}

#[test]
fn failing_blobstore_put_then_get_when_healthy() {
    let mut store = FailingBlobstore::new(EagerMemblob::new(), false);
    store.put(b"k".to_vec(), BlobstoreBytes::from_bytes(b"v".to_vec())).expect("healthy put");
    let got = store.get(&b"k".to_vec()).unwrap().unwrap();
    assert_eq!(got.into_bytes(), b"v".to_vec());
}

#[test]
fn failing_blobstore_rejects_writes() {
    let mut store = FailingBlobstore::new(EagerMemblob::new(), true);
    let r = store.put(b"k".to_vec(), BlobstoreBytes::from_bytes(b"v".to_vec()));
    assert!(matches!(r, Err(ErrorKind::BackendUnavailable)));
    assert!(store.get(&b"k".to_vec()).unwrap().is_none());
}

#[test]
fn blobstore_is_present_and_assert_present() {
    let mut store = EagerMemblob::new();
    store.put(b"k".to_vec(), BlobstoreBytes::from_bytes(b"v".to_vec())).unwrap();
    assert!(store.is_present(&b"k".to_vec()).unwrap());
    assert!(!store.is_present(&b"absent".to_vec()).unwrap());
    assert!(store.assert_present(&b"k".to_vec()).is_ok());
    let r = store.assert_present(&b"absent".to_vec());
    assert!(matches!(r, Err(ErrorKind::NotFound(_))));
}

#[test]
fn heads_add_remove() {
    let mut heads = Heads::new();
    heads.add(&nid(1));
    heads.add(&nid(2));
    heads.add(&nid(1));
    let listed = heads.heads();
    assert_eq!(listed.len(), 2);
    assert_eq!(listed[0].as_bytes(), &vec![1u8; 20]);
    heads.remove(&nid(1));
    let listed = heads.heads();
    assert_eq!(listed.len(), 1);
    assert_eq!(listed[0].as_bytes(), &vec![2u8; 20]);
    assert!(heads.contains(&nid(2)));
    assert!(!heads.contains(&nid(1)));
}

#[test]
fn generation_numbers_follow_parents() {
    let mut cs = Changesets::new();
    let r = cs.add(&ChangesetInsert { cs_id: nid(1), parents: vec![] }).unwrap();
    assert!(r);
    cs.add(&ChangesetInsert { cs_id: nid(2), parents: vec![nid(1)] }).unwrap();
    cs.add(&ChangesetInsert { cs_id: nid(3), parents: vec![nid(2)] }).unwrap();
    cs.add(&ChangesetInsert { cs_id: nid(4), parents: vec![nid(1), nid(3)] }).unwrap();
    assert_eq!(cs.get(&nid(1)).unwrap().gen, 1);
    assert_eq!(cs.get(&nid(2)).unwrap().gen, 2);
    assert_eq!(cs.get(&nid(3)).unwrap().gen, 3);
    assert_eq!(cs.get(&nid(4)).unwrap().gen, 4);
}

#[test]
fn changeset_record_needs_parents_first() {
    let mut cs = Changesets::new();
    let r = cs.add(&ChangesetInsert { cs_id: nid(2), parents: vec![nid(1)] });
    assert!(matches!(r, Err(ErrorKind::ChangesetMissing(_))));
    assert!(cs.get(&nid(2)).is_none());
}

#[test]
fn changeset_record_idempotent_and_conflicting() {
    let mut cs = Changesets::new();
    assert!(cs.add(&ChangesetInsert { cs_id: nid(1), parents: vec![] }).unwrap());
    // Re-inserting the identical record is a no-op.
    assert!(!cs.add(&ChangesetInsert { cs_id: nid(1), parents: vec![] }).unwrap());
    // A differing record for the same id is rejected.
    cs.add(&ChangesetInsert { cs_id: nid(9), parents: vec![] }).unwrap();
    let r = cs.add(&ChangesetInsert { cs_id: nid(1), parents: vec![nid(9)] });
    assert!(matches!(r, Err(ErrorKind::DuplicateChangeset)));
    assert_eq!(cs.get(&nid(1)).unwrap().parents.len(), 0);
}

fn filenode(path: &[u8], node: NodeId, link: NodeId) -> FileNodeInfo {
    FileNodeInfo {
        path: path.to_vec(),
        filenode: node,
        p1: None,
        p2: None,
        copyfrom: None,
        linknode: link,
    }
}

#[test]
fn filenodes_insert_idempotent() {
    let mut fns = Filenodes::new();
    fns.add(&vec![filenode(b"a.txt", nid(1), nid(9))]).expect("first insert");
    fns.add(&vec![filenode(b"a.txt", nid(1), nid(9))]).expect("identical re-insert is a no-op");
    let got = fns.get_filenode(&b"a.txt".to_vec(), &nid(1)).expect("record present");
    assert_eq!(got.linknode.as_bytes(), &vec![9u8; 20]);
}

#[test]
fn filenodes_conflicting_insert_fails_and_leaves_first() {
    let mut fns = Filenodes::new();
    fns.add(&vec![filenode(b"a.txt", nid(1), nid(9))]).unwrap();
    let r = fns.add(&vec![filenode(b"a.txt", nid(1), nid(8))]);
    assert!(matches!(r, Err(ErrorKind::ConflictingFileNode)));
    let got = fns.get_filenode(&b"a.txt".to_vec(), &nid(1)).unwrap();
    assert_eq!(got.linknode.as_bytes(), &vec![9u8; 20]);
}

#[test]
fn filenodes_batch_is_atomic() {
    let mut fns = Filenodes::new();
    fns.add(&vec![filenode(b"a.txt", nid(1), nid(9))]).unwrap();
    // The batch's first record is fresh but the second conflicts, so
    // nothing of the batch lands.
    let r = fns.add(&vec![
        filenode(b"b.txt", nid(2), nid(9)),
        filenode(b"a.txt", nid(1), nid(8)),
    ]);
    assert!(matches!(r, Err(ErrorKind::ConflictingFileNode)));
    assert!(fns.get_filenode(&b"b.txt".to_vec(), &nid(2)).is_none());
}

#[test]
fn bookmark_transaction_commits() {
    let mut bk = Bookmarks::new();
    let mut tx = bk.create_transaction();
    tx.create(b"main".to_vec(), nid(1));
    bk.commit_transaction(tx).expect("creating a fresh name succeeds");
    let got = bk.get(&b"main".to_vec()).expect("bookmark present");
    assert_eq!(got.as_bytes(), &vec![1u8; 20]);

    let mut tx = bk.create_transaction();
    tx.update(b"main".to_vec(), nid(2), nid(1));
    bk.commit_transaction(tx).expect("expected value matches");
    assert_eq!(bk.get(&b"main".to_vec()).unwrap().as_bytes(), &vec![2u8; 20]);
}

#[test]
fn overlapping_bookmark_transactions_conflict() {
    let mut bk = Bookmarks::new();
    let mut tx0 = bk.create_transaction();
    tx0.create(b"main".to_vec(), nid(1));
    bk.commit_transaction(tx0).unwrap();

    // Both transactions want to move `main` from the same old value.
    let mut tx1 = bk.create_transaction();
    tx1.update(b"main".to_vec(), nid(2), nid(1));
    let mut tx2 = bk.create_transaction();
    tx2.update(b"main".to_vec(), nid(3), nid(1));

    bk.commit_transaction(tx1).expect("first mover wins");
    let r = bk.commit_transaction(tx2);
    assert!(matches!(r, Err(ErrorKind::BookmarkConflict)));
    assert_eq!(bk.get(&b"main".to_vec()).unwrap().as_bytes(), &vec![2u8; 20]);
}

#[test]
fn bookmark_delete_and_list_by_prefix() {
    let mut bk = Bookmarks::new();
    let mut tx = bk.create_transaction();
    tx.create(b"feature/one".to_vec(), nid(1));
    tx.create(b"feature/two".to_vec(), nid(2));
    tx.create(b"main".to_vec(), nid(3));
    bk.commit_transaction(tx).unwrap();

    let features = bk.list_by_prefix(&b"feature/".to_vec());
    assert_eq!(features.len(), 2);
    for (name, _) in &features {
        assert!(name.starts_with(b"feature/"));
    }

    let mut tx = bk.create_transaction();
    tx.delete(b"feature/one".to_vec(), nid(1));
    bk.commit_transaction(tx).unwrap();
    assert!(bk.get(&b"feature/one".to_vec()).is_none());
    assert_eq!(bk.list_by_prefix(&b"feature/".to_vec()).len(), 1);
}
