//! The entry uploader's finalization checks, and wholesale imports.

use blobrepo::blobstore::{Blobstore, EagerMemblob};
use blobrepo::changeset::ChangesetContent;
use blobrepo::errors::ErrorKind;
use blobrepo::filenodes::Filenodes;
use blobrepo::hash::{compute_nodeid, NodeId, Parents};
use blobrepo::import::{convert_entries, copy_changeset, copy_manifest_entry};
use blobrepo::manifest::{BlobManifest, EntryType, ManifestEntry};
use blobrepo::uploader::{BlobEntry, UploadEntries};

fn nid(b: u8) -> NodeId {
    NodeId::from_vec(vec![b; 20])
}

fn file_entry(path: &[u8], content: &[u8]) -> (NodeId, BlobEntry) {
    let node = compute_nodeid(&None, &None, &content.to_vec());
    let entry = BlobEntry {
        path: path.to_vec(),
        ty: EntryType::File,
        parents: Parents::new(None, None),
        content: content.to_vec(),
        copyfrom: None,
    };
    (node, entry)
}

fn tree_entry(rows: Vec<ManifestEntry>) -> (NodeId, BlobEntry) {
    let content = BlobManifest::from_entries(rows).encode();
    let node = compute_nodeid(&None, &None, &content);
    let entry = BlobEntry {
        path: Vec::new(),
        ty: EntryType::Tree,
        parents: Parents::new(None, None),
        content,
        copyfrom: None,
    };
    (node, entry)
}

#[test]
fn finalize_requires_referenced_children() {
    let mut uploader = UploadEntries::new();
    // The root tree references a child that is never supplied.
    let (_, root) = tree_entry(vec![ManifestEntry {
        path: b"missing".to_vec(),
        node: nid(5),
        ty: EntryType::File,
    }]);
    let root_node = compute_nodeid(&None, &None, &root.content);
    uploader.add_entry(&root, &root_node, true).unwrap();

    let mut filenodes = Filenodes::new();
    let r = uploader.finalize(&mut filenodes, &nid(9));
    assert!(matches!(r, Err(ErrorKind::InconsistentEntries)));
    assert!(filenodes.get_filenode(&b"missing".to_vec(), &nid(5)).is_none());
}

#[test]
fn finalize_requires_root_manifest() {
    let mut uploader = UploadEntries::new();
    let (fnode, fentry) = file_entry(b"f", b"x\n");
    uploader.add_entry(&fentry, &fnode, false).unwrap();

    let mut filenodes = Filenodes::new();
    let r = uploader.finalize(&mut filenodes, &nid(9));
    assert!(matches!(r, Err(ErrorKind::MissingRootManifest)));
}

#[test]
fn finalize_stamps_linknodes() {
    let mut uploader = UploadEntries::new();
    let (fnode, fentry) = file_entry(b"f", b"x\n");
    let (_, root) = tree_entry(vec![ManifestEntry {
        path: b"f".to_vec(),
        node: fnode.clone(),
        ty: EntryType::File,
    }]);
    let root_node = compute_nodeid(&None, &None, &root.content);
    uploader.add_entry(&root, &root_node, true).unwrap();
    uploader.add_entry(&fentry, &fnode, false).unwrap();

    let mut filenodes = Filenodes::new();
    uploader.finalize(&mut filenodes, &nid(9)).expect("consistent commit finalizes");
    let info = filenodes.get_filenode(&b"f".to_vec(), &fnode).expect("filenode stored");
    assert_eq!(info.linknode.as_bytes(), &vec![9u8; 20]);
}

#[test]
fn tree_entry_with_undecodable_content_is_rejected() {
    let mut uploader = UploadEntries::new();
    let bad = BlobEntry {
        path: Vec::new(),
        ty: EntryType::Tree,
        parents: Parents::new(None, None),
        content: b"not a manifest".to_vec(),
        copyfrom: None,
    };
    let node = compute_nodeid(&None, &None, &bad.content);
    let r = uploader.add_entry(&bad, &node, true);
    assert!(matches!(r, Err(ErrorKind::SerializationFailed)));
}

#[test]
fn copy_manifest_entry_writes_both_keys() {
    let mut store = EagerMemblob::new();
    let (_, entry) = file_entry(b"f", b"payload\n");
    let node = copy_manifest_entry(&entry, &mut store).expect("copy succeeds");
    let node_key = blobrepo::hash::get_node_key(&node);
    assert!(store.get(&node_key).unwrap().is_some());
}

#[test]
fn copy_changeset_writes_commit_and_manifest() {
    let mut store = EagerMemblob::new();
    let (fnode, _) = file_entry(b"f", b"data\n");
    let (mnode, mentry) = tree_entry(vec![ManifestEntry {
        path: b"f".to_vec(),
        node: fnode,
        ty: EntryType::File,
    }]);
    let cs = ChangesetContent {
        p1: None,
        p2: None,
        manifest_id: mnode,
        user: b"importer".to_vec(),
        time: 0,
        extra: vec![],
        files: vec![b"f".to_vec()],
        comments: b"imported".to_vec(),
    };
    let csid = copy_changeset(&mut store, cs, &mentry).expect("import succeeds");
    let cs_key = blobrepo::hash::get_node_key(&csid);
    assert!(store.get(&cs_key).unwrap().is_some());
}

#[test]
fn traversal_step_expands_trees_depth_first() {
    // A fetched listing with one file and two subtrees: the subtrees are
    // pushed in row order, and steps hand them back newest-first.
    let mut stack = vec![nid(1)];
    let listing = vec![
        ManifestEntry { path: b"a.txt".to_vec(), node: nid(2), ty: EntryType::File },
        ManifestEntry { path: b"sub1".to_vec(), node: nid(3), ty: EntryType::Tree },
        ManifestEntry { path: b"sub2".to_vec(), node: nid(4), ty: EntryType::Tree },
    ];
    let next = blobrepo::import::traversal_step(&mut stack, &listing).expect("a tree to fetch");
    assert_eq!(next.as_bytes(), &vec![4u8; 20]);
    let next = blobrepo::import::traversal_step(&mut stack, &vec![]).expect("a tree to fetch");
    assert_eq!(next.as_bytes(), &vec![3u8; 20]);
    let next = blobrepo::import::traversal_step(&mut stack, &vec![]).expect("a tree to fetch");
    assert_eq!(next.as_bytes(), &vec![1u8; 20]);
    assert!(blobrepo::import::traversal_step(&mut stack, &vec![]).is_none());
}

#[test]
fn import_heads_records_each_tip_once() {
    let mut heads = blobrepo::heads::Heads::new();
    heads.add(&nid(1));
    blobrepo::import::import_heads(&mut heads, &vec![nid(2), nid(1), nid(2)]);
    let listed = heads.heads();
    assert_eq!(listed.len(), 2);
    assert!(heads.contains(&nid(1)));
    assert!(heads.contains(&nid(2)));
}

#[test]
fn convert_entries_deduplicates() {
    let mut store = EagerMemblob::new();
    let (_, e1) = file_entry(b"f", b"data\n");
    let (_, e2) = file_entry(b"f", b"data\n");
    let (_, e3) = file_entry(b"g", b"other\n");
    let copied = convert_entries(&mut store, &vec![e1, e2, e3]).expect("import succeeds");
    // The identical entry is copied once.
    assert_eq!(copied, 2);
}
