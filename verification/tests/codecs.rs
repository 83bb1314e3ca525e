//! Round-trips of the persisted record encodings.

use blobrepo::changeset::ChangesetContent;
use blobrepo::codec::NodeBlob;
use blobrepo::hash::{hex_bytes, lex_le_bytes, lex_lt_bytes, NodeId, Parents};
use blobrepo::manifest::{BlobManifest, EntryType, ManifestEntry};

fn nid(b: u8) -> NodeId {
    NodeId::from_vec(vec![b; 20])
}

#[test]
fn node_record_roundtrip_both_parents() {
    let record = NodeBlob::new(Parents::new(Some(nid(1)), Some(nid(2))), vec![9u8; 20]);
    let encoded = record.encode();
    assert_eq!(encoded.len(), 62);
    let decoded = NodeBlob::decode(&encoded).expect("canonical bytes decode");
    assert_eq!(decoded.blob, vec![9u8; 20]);
    assert_eq!(decoded.parents.p1.as_ref().unwrap().as_bytes(), &vec![1u8; 20]);
    assert_eq!(decoded.parents.p2.as_ref().unwrap().as_bytes(), &vec![2u8; 20]);
}

#[test]
fn node_record_roundtrip_no_parents() {
    let record = NodeBlob::new(Parents::new(None, None), vec![7u8; 20]);
    let encoded = record.encode();
    let decoded = NodeBlob::decode(&encoded).expect("canonical bytes decode");
    assert!(decoded.parents.p1.is_none());
    assert!(decoded.parents.p2.is_none());
    assert_eq!(decoded.blob, vec![7u8; 20]);
}

#[test]
fn node_record_rejects_bad_length() {
    assert!(NodeBlob::decode(&vec![0u8; 61]).is_none());
    assert!(NodeBlob::decode(&vec![0u8; 63]).is_none());
}

#[test]
fn node_record_rejects_bad_tag() {
    let record = NodeBlob::new(Parents::new(None, None), vec![7u8; 20]);
    let mut encoded = record.encode();
    encoded[0] = 2;
    assert!(NodeBlob::decode(&encoded).is_none());
}

#[test]
fn changeset_blob_roundtrip_preserves_extras_and_files() {
    let content = ChangesetContent {
        p1: Some(nid(1)),
        p2: None,
        manifest_id: nid(3),
        user: b"alice <alice@example.com>".to_vec(),
        time: 1_234_567,
        // Key order is preserved verbatim, whatever it is.
        extra: vec![
            (b"branch".to_vec(), b"default".to_vec()),
            (b"arbitrary".to_vec(), b"value".to_vec()),
        ],
        files: vec![b"a.txt".to_vec(), b"b.txt".to_vec()],
        comments: b"a commit message".to_vec(),
    };
    let encoded = content.encode();
    let decoded = ChangesetContent::decode(&encoded).expect("canonical bytes decode");
    assert_eq!(decoded.p1.as_ref().unwrap().as_bytes(), &vec![1u8; 20]);
    assert!(decoded.p2.is_none());
    assert_eq!(decoded.manifest_id.as_bytes(), &vec![3u8; 20]);
    assert_eq!(decoded.user, b"alice <alice@example.com>".to_vec());
    assert_eq!(decoded.time, 1_234_567);
    assert_eq!(decoded.extra.len(), 2);
    assert_eq!(decoded.extra[0].0, b"branch".to_vec());
    assert_eq!(decoded.extra[0].1, b"default".to_vec());
    assert_eq!(decoded.extra[1].0, b"arbitrary".to_vec());
    assert_eq!(decoded.files, vec![b"a.txt".to_vec(), b"b.txt".to_vec()]);
    assert_eq!(decoded.comments, b"a commit message".to_vec());
}

#[test]
fn changeset_blob_rejects_trailing_bytes() {
    let content = ChangesetContent {
        p1: None,
        p2: None,
        manifest_id: nid(3),
        user: b"u".to_vec(),
        time: 0,
        extra: vec![],
        files: vec![],
        comments: b"".to_vec(),
    };
    let mut encoded = content.encode();
    encoded.push(0);
    assert!(ChangesetContent::decode(&encoded).is_none());
}

#[test]
fn manifest_roundtrip() {
    let rows = vec![
        ManifestEntry { path: b"a.txt".to_vec(), node: nid(4), ty: EntryType::File },
        ManifestEntry { path: b"bin/tool".to_vec(), node: nid(5), ty: EntryType::Executable },
        ManifestEntry { path: b"link".to_vec(), node: nid(6), ty: EntryType::Symlink },
        ManifestEntry { path: b"sub".to_vec(), node: nid(7), ty: EntryType::Tree },
    ];
    let manifest = BlobManifest::from_entries(rows);
    let encoded = manifest.encode();
    let decoded = BlobManifest::decode(&encoded).expect("canonical bytes decode");
    let listed = decoded.list();
    assert_eq!(listed.len(), 4);
    assert_eq!(listed[0].path, b"a.txt".to_vec());
    assert_eq!(listed[0].ty, EntryType::File);
    assert_eq!(listed[3].ty, EntryType::Tree);
    let (node, ty) = decoded.lookup(&b"bin/tool".to_vec()).expect("path is present");
    assert_eq!(node.as_bytes(), &vec![5u8; 20]);
    assert_eq!(ty, EntryType::Executable);
    assert!(decoded.lookup(&b"absent".to_vec()).is_none());
}

#[test]
fn hex_formatting() {
    let hex = hex_bytes(&vec![0x00, 0x0f, 0xa5, 0xff]);
    assert_eq!(hex, b"000fa5ff".to_vec());
}

#[test]
fn bytewise_order() {
    assert!(lex_le_bytes(&b"a".to_vec(), &b"ab".to_vec()));
    assert!(lex_lt_bytes(&b"a.txt".to_vec(), &b"b.txt".to_vec()));
    assert!(!lex_lt_bytes(&b"b.txt".to_vec(), &b"b.txt".to_vec()));
    assert!(lex_le_bytes(&b"b.txt".to_vec(), &b"b.txt".to_vec()));
    assert!(!lex_le_bytes(&b"ab".to_vec(), &b"a".to_vec()));
}
