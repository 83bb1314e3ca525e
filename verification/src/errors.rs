//! Error kinds surfaced by the repository engine.

use vstd::prelude::*;

verus! {

/// Everything that can go wrong inside the engine.
///
/// Backend failures are carried through unchanged as `BackendUnavailable`;
/// absence of an object that a caller asserted present surfaces as the
/// dedicated `..Missing` / `NotFound` kinds.
#[derive(Debug)]
pub enum ErrorKind {
    /// Transient blobstore or index failure; the caller may retry.
    BackendUnavailable,
    /// An asserted-present blobstore key was absent.
    NotFound(Vec<u8>),
    /// A filenode referenced by `(path, node)` was absent.
    MissingFilenode(Vec<u8>, crate::hash::NodeId),
    /// A manifest referenced by id was absent.
    ManifestMissing(crate::hash::NodeId),
    /// A changeset referenced by id was absent.
    ChangesetMissing(crate::hash::NodeId),
    /// Content could not be hashed or serialized for upload.
    BadUploadBlob,
    /// Entry uploader finalization saw a tree child that was never supplied.
    InconsistentEntries,
    /// Entry uploader finalization ran without a root manifest.
    MissingRootManifest,
    /// A filenode insert clashed with a differing record under the same key.
    ConflictingFileNode,
    /// A changeset record insert clashed with a differing record for the id.
    DuplicateChangeset,
    /// A parent handle resolved to an error.
    ParentsFailed,
    /// A parent of the commit being built resolved to the commit itself.
    CycleDetected,
    /// A record could not be encoded.
    SerializationFailed,
    /// A bookmark transaction lost a race against a committed overlapping one.
    BookmarkConflict,
}

/// Whether two errors are the same kind with the same payload values.
pub open spec fn err_equiv(a: ErrorKind, b: ErrorKind) -> bool {
    match (a, b) {
        (ErrorKind::BackendUnavailable, ErrorKind::BackendUnavailable) => true,
        (ErrorKind::NotFound(x), ErrorKind::NotFound(y)) => x@ == y@,
        (ErrorKind::MissingFilenode(p, n), ErrorKind::MissingFilenode(q, m)) => p@ == q@ && n@
            == m@,
        (ErrorKind::ManifestMissing(n), ErrorKind::ManifestMissing(m)) => n@ == m@,
        (ErrorKind::ChangesetMissing(n), ErrorKind::ChangesetMissing(m)) => n@ == m@,
        (ErrorKind::BadUploadBlob, ErrorKind::BadUploadBlob) => true,
        (ErrorKind::InconsistentEntries, ErrorKind::InconsistentEntries) => true,
        (ErrorKind::MissingRootManifest, ErrorKind::MissingRootManifest) => true,
        (ErrorKind::ConflictingFileNode, ErrorKind::ConflictingFileNode) => true,
        (ErrorKind::DuplicateChangeset, ErrorKind::DuplicateChangeset) => true,
        (ErrorKind::ParentsFailed, ErrorKind::ParentsFailed) => true,
        (ErrorKind::CycleDetected, ErrorKind::CycleDetected) => true,
        (ErrorKind::SerializationFailed, ErrorKind::SerializationFailed) => true,
        (ErrorKind::BookmarkConflict, ErrorKind::BookmarkConflict) => true,
        _ => false,
    }
}

impl Clone for ErrorKind {
    fn clone(&self) -> (r: Self)
        ensures
            err_equiv(r, *self),
    {
        match self {
            ErrorKind::BackendUnavailable => ErrorKind::BackendUnavailable,
            ErrorKind::NotFound(k) => {
                let kc = crate::codec::subvec(k, 0, k.len());
                proof {
                    assert(kc@ =~= k@);
                }
                ErrorKind::NotFound(kc)
            },
            ErrorKind::MissingFilenode(p, n) => {
                let pc = crate::codec::subvec(p, 0, p.len());
                proof {
                    assert(pc@ =~= p@);
                }
                ErrorKind::MissingFilenode(pc, n.clone())
            },
            ErrorKind::ManifestMissing(n) => ErrorKind::ManifestMissing(n.clone()),
            ErrorKind::ChangesetMissing(n) => ErrorKind::ChangesetMissing(n.clone()),
            ErrorKind::BadUploadBlob => ErrorKind::BadUploadBlob,
            ErrorKind::InconsistentEntries => ErrorKind::InconsistentEntries,
            ErrorKind::MissingRootManifest => ErrorKind::MissingRootManifest,
            ErrorKind::ConflictingFileNode => ErrorKind::ConflictingFileNode,
            ErrorKind::DuplicateChangeset => ErrorKind::DuplicateChangeset,
            ErrorKind::ParentsFailed => ErrorKind::ParentsFailed,
            ErrorKind::CycleDetected => ErrorKind::CycleDetected,
            ErrorKind::SerializationFailed => ErrorKind::SerializationFailed,
            ErrorKind::BookmarkConflict => ErrorKind::BookmarkConflict,
        }
    }
}

impl ErrorKind {
    /// A short stable label for the error kind, for diagnostics.
    pub fn label(&self) -> (r: &'static str)
    {
        match self {
            ErrorKind::BackendUnavailable => "backend unavailable",
            ErrorKind::NotFound(_) => "not found",
            ErrorKind::MissingFilenode(_, _) => "missing filenode",
            ErrorKind::ManifestMissing(_) => "manifest missing",
            ErrorKind::ChangesetMissing(_) => "changeset missing",
            ErrorKind::BadUploadBlob => "bad upload blob",
            ErrorKind::InconsistentEntries => "inconsistent entries",
            ErrorKind::MissingRootManifest => "missing root manifest",
            ErrorKind::ConflictingFileNode => "conflicting filenode",
            ErrorKind::DuplicateChangeset => "duplicate changeset",
            ErrorKind::ParentsFailed => "parents failed",
            ErrorKind::CycleDetected => "cycle detected",
            ErrorKind::SerializationFailed => "serialization failed",
            ErrorKind::BookmarkConflict => "bookmark conflict",
        }
    }
}

/// Failure to load a typed object through a blobstore.
#[derive(Debug)]
pub enum LoadableError {
    /// The underlying blobstore failed.
    Error(ErrorKind),
    /// The blob under the given key is absent.
    Missing(String),
}

} // verus!
