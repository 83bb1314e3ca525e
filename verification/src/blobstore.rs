//! The untyped content-addressed blobstore and its in-memory variants.
//!
//! A blobstore maps keys to immutable byte values. A `put` is atomic: it
//! either makes the full value observable or nothing. Absence is not an error
//! from `get`; backend failures surface as errors. The in-memory store backs
//! tests and small repositories; the failing wrapper injects write faults to
//! exercise failure handling in the commit pipeline.

use vstd::prelude::*;

use crate::errors::ErrorKind;

verus! {

/// Bytes written to or read from a blobstore.
pub struct BlobstoreBytes {
    bytes: Vec<u8>,
}

impl View for BlobstoreBytes {
    type V = Seq<u8>;

    closed spec fn view(&self) -> Seq<u8> {
        self.bytes@
    }
}

impl BlobstoreBytes {
    pub fn len(&self) -> (r: usize)
        ensures
            r == self@.len(),
    {
        self.bytes.len()
    }

    pub fn from_bytes(bytes: Vec<u8>) -> (r: Self)
        ensures
            r@ == bytes@,
    {
        BlobstoreBytes { bytes }
    }

    pub fn into_bytes(self) -> (r: Vec<u8>)
        ensures
            r@ == self@,
    {
        self.bytes
    }

    pub fn as_bytes(&self) -> (r: &Vec<u8>)
        ensures
            r@ == self@,
    {
        &self.bytes
    }
}

impl Clone for BlobstoreBytes {
    fn clone(&self) -> (r: Self)
        ensures
            r@ == self@,
    {
        let bytes = crate::codec::subvec(&self.bytes, 0, self.bytes.len());
        assert(bytes@ =~= self.bytes@);
        BlobstoreBytes { bytes }
    }
}

/// The blobstore interface, shared across all blobstores.
///
/// `contents` is the full key-to-value mapping the store holds. A successful
/// `put` makes the value durably observable to every later `get` of the key;
/// a failed `put` changes nothing observable. `get` reports absence as
/// `Ok(None)`, never as an error.
pub trait Blobstore: Sized {
    /// The key→value contents of the store.
    spec fn contents(&self) -> Map<Seq<u8>, Seq<u8>>;

    /// Fetch the value associated with `key`, or `None` if no value is present.
    ///
    /// Absence is reported as `Ok(None)`, never as an error: a failing `get`
    /// signals a backend fault, so it may not carry the `NotFound` kind.
    fn get(&self, key: &Vec<u8>) -> (r: Result<Option<BlobstoreBytes>, ErrorKind>)
        ensures
            match r {
                Ok(Some(v)) => self.contents().contains_key(key@) && v@ == self.contents()[key@],
                Ok(None) => !self.contents().contains_key(key@),
                Err(e) => !(e is NotFound),
            },
    ;

    /// Associate `value` with `key` for future gets.
    fn put(&mut self, key: Vec<u8>, value: BlobstoreBytes) -> (r: Result<(), ErrorKind>)
        ensures
            match r {
                Ok(_) => final(self).contents() == old(self).contents().insert(key@, value@),
                Err(_) => final(self).contents() == old(self).contents(),
            },
    ;

    /// Check that `get` would return a value for `key`, and not `None`.
    fn is_present(&self, key: &Vec<u8>) -> (r: Result<bool, ErrorKind>)
        ensures
            match r {
                Ok(b) => b == self.contents().contains_key(key@),
                Err(e) => !(e is NotFound),
            },
    {
        match self.get(key) {
            Ok(Some(_)) => Ok(true),
            Ok(None) => Ok(false),
            Err(e) => Err(e),
        }
    }

    /// Error if `key` is not present in the blobstore.
    ///
    /// A `NotFound` answer names the asked-for key and is given only when
    /// the key is truly absent: a present key can at worst fail with a
    /// backend fault.
    fn assert_present(&self, key: &Vec<u8>) -> (r: Result<(), ErrorKind>)
        ensures
            match r {
                Ok(_) => self.contents().contains_key(key@),
                Err(e) => e matches ErrorKind::NotFound(k) ==> k@ == key@
                    && !self.contents().contains_key(key@),
            },
            !self.contents().contains_key(key@) ==> r.is_err(),
    {
        match self.is_present(key) {
            Ok(true) => Ok(()),
            Ok(false) => Err(ErrorKind::NotFound(key.clone())),
            Err(e) => Err(e),
        }
    }
}

/// The mapping denoted by an association sequence, later entries winning.
pub open spec fn assoc_map(s: Seq<(Seq<u8>, Seq<u8>)>) -> Map<Seq<u8>, Seq<u8>>
    decreases s.len(),
{
    if s.len() == 0 {
        Map::empty()
    } else {
        assoc_map(s.drop_last()).insert(s.last().0, s.last().1)
    }
}

/// Appending one pair to an association sequence inserts it into the map.
pub proof fn lemma_assoc_map_take_unfold(s: Seq<(Seq<u8>, Seq<u8>)>, i: int)
    requires
        0 <= i < s.len(),
    ensures
        assoc_map(s.take(i + 1)) == assoc_map(s.take(i)).insert(s[i].0, s[i].1),
{
    assert(s.take(i + 1).drop_last() =~= s.take(i));
    assert(s.take(i + 1).last() == s[i]);
}

/// An eager in-memory blobstore.
pub struct EagerMemblob {
    entries: Vec<(Vec<u8>, BlobstoreBytes)>,
}

impl EagerMemblob {
    /// The entries as a sequence of key/value views.
    pub closed spec fn entries_view(&self) -> Seq<(Seq<u8>, Seq<u8>)> {
        Seq::new(self.entries@.len(), |i: int| (self.entries@[i].0@, self.entries@[i].1@))
    }

    pub fn new() -> (r: Self)
        ensures
            r.contents() == Map::<Seq<u8>, Seq<u8>>::empty(),
    {
        let r = EagerMemblob { entries: Vec::new() };
        proof {
            assert(r.entries_view() =~= Seq::<(Seq<u8>, Seq<u8>)>::empty());
        }
        r
    }
}

impl Blobstore for EagerMemblob {
    closed spec fn contents(&self) -> Map<Seq<u8>, Seq<u8>> {
        assoc_map(self.entries_view())
    }

    fn get(&self, key: &Vec<u8>) -> (r: Result<Option<BlobstoreBytes>, ErrorKind>) {
        let ghost whole = self.entries_view();
        let mut i: usize = self.entries.len();
        proof {
            assert(whole.take(i as int) =~= whole);
        }
        loop
            invariant
                i <= self.entries@.len(),
                whole == self.entries_view(),
                assoc_map(whole).contains_key(key@) == assoc_map(whole.take(i as int)).contains_key(
                    key@,
                ),
                assoc_map(whole).contains_key(key@) ==> assoc_map(whole)[key@] == assoc_map(
                    whole.take(i as int),
                )[key@],
            decreases i,
        {
            if i == 0 {
                proof {
                    assert(whole.take(0) =~= Seq::<(Seq<u8>, Seq<u8>)>::empty());
                }
                return Ok(None);
            }
            i = i - 1;
            proof {
                lemma_assoc_map_take_unfold(whole, i as int);
            }
            if self.entries[i].0 == *key {
                proof {
                    assert(whole[i as int].0 =~= key@);
                }
                return Ok(Some(self.entries[i].1.clone()));
            }
            proof {
                assert(whole[i as int].0 != key@);
            }
        }
    }

    fn put(&mut self, key: Vec<u8>, value: BlobstoreBytes) -> (r: Result<(), ErrorKind>) {
        let ghost pre = self.entries_view();
        let ghost k = key@;
        let ghost v = value@;
        self.entries.push((key, value));
        proof {
            assert(self.entries_view().drop_last() =~= pre);
            assert(self.entries_view().last() == (k, v));
        }
        Ok(())
    }
}

/// A wrapper blobstore that injects write failures, for tests of the commit
/// pipeline's failure handling. Reads pass through; when `fail_writes` is
/// set, every `put` fails and the underlying store is left untouched.
pub struct FailingBlobstore<B: Blobstore> {
    inner: B,
    fail_writes: bool,
}

impl<B: Blobstore> FailingBlobstore<B> {
    pub fn new(inner: B, fail_writes: bool) -> (r: Self)
        ensures
            r.contents() == inner.contents(),
            r.failing() == fail_writes,
    {
        FailingBlobstore { inner, fail_writes }
    }

    /// Whether writes are currently made to fail.
    pub closed spec fn failing(&self) -> bool {
        self.fail_writes
    }

    /// Start or stop injecting write failures.
    pub fn set_fail_writes(&mut self, fail_writes: bool)
        ensures
            final(self).contents() == old(self).contents(),
            final(self).failing() == fail_writes,
    {
        self.fail_writes = fail_writes;
    }
}

impl<B: Blobstore> Blobstore for FailingBlobstore<B> {
    closed spec fn contents(&self) -> Map<Seq<u8>, Seq<u8>> {
        self.inner.contents()
    }

    fn get(&self, key: &Vec<u8>) -> (r: Result<Option<BlobstoreBytes>, ErrorKind>) {
        self.inner.get(key)
    }

    fn put(&mut self, key: Vec<u8>, value: BlobstoreBytes) -> (r: Result<(), ErrorKind>) {
        if self.fail_writes {
            Err(ErrorKind::BackendUnavailable)
        } else {
            self.inner.put(key, value)
        }
    }
}

/// After a successful `put(k, v)`, a `get(k)` answered per the blobstore
/// contract returns `Some(v)`, on every blobstore variant: the contents after
/// the put hold `v` under `k`.
pub proof fn lemma_put_then_get(pre: Map<Seq<u8>, Seq<u8>>, k: Seq<u8>, v: Seq<u8>)
    ensures
        pre.insert(k, v).contains_key(k),
        pre.insert(k, v)[k] == v,
{
}

/// Writes to distinct keys commute: two commits whose blobs live under
/// different keys leave the same store contents whatever order their puts
/// ran in.
pub proof fn lemma_disjoint_puts_commute(
    pre: Map<Seq<u8>, Seq<u8>>,
    k1: Seq<u8>,
    v1: Seq<u8>,
    k2: Seq<u8>,
    v2: Seq<u8>,
)
    requires
        k1 != k2,
    ensures
        pre.insert(k1, v1).insert(k2, v2) == pre.insert(k2, v2).insert(k1, v1),
{
    assert(pre.insert(k1, v1).insert(k2, v2) =~= pre.insert(k2, v2).insert(k1, v1));
}

} // verus!
