//! The changeset blob: the full commit object.
//!
//! A changeset holds its parents, the id of its root manifest, the author,
//! the timestamp, an ordered list of extra key/value pairs, the sorted list
//! of changed files, and the commit message. It is stored as a single blob
//! under its own node key; its node id is the hash of its parents and its
//! encoded bytes.

use vstd::prelude::*;

use crate::codec::{enc_opt_id, u64_le};
use crate::hash::{nodeid_of, opt_id_view, opt_id_wf, NodeId};
use crate::wire::{
    enc_bytes, lemma_read_bytes, lemma_read_id, lemma_read_opt_id, lemma_read_u64, read_bytes_s,
    read_bytes_x, read_id_s, read_id_x, read_opt_id_s, read_opt_id_x, read_u64_s, read_u64_x,
    write_bytes,
};

verus! {

/// The mathematical content of a commit object.
pub struct CsContent {
    pub p1: Option<Seq<u8>>,
    pub p2: Option<Seq<u8>>,
    pub manifest: Seq<u8>,
    pub user: Seq<u8>,
    pub time: u64,
    pub extra: Seq<(Seq<u8>, Seq<u8>)>,
    pub files: Seq<Seq<u8>>,
    pub comments: Seq<u8>,
}

/// A commit object.
pub struct ChangesetContent {
    pub p1: Option<NodeId>,
    pub p2: Option<NodeId>,
    pub manifest_id: NodeId,
    pub user: Vec<u8>,
    pub time: u64,
    pub extra: Vec<(Vec<u8>, Vec<u8>)>,
    pub files: Vec<Vec<u8>>,
    pub comments: Vec<u8>,
}

impl View for ChangesetContent {
    type V = CsContent;

    open spec fn view(&self) -> CsContent {
        CsContent {
            p1: opt_id_view(self.p1),
            p2: opt_id_view(self.p2),
            manifest: self.manifest_id@,
            user: self.user@,
            time: self.time,
            extra: Seq::new(self.extra@.len(), |i: int| (self.extra@[i].0@, self.extra@[i].1@)),
            files: Seq::new(self.files@.len(), |i: int| self.files@[i]@),
            comments: self.comments@,
        }
    }
}

impl ChangesetContent {
    pub open spec fn wf(&self) -> bool {
        &&& opt_id_wf(self.p1)
        &&& opt_id_wf(self.p2)
        &&& self.manifest_id.wf()
    }
}

/// The encoding of a run of extra pairs, in order.
pub open spec fn enc_pairs(pairs: Seq<(Seq<u8>, Seq<u8>)>) -> Seq<u8>
    decreases pairs.len(),
{
    if pairs.len() == 0 {
        Seq::empty()
    } else {
        enc_bytes(pairs[0].0) + enc_bytes(pairs[0].1) + enc_pairs(pairs.skip(1))
    }
}

/// The encoding of a run of paths, in order.
pub open spec fn enc_paths(paths: Seq<Seq<u8>>) -> Seq<u8>
    decreases paths.len(),
{
    if paths.len() == 0 {
        Seq::empty()
    } else {
        enc_bytes(paths[0]) + enc_paths(paths.skip(1))
    }
}

/// The canonical encoding of a commit object.
pub open spec fn changeset_enc(c: CsContent) -> Seq<u8> {
    enc_opt_id(c.p1) + enc_opt_id(c.p2) + c.manifest + enc_bytes(c.user) + u64_le(c.time) + u64_le(
        c.extra.len() as u64,
    ) + enc_pairs(c.extra) + u64_le(c.files.len() as u64) + enc_paths(c.files) + enc_bytes(
        c.comments,
    )
}

/// Read `n` extra pairs starting at `pos`.
pub open spec fn read_pairs_s(s: Seq<u8>, pos: int, n: int) -> Option<
    (Seq<(Seq<u8>, Seq<u8>)>, int),
>
    decreases n,
{
    if n <= 0 {
        Some((Seq::empty(), pos))
    } else {
        match read_bytes_s(s, pos) {
            Some((k, p1)) => match read_bytes_s(s, p1) {
                Some((v, p2)) => match read_pairs_s(s, p2, n - 1) {
                    Some((rest, end)) => Some((seq![(k, v)] + rest, end)),
                    None => None,
                },
                None => None,
            },
            None => None,
        }
    }
}

/// Read `n` paths starting at `pos`.
pub open spec fn read_paths_s(s: Seq<u8>, pos: int, n: int) -> Option<(Seq<Seq<u8>>, int)>
    decreases n,
{
    if n <= 0 {
        Some((Seq::empty(), pos))
    } else {
        match read_bytes_s(s, pos) {
            Some((b, p)) => match read_paths_s(s, p, n - 1) {
                Some((rest, end)) => Some((seq![b] + rest, end)),
                None => None,
            },
            None => None,
        }
    }
}

/// The decoding of a commit blob, or `None` when the bytes are not a
/// canonical encoding.
pub open spec fn changeset_dec(s: Seq<u8>) -> Option<CsContent> {
    match read_opt_id_s(s, 0) {
        Some((p1, a)) => match read_opt_id_s(s, a) {
            Some((p2, b)) => match read_id_s(s, b) {
                Some((manifest, c)) => match read_bytes_s(s, c) {
                    Some((user, d)) => match read_u64_s(s, d) {
                        Some((time, e)) => match read_u64_s(s, e) {
                            Some((npairs, f)) => match read_pairs_s(s, f, npairs as int) {
                                Some((extra, g)) => match read_u64_s(s, g) {
                                    Some((npaths, h)) => match read_paths_s(s, h, npaths as int) {
                                        Some((files, i)) => match read_bytes_s(s, i) {
                                            Some((comments, end)) => {
                                                if end == s.len() {
                                                    Some(
                                                        CsContent {
                                                            p1,
                                                            p2,
                                                            manifest,
                                                            user,
                                                            time,
                                                            extra,
                                                            files,
                                                            comments,
                                                        },
                                                    )
                                                } else {
                                                    None
                                                }
                                            },
                                            None => None,
                                        },
                                        None => None,
                                    },
                                    None => None,
                                },
                                None => None,
                            },
                            None => None,
                        },
                        None => None,
                    },
                    None => None,
                },
                None => None,
            },
            None => None,
        },
        None => None,
    }
}

/// Reading where a run of pairs was encoded returns the pairs.
#[verifier::rlimit(80)]
pub proof fn lemma_read_pairs(pre: Seq<u8>, pairs: Seq<(Seq<u8>, Seq<u8>)>, rest: Seq<u8>)
    requires
        forall|i: int| 0 <= i < pairs.len() ==> (#[trigger] pairs[i]).0.len() <= u64::MAX
            && pairs[i].1.len() <= u64::MAX,
    ensures
        read_pairs_s(pre + enc_pairs(pairs) + rest, pre.len() as int, pairs.len() as int) == Some(
            (pairs, pre.len() + enc_pairs(pairs).len() as int),
        ),
    decreases pairs.len(),
{
    let s = pre + enc_pairs(pairs) + rest;
    if pairs.len() == 0 {
        assert(s =~= pre + rest);
        assert(pairs =~= Seq::<(Seq<u8>, Seq<u8>)>::empty());
    } else {
        let k = pairs[0].0;
        let v = pairs[0].1;
        let tail = pairs.skip(1);
        assert(s =~= pre + enc_bytes(k) + (enc_bytes(v) + enc_pairs(tail) + rest));
        lemma_read_bytes(pre, k, enc_bytes(v) + enc_pairs(tail) + rest);
        assert(s =~= (pre + enc_bytes(k)) + enc_bytes(v) + (enc_pairs(tail) + rest));
        lemma_read_bytes(pre + enc_bytes(k), v, enc_pairs(tail) + rest);
        assert(s =~= ((pre + enc_bytes(k)) + enc_bytes(v)) + enc_pairs(tail) + rest);
        assert(forall|i: int|
            0 <= i < tail.len() ==> (#[trigger] tail[i]).0.len() <= u64::MAX && tail[i].1.len()
                <= u64::MAX) by {
            assert(forall|i: int| 0 <= i < tail.len() ==> tail[i] == pairs[i + 1]);
        }
        lemma_read_pairs((pre + enc_bytes(k)) + enc_bytes(v), tail, rest);
        assert(seq![(k, v)] + tail =~= pairs);
    }
}

/// Reading where a run of paths was encoded returns the paths.
#[verifier::rlimit(80)]
pub proof fn lemma_read_paths(pre: Seq<u8>, paths: Seq<Seq<u8>>, rest: Seq<u8>)
    requires
        forall|i: int| 0 <= i < paths.len() ==> (#[trigger] paths[i]).len() <= u64::MAX,
    ensures
        read_paths_s(pre + enc_paths(paths) + rest, pre.len() as int, paths.len() as int) == Some(
            (paths, pre.len() + enc_paths(paths).len() as int),
        ),
    decreases paths.len(),
{
    let s = pre + enc_paths(paths) + rest;
    if paths.len() == 0 {
        assert(s =~= pre + rest);
        assert(paths =~= Seq::<Seq<u8>>::empty());
    } else {
        let b = paths[0];
        let tail = paths.skip(1);
        assert(s =~= pre + enc_bytes(b) + (enc_paths(tail) + rest));
        lemma_read_bytes(pre, b, enc_paths(tail) + rest);
        assert(s =~= (pre + enc_bytes(b)) + enc_paths(tail) + rest);
        assert(forall|i: int| 0 <= i < tail.len() ==> (#[trigger] tail[i]).len() <= u64::MAX) by {
            assert(forall|i: int| 0 <= i < tail.len() ==> tail[i] == paths[i + 1]);
        }
        lemma_read_paths(pre + enc_bytes(b), tail, rest);
        assert(seq![b] + tail =~= paths);
    }
}

/// Whether a commit object's sizes fit the wire format's counters.
pub open spec fn cs_sizes_ok(c: CsContent) -> bool {
    &&& (c.p1 matches Some(s) ==> s.len() == 20)
    &&& (c.p2 matches Some(s) ==> s.len() == 20)
    &&& c.manifest.len() == 20
    &&& c.user.len() <= u64::MAX
    &&& c.comments.len() <= u64::MAX
    &&& c.extra.len() <= u64::MAX
    &&& c.files.len() <= u64::MAX
    &&& forall|i: int| 0 <= i < c.extra.len() ==> (#[trigger] c.extra[i]).0.len() <= u64::MAX
        && c.extra[i].1.len() <= u64::MAX
    &&& forall|i: int| 0 <= i < c.files.len() ==> (#[trigger] c.files[i]).len() <= u64::MAX
}

/// Decoding a commit blob encoding returns exactly the encoded commit,
/// extras in their stored order and changed files in their stored order.
#[verifier::rlimit(100)]
#[verifier::spinoff_prover]
pub proof fn lemma_changeset_roundtrip(c: CsContent)
    requires
        cs_sizes_ok(c),
    ensures
        changeset_dec(changeset_enc(c)) == Some(c),
{
    let s = changeset_enc(c);
    let r0: Seq<u8> = enc_opt_id(c.p2) + c.manifest + enc_bytes(c.user) + u64_le(c.time) + u64_le(
        c.extra.len() as u64,
    ) + enc_pairs(c.extra) + u64_le(c.files.len() as u64) + enc_paths(c.files) + enc_bytes(
        c.comments,
    );
    assert(s =~= Seq::<u8>::empty() + enc_opt_id(c.p1) + r0);
    lemma_read_opt_id(Seq::empty(), c.p1, r0);
    let pre1 = Seq::<u8>::empty() + enc_opt_id(c.p1);
    let r1: Seq<u8> = c.manifest + enc_bytes(c.user) + u64_le(c.time) + u64_le(
        c.extra.len() as u64,
    ) + enc_pairs(c.extra) + u64_le(c.files.len() as u64) + enc_paths(c.files) + enc_bytes(
        c.comments,
    );
    assert(s =~= pre1 + enc_opt_id(c.p2) + r1);
    lemma_read_opt_id(pre1, c.p2, r1);
    let pre2 = pre1 + enc_opt_id(c.p2);
    let r2: Seq<u8> = enc_bytes(c.user) + u64_le(c.time) + u64_le(c.extra.len() as u64)
        + enc_pairs(c.extra) + u64_le(c.files.len() as u64) + enc_paths(c.files) + enc_bytes(
        c.comments,
    );
    assert(s =~= pre2 + c.manifest + r2);
    lemma_read_id(pre2, c.manifest, r2);
    let pre3 = pre2 + c.manifest;
    let r3: Seq<u8> = u64_le(c.time) + u64_le(c.extra.len() as u64) + enc_pairs(c.extra) + u64_le(
        c.files.len() as u64,
    ) + enc_paths(c.files) + enc_bytes(c.comments);
    assert(s =~= pre3 + enc_bytes(c.user) + r3);
    lemma_read_bytes(pre3, c.user, r3);
    let pre4 = pre3 + enc_bytes(c.user);
    let r4: Seq<u8> = u64_le(c.extra.len() as u64) + enc_pairs(c.extra) + u64_le(
        c.files.len() as u64,
    ) + enc_paths(c.files) + enc_bytes(c.comments);
    assert(s =~= pre4 + u64_le(c.time) + r4);
    lemma_read_u64(pre4, c.time, r4);
    let pre5 = pre4 + u64_le(c.time);
    let r5: Seq<u8> = enc_pairs(c.extra) + u64_le(c.files.len() as u64) + enc_paths(c.files)
        + enc_bytes(c.comments);
    assert(s =~= pre5 + u64_le(c.extra.len() as u64) + r5);
    lemma_read_u64(pre5, c.extra.len() as u64, r5);
    let pre6 = pre5 + u64_le(c.extra.len() as u64);
    let r6: Seq<u8> = u64_le(c.files.len() as u64) + enc_paths(c.files) + enc_bytes(c.comments);
    assert(s =~= pre6 + enc_pairs(c.extra) + r6);
    lemma_read_pairs(pre6, c.extra, r6);
    let pre7 = pre6 + enc_pairs(c.extra);
    let r7: Seq<u8> = enc_paths(c.files) + enc_bytes(c.comments);
    assert(s =~= pre7 + u64_le(c.files.len() as u64) + r7);
    lemma_read_u64(pre7, c.files.len() as u64, r7);
    let pre8 = pre7 + u64_le(c.files.len() as u64);
    let r8: Seq<u8> = enc_bytes(c.comments);
    assert(s =~= pre8 + enc_paths(c.files) + r8);
    lemma_read_paths(pre8, c.files, r8);
    let pre9 = pre8 + enc_paths(c.files);
    assert(s =~= pre9 + enc_bytes(c.comments) + Seq::<u8>::empty());
    lemma_read_bytes(pre9, c.comments, Seq::empty());
}

/// Appending one pair extends the pair encoding at the back.
pub proof fn lemma_enc_pairs_snoc(pairs: Seq<(Seq<u8>, Seq<u8>)>, e: (Seq<u8>, Seq<u8>))
    ensures
        enc_pairs(pairs.push(e)) == enc_pairs(pairs) + enc_bytes(e.0) + enc_bytes(e.1),
    decreases pairs.len(),
{
    if pairs.len() == 0 {
        let p = pairs.push(e);
        assert(p[0] == e);
        assert(p.skip(1) =~= Seq::<(Seq<u8>, Seq<u8>)>::empty());
        assert(enc_pairs(p.skip(1)) == Seq::<u8>::empty());
        assert(enc_pairs(p) == enc_bytes(e.0) + enc_bytes(e.1) + Seq::<u8>::empty());
        assert(enc_pairs(pairs) == Seq::<u8>::empty());
        assert(enc_bytes(e.0) + enc_bytes(e.1) + Seq::<u8>::empty() =~= Seq::<u8>::empty()
            + enc_bytes(e.0) + enc_bytes(e.1));
    } else {
        assert(pairs.push(e)[0] == pairs[0]);
        assert(pairs.push(e).skip(1) =~= pairs.skip(1).push(e));
        lemma_enc_pairs_snoc(pairs.skip(1), e);
        assert(enc_pairs(pairs.push(e)) =~= enc_pairs(pairs) + enc_bytes(e.0) + enc_bytes(e.1));
    }
}

/// Appending one path extends the path encoding at the back.
pub proof fn lemma_enc_paths_snoc(paths: Seq<Seq<u8>>, b: Seq<u8>)
    ensures
        enc_paths(paths.push(b)) == enc_paths(paths) + enc_bytes(b),
    decreases paths.len(),
{
    if paths.len() == 0 {
        let p = paths.push(b);
        assert(p[0] == b);
        assert(p.skip(1) =~= Seq::<Seq<u8>>::empty());
        assert(enc_paths(p.skip(1)) == Seq::<u8>::empty());
        assert(enc_paths(p) == enc_bytes(b) + Seq::<u8>::empty());
        assert(enc_paths(paths) == Seq::<u8>::empty());
        assert(enc_bytes(b) + Seq::<u8>::empty() =~= Seq::<u8>::empty() + enc_bytes(b));
    } else {
        assert(paths.push(b)[0] == paths[0]);
        assert(paths.push(b).skip(1) =~= paths.skip(1).push(b));
        lemma_enc_paths_snoc(paths.skip(1), b);
        assert(enc_paths(paths.push(b)) =~= enc_paths(paths) + enc_bytes(b));
    }
}

impl ChangesetContent {
    /// Serialize the commit object into its canonical form.
    pub fn encode(&self) -> (r: Vec<u8>)
        requires
            self.wf(),
        ensures
            r@ == changeset_enc(self@),
    {
        let ghost c = self@;
        let mut out: Vec<u8> = Vec::new();
        crate::codec::push_opt_id(&mut out, &self.p1);
        crate::codec::push_opt_id(&mut out, &self.p2);
        crate::hash::append_bytes(&mut out, self.manifest_id.as_bytes());
        write_bytes(&mut out, &self.user);
        crate::codec::write_u64(&mut out, self.time);
        crate::codec::write_u64(&mut out, self.extra.len() as u64);
        let ghost head = out@;
        let mut i: usize = 0;
        proof {
            assert(c.extra.take(0) =~= Seq::<(Seq<u8>, Seq<u8>)>::empty());
            assert(out@ =~= head + enc_pairs(c.extra.take(0)));
        }
        while i < self.extra.len()
            invariant
                i <= self.extra@.len(),
                c == self@,
                c.extra.len() == self.extra@.len(),
                out@ == head + enc_pairs(c.extra.take(i as int)),
            decreases self.extra@.len() - i,
        {
            let ghost pre = out@;
            write_bytes(&mut out, &self.extra[i].0);
            write_bytes(&mut out, &self.extra[i].1);
            proof {
                let item = c.extra[i as int];
                assert(out@ =~= pre + enc_bytes(item.0) + enc_bytes(item.1));
                lemma_enc_pairs_snoc(c.extra.take(i as int), item);
                assert(c.extra.take(i as int).push(item) =~= c.extra.take(i as int + 1));
            }
            i = i + 1;
        }
        proof {
            assert(c.extra.take(c.extra.len() as int) =~= c.extra);
        }
        crate::codec::write_u64(&mut out, self.files.len() as u64);
        let ghost head2 = out@;
        let mut j: usize = 0;
        proof {
            assert(c.files.take(0) =~= Seq::<Seq<u8>>::empty());
            assert(out@ =~= head2 + enc_paths(c.files.take(0)));
        }
        while j < self.files.len()
            invariant
                j <= self.files@.len(),
                c == self@,
                c.files.len() == self.files@.len(),
                out@ == head2 + enc_paths(c.files.take(j as int)),
            decreases self.files@.len() - j,
        {
            let ghost pre = out@;
            write_bytes(&mut out, &self.files[j]);
            proof {
                let item = c.files[j as int];
                assert(out@ =~= pre + enc_bytes(item));
                lemma_enc_paths_snoc(c.files.take(j as int), item);
                assert(c.files.take(j as int).push(item) =~= c.files.take(j as int + 1));
            }
            j = j + 1;
        }
        proof {
            assert(c.files.take(c.files.len() as int) =~= c.files);
        }
        write_bytes(&mut out, &self.comments);
        proof {
            assert(out@ =~= changeset_enc(c));
        }
        out
    }

    /// Parse a canonical commit blob.
    #[verifier::loop_isolation(false)]
    pub fn decode(data: &Vec<u8>) -> (r: Option<ChangesetContent>)
        ensures
            match r {
                Some(cs) => cs.wf() && changeset_dec(data@) == Some(cs@),
                None => changeset_dec(data@) is None,
            },
    {
        let (p1, a) = match read_opt_id_x(data, 0) {
            Some(x) => x,
            None => {
                return None;
            },
        };
        let (p2, b) = match read_opt_id_x(data, a) {
            Some(x) => x,
            None => {
                return None;
            },
        };
        let (manifest_id, c) = match read_id_x(data, b) {
            Some(x) => x,
            None => {
                return None;
            },
        };
        let (user, d) = match read_bytes_x(data, c) {
            Some(x) => x,
            None => {
                return None;
            },
        };
        let (time, e) = match read_u64_x(data, d) {
            Some(x) => x,
            None => {
                return None;
            },
        };
        let (npairs, f) = match read_u64_x(data, e) {
            Some(x) => x,
            None => {
                return None;
            },
        };
        let mut extra: Vec<(Vec<u8>, Vec<u8>)> = Vec::new();
        let mut pos: usize = f;
        let mut i: u64 = 0;
        proof {
            assert(Seq::new(extra@.len(), |q: int| (extra@[q].0@, extra@[q].1@)) =~= Seq::<
                (Seq<u8>, Seq<u8>),
            >::empty());
            match read_pairs_s(data@, f as int, npairs as int) {
                Some((rest, end)) => {
                    assert(Seq::<(Seq<u8>, Seq<u8>)>::empty() + rest =~= rest);
                },
                None => {
                },
            }
        }
        while i < npairs
            invariant
                i <= npairs,
                extra@.len() == i,
                match read_pairs_s(data@, pos as int, npairs - i) {
                    Some((rest, end)) => read_pairs_s(data@, f as int, npairs as int) == Some(
                        (Seq::new(extra@.len(), |q: int| (extra@[q].0@, extra@[q].1@)) + rest, end),
                    ),
                    None => read_pairs_s(data@, f as int, npairs as int) is None,
                },
            decreases npairs - i,
        {
            let ghost sofar = Seq::new(extra@.len(), |q: int| (extra@[q].0@, extra@[q].1@));
            let (k, q1) = match read_bytes_x(data, pos) {
                Some(x) => x,
                None => {
                    return None;
                },
            };
            let (v, q2) = match read_bytes_x(data, q1) {
                Some(x) => x,
                None => {
                    return None;
                },
            };
            let ghost kv = (k@, v@);
            extra.push((k, v));
            proof {
                let news = Seq::new(extra@.len(), |q: int| (extra@[q].0@, extra@[q].1@));
                assert(news =~= sofar.push(kv));
                match read_pairs_s(data@, q2 as int, npairs - i - 1) {
                    Some((rest, end)) => {
                        assert(seq![kv] + rest =~= news.skip(sofar.len() as int) + rest) by {
                            assert(news.skip(sofar.len() as int) =~= seq![kv]);
                        }
                        assert(sofar + (seq![kv] + rest) =~= news + rest);
                    },
                    None => {
                    },
                }
            }
            pos = q2;
            i = i + 1;
        }
        proof {
            assert(read_pairs_s(data@, pos as int, 0) == Some(
                (Seq::<(Seq<u8>, Seq<u8>)>::empty(), pos as int),
            ));
            let done = Seq::new(extra@.len(), |q: int| (extra@[q].0@, extra@[q].1@));
            assert(done + Seq::<(Seq<u8>, Seq<u8>)>::empty() =~= done);
        }
        let (npaths, h) = match read_u64_x(data, pos) {
            Some(x) => x,
            None => {
                return None;
            },
        };
        let mut files: Vec<Vec<u8>> = Vec::new();
        let mut pos2: usize = h;
        let mut j: u64 = 0;
        proof {
            assert(Seq::new(files@.len(), |q: int| files@[q]@) =~= Seq::<Seq<u8>>::empty());
            match read_paths_s(data@, h as int, npaths as int) {
                Some((rest, end)) => {
                    assert(Seq::<Seq<u8>>::empty() + rest =~= rest);
                },
                None => {
                },
            }
        }
        while j < npaths
            invariant
                j <= npaths,
                files@.len() == j,
                match read_paths_s(data@, pos2 as int, npaths - j) {
                    Some((rest, end)) => read_paths_s(data@, h as int, npaths as int) == Some(
                        (Seq::new(files@.len(), |q: int| files@[q]@) + rest, end),
                    ),
                    None => read_paths_s(data@, h as int, npaths as int) is None,
                },
            decreases npaths - j,
        {
            let ghost sofar = Seq::new(files@.len(), |q: int| files@[q]@);
            let (bpath, q1) = match read_bytes_x(data, pos2) {
                Some(x) => x,
                None => {
                    return None;
                },
            };
            let ghost bv = bpath@;
            files.push(bpath);
            proof {
                let news = Seq::new(files@.len(), |q: int| files@[q]@);
                assert(news =~= sofar.push(bv));
                match read_paths_s(data@, q1 as int, npaths - j - 1) {
                    Some((rest, end)) => {
                        assert(seq![bv] + rest =~= news.skip(sofar.len() as int) + rest) by {
                            assert(news.skip(sofar.len() as int) =~= seq![bv]);
                        }
                        assert(sofar + (seq![bv] + rest) =~= news + rest);
                    },
                    None => {
                    },
                }
            }
            pos2 = q1;
            j = j + 1;
        }
        proof {
            assert(read_paths_s(data@, pos2 as int, 0) == Some(
                (Seq::<Seq<u8>>::empty(), pos2 as int),
            ));
            let done = Seq::new(files@.len(), |q: int| files@[q]@);
            assert(done + Seq::<Seq<u8>>::empty() =~= done);
        }
        let (comments, end) = match read_bytes_x(data, pos2) {
            Some(x) => x,
            None => {
                return None;
            },
        };
        if end != data.len() {
            return None;
        }
        let cs = ChangesetContent { p1, p2, manifest_id, user, time, extra, files, comments };
        proof {
            assert(changeset_dec(data@) == Some(cs@));
        }
        Some(cs)
    }
}

/// The node id a commit object hashes to: the hash of its parents and its
/// canonical encoding.
pub open spec fn cs_id_of(c: CsContent) -> Seq<u8> {
    nodeid_of(c.p1, c.p2, changeset_enc(c))
}

/// Whether a store holds, under `id`, a commit exactly as `save` writes it:
/// a node record that decodes, whose digest addresses a present blob, whose
/// bytes decode to a commit that hashes back to `id` and to that digest.
pub open spec fn changeset_loadable(store: Map<Seq<u8>, Seq<u8>>, id: Seq<u8>) -> bool {
    &&& store.contains_key(crate::hash::node_key_view(id))
    &&& (crate::codec::node_blob_dec(store[crate::hash::node_key_view(id)]) matches Some(
        (_, _, sha),
    ) && {
        &&& store.contains_key(crate::hash::blob_key_view(sha))
        &&& (changeset_dec(store[crate::hash::blob_key_view(sha)]) matches Some(c) && cs_id_of(c)
            == id && crate::hash::sha1_of(changeset_enc(c)) == sha)
    })
}

/// A commit object together with its computed node id.
pub struct BlobChangeset {
    content: ChangesetContent,
    cs_id: NodeId,
}

impl BlobChangeset {
    /// The commit object this blob denotes.
    pub closed spec fn content_view(&self) -> CsContent {
        self.content@
    }

    /// The commit's node id.
    pub closed spec fn id_view(&self) -> Seq<u8> {
        self.cs_id@
    }

    pub open spec fn wf(&self) -> bool {
        &&& (self.content_view().p1 matches Some(s) ==> s.len() == 20)
        &&& (self.content_view().p2 matches Some(s) ==> s.len() == 20)
        &&& self.content_view().manifest.len() == 20
        &&& self.id_view() == cs_id_of(self.content_view())
        &&& self.id_view().len() == 20
    }

    /// Build the commit blob for a commit object, computing its id.
    pub fn new(content: ChangesetContent) -> (r: BlobChangeset)
        requires
            content.wf(),
        ensures
            r.wf(),
            r.content_view() == content@,
            r.id_view() == cs_id_of(content@),
    {
        let enc = content.encode();
        let cs_id = crate::hash::compute_nodeid(&content.p1, &content.p2, &enc);
        BlobChangeset { content, cs_id }
    }

    /// The commit's node id.
    pub fn get_changeset_id(&self) -> (r: NodeId)
        ensures
            r@ == self.id_view(),
            self.wf() ==> r.wf(),
    {
        self.cs_id.clone()
    }

    /// The id of the commit's root manifest.
    pub fn manifestid(&self) -> (r: NodeId)
        ensures
            r@ == self.content_view().manifest,
            self.wf() ==> r.wf(),
    {
        self.content.manifest_id.clone()
    }

    /// The commit object.
    pub fn content(&self) -> (r: &ChangesetContent)
        ensures
            r@ == self.content_view(),
    {
        &self.content
    }

    /// The present parents, first slot first; identical parents give two
    /// entries.
    pub fn parents(&self) -> (r: Vec<NodeId>)
        ensures
            r@.len() <= 2,
            parent_ids_view(r@) == present_parents(self.content_view()),
            self.wf() ==> forall|i: int| 0 <= i < r@.len() ==> (#[trigger] r@[i]).wf(),
    {
        let mut out: Vec<NodeId> = Vec::new();
        match &self.content.p1 {
            Some(p) => {
                out.push(p.clone());
            },
            None => (),
        }
        match &self.content.p2 {
            Some(p) => {
                out.push(p.clone());
            },
            None => (),
        }
        proof {
            assert(parent_ids_view(out@) =~= present_parents(self.content_view()));
        }
        out
    }

    /// Write the commit to a blobstore: the content blob under its digest
    /// key, then the raw node record under the commit's node key.
    ///
    /// On failure, at most the content blob has been written; the node
    /// record never precedes its blob.
    pub fn save<B: crate::blobstore::Blobstore>(&self, store: &mut B) -> (r: Result<
        (),
        crate::errors::ErrorKind,
    >)
        requires
            self.wf(),
        ensures
            match r {
                Ok(_) => final(store).contents() == old(store).contents().insert(
                    crate::hash::blob_key_view(crate::hash::sha1_of(changeset_enc(self.content_view()))),
                    changeset_enc(self.content_view()),
                ).insert(
                    crate::hash::node_key_view(self.id_view()),
                    crate::codec::node_blob_enc(
                        self.content_view().p1,
                        self.content_view().p2,
                        crate::hash::sha1_of(changeset_enc(self.content_view())),
                    ),
                ),
                Err(_) => final(store).contents() == old(store).contents() || final(store).contents()
                    == old(store).contents().insert(
                    crate::hash::blob_key_view(crate::hash::sha1_of(changeset_enc(self.content_view()))),
                    changeset_enc(self.content_view()),
                ),
            },
    {
        let enc = self.content.encode();
        let sha = crate::hash::sha1_digest(&enc);
        let blob_key = crate::hash::get_blob_key(&sha);
        match store.put(blob_key, crate::blobstore::BlobstoreBytes::from_bytes(enc)) {
            Ok(_) => (),
            Err(e) => {
                return Err(e);
            },
        }
        let record = crate::codec::NodeBlob::new(
            crate::hash::Parents::new(
                crate::hash::clone_opt_id(&self.content.p1),
                crate::hash::clone_opt_id(&self.content.p2),
            ),
            sha,
        );
        let node_key = crate::hash::get_node_key(&self.cs_id);
        match store.put(node_key, crate::blobstore::BlobstoreBytes::from_bytes(record.encode())) {
            Ok(_) => Ok(()),
            Err(e) => Err(e),
        }
    }

    /// Read a commit back from a blobstore by its node id.
    ///
    /// Returns `Ok(None)` when no node record exists for the id. Fails with
    /// `SerializationFailed` exactly when a node record exists but the
    /// stored bytes are not a commit written by `save` under this id; a
    /// backend fault surfaces as `BackendUnavailable`, so a loadable commit
    /// can fail for no other reason.
    pub fn load<B: crate::blobstore::Blobstore>(store: &B, cs_id: &NodeId) -> (r: Result<
        Option<BlobChangeset>,
        crate::errors::ErrorKind,
    >)
        ensures
            match r {
                Ok(Some(bc)) => {
                    &&& bc.wf()
                    &&& bc.id_view() == cs_id@
                    &&& store.contents().contains_key(crate::hash::node_key_view(cs_id@))
                    &&& (crate::codec::node_blob_dec(
                        store.contents()[crate::hash::node_key_view(cs_id@)],
                    ) matches Some((_, _, sha)) && sha == crate::hash::sha1_of(
                        changeset_enc(bc.content_view()),
                    ))
                    &&& store.contents().contains_key(
                        crate::hash::blob_key_view(
                            crate::hash::sha1_of(changeset_enc(bc.content_view())),
                        ),
                    )
                    &&& changeset_dec(
                        store.contents()[crate::hash::blob_key_view(
                            crate::hash::sha1_of(changeset_enc(bc.content_view())),
                        )],
                    ) == Some(bc.content_view())
                },
                Ok(None) => !store.contents().contains_key(crate::hash::node_key_view(cs_id@)),
                Err(e) => match e {
                    crate::errors::ErrorKind::SerializationFailed => store.contents().contains_key(
                        crate::hash::node_key_view(cs_id@),
                    ) && !changeset_loadable(store.contents(), cs_id@),
                    crate::errors::ErrorKind::BackendUnavailable => true,
                    _ => false,
                },
            },
    {
        let node_key = crate::hash::get_node_key(cs_id);
        let record_bytes = match store.get(&node_key) {
            Ok(Some(b)) => b,
            Ok(None) => {
                return Ok(None);
            },
            Err(_) => {
                return Err(crate::errors::ErrorKind::BackendUnavailable);
            },
        };
        let record = match crate::codec::NodeBlob::decode(record_bytes.as_bytes()) {
            Some(nb) => nb,
            None => {
                return Err(crate::errors::ErrorKind::SerializationFailed);
            },
        };
        let blob_key = crate::hash::get_blob_key(&record.blob);
        let blob = match store.get(&blob_key) {
            Ok(Some(b)) => b,
            Ok(None) => {
                return Err(crate::errors::ErrorKind::SerializationFailed);
            },
            Err(_) => {
                return Err(crate::errors::ErrorKind::BackendUnavailable);
            },
        };
        let content = match ChangesetContent::decode(blob.as_bytes()) {
            Some(c) => c,
            None => {
                return Err(crate::errors::ErrorKind::SerializationFailed);
            },
        };
        let bc = BlobChangeset::new(content);
        let computed = bc.get_changeset_id();
        let same = &computed == cs_id;
        if !same {
            return Err(crate::errors::ErrorKind::SerializationFailed);
        }
        let enc = bc.content.encode();
        let sha = crate::hash::sha1_digest(&enc);
        let same_sha = sha == record.blob;
        if !same_sha {
            return Err(crate::errors::ErrorKind::SerializationFailed);
        }
        proof {
            if sha@ =~= record.blob@ {
                assert(sha@ == record.blob@);
            }
        }
        Ok(Some(bc))
    }
}

/// The views of a list of node ids.
pub open spec fn parent_ids_view(s: Seq<NodeId>) -> Seq<Seq<u8>> {
    Seq::new(s.len(), |i: int| s[i]@)
}

/// The present parent ids of a commit object, first slot first.
pub open spec fn present_parents(c: CsContent) -> Seq<Seq<u8>> {
    match (c.p1, c.p2) {
        (Some(a), Some(b)) => seq![a, b],
        (Some(a), None) => seq![a],
        (None, Some(b)) => seq![b],
        (None, None) => seq![],
    }
}

} // verus!
