//! A resumable, deduplicated breadth-first traversal of the commit graph.
//!
//! The stream is seeded with the repository's heads. Each `next` pulls the
//! first unvisited id from the frontier, loads its commit, appends the
//! commit's parents behind the existing frontier — which makes the walk
//! breadth-first — and yields the id. Ids already yielded are skipped, so no
//! commit is yielded twice.

use vstd::prelude::*;

use crate::blobstore::Blobstore;
use crate::changeset::{changeset_dec, present_parents};
use crate::errors::ErrorKind;
use crate::hash::{blob_key_view, node_key_view, NodeId};
use crate::repo::{node_record_of, BlobRepo};

verus! {

/// The present parents of the commit stored under `id`, read off a store.
pub open spec fn cs_parents_of(store: Map<Seq<u8>, Seq<u8>>, id: Seq<u8>) -> Option<Seq<Seq<u8>>> {
    match node_record_of(store, id) {
        Some((_, _, sha)) => {
            if store.contains_key(blob_key_view(sha)) {
                match changeset_dec(store[blob_key_view(sha)]) {
                    Some(content) => Some(present_parents(content)),
                    None => None,
                }
            } else {
                None
            }
        },
        None => None,
    }
}

/// A parent chain through a store: it starts at a seed and each step
/// follows one parent edge as the store shows it.
pub open spec fn is_chain(
    store: Map<Seq<u8>, Seq<u8>>,
    roots: Seq<Seq<u8>>,
    chain: Seq<Seq<u8>>,
) -> bool {
    &&& chain.len() > 0
    &&& roots.contains(chain[0])
    &&& forall|i: int| 0 <= i < chain.len() - 1 ==> (cs_parents_of(store, #[trigger] chain[i])
        matches Some(ps) && ps.contains(chain[i + 1]))
}

/// Whether `x` is reachable from the seeds through parent edges.
pub open spec fn reachable(store: Map<Seq<u8>, Seq<u8>>, roots: Seq<Seq<u8>>, x: Seq<u8>) -> bool {
    exists|chain: Seq<Seq<u8>>| is_chain(store, roots, chain) && chain.last() == x
}

/// A parent of a reachable commit is reachable.
pub proof fn lemma_reachable_step(
    store: Map<Seq<u8>, Seq<u8>>,
    roots: Seq<Seq<u8>>,
    x: Seq<u8>,
    p: Seq<u8>,
)
    requires
        reachable(store, roots, x),
        cs_parents_of(store, x) matches Some(ps) && ps.contains(p),
    ensures
        reachable(store, roots, p),
{
    let chain = choose|chain: Seq<Seq<u8>>| is_chain(store, roots, chain) && chain.last() == x;
    let c2 = chain.push(p);
    assert(c2[0] == chain[0]);
    assert forall|i: int| 0 <= i < c2.len() - 1 implies (cs_parents_of(store, #[trigger] c2[i])
        matches Some(ps) && ps.contains(c2[i + 1])) by {
        if i < chain.len() - 1 {
            assert(c2[i] == chain[i]);
            assert(c2[i + 1] == chain[i + 1]);
        } else {
            assert(c2[i] == chain.last());
            assert(c2[i + 1] == p);
        }
    }
    assert(c2.last() == p);
}

/// A lazy breadth-first walk over the commit graph of one repository.
pub struct BlobChangesetStream {
    frontier: Vec<NodeId>,
    seen: Vec<NodeId>,
    roots: Ghost<Seq<Seq<u8>>>,
}

impl BlobChangesetStream {
    /// The ids waiting to be visited, in order.
    pub closed spec fn frontier_view(&self) -> Seq<Seq<u8>> {
        Seq::new(self.frontier@.len(), |i: int| self.frontier@[i]@)
    }

    /// The ids already visited, in visit order.
    pub closed spec fn seen_view(&self) -> Seq<Seq<u8>> {
        Seq::new(self.seen@.len(), |i: int| self.seen@[i]@)
    }

    /// The seeds the stream was created from.
    pub closed spec fn roots_view(&self) -> Seq<Seq<u8>> {
        self.roots@
    }

    /// Whether every id still on the frontier is reachable from the seeds
    /// through the given store. This holds of a fresh stream for every
    /// store, and each `next` against one store keeps it for that store; a
    /// yield under it is then itself reachable.
    pub open spec fn sound_for(&self, store: Map<Seq<u8>, Seq<u8>>) -> bool {
        forall|i: int| 0 <= i < self.frontier_view().len() ==> reachable(
            store,
            self.roots_view(),
            #[trigger] self.frontier_view()[i],
        )
    }

    /// Whether every visited id's parents, as the given store shows them,
    /// are themselves visited or still on the frontier. This holds of a
    /// fresh stream for every store, and every error-free `next` against
    /// one store keeps it for that store; once the frontier is empty it
    /// closes the visited set under parent edges.
    pub open spec fn complete_for(&self, store: Map<Seq<u8>, Seq<u8>>) -> bool {
        forall|i: int| 0 <= i < self.seen_view().len() ==> (cs_parents_of(
            store,
            #[trigger] self.seen_view()[i],
        ) matches Some(ps) && (forall|j: int|
            0 <= j < ps.len() ==> self.seen_view().contains(#[trigger] ps[j])
                || self.frontier_view().contains(ps[j])))
    }

    /// Visited ids are distinct, every held id is well formed, and every
    /// seed is visited or still on the frontier.
    pub open spec fn wf(&self) -> bool {
        &&& forall|i: int, j: int| 0 <= i < j < self.seen_view().len() ==> self.seen_view()[i]
            != self.seen_view()[j]
        &&& forall|i: int| 0 <= i < self.seen_view().len() ==> (#[trigger] self.seen_view()[i]).len()
            == 20
        &&& forall|i: int| 0 <= i < self.frontier_view().len() ==> (
        #[trigger] self.frontier_view()[i]).len() == 20
        &&& forall|i: int| 0 <= i < self.roots_view().len() ==> self.seen_view().contains(
            #[trigger] self.roots_view()[i],
        ) || self.frontier_view().contains(self.roots_view()[i])
    }

    /// Seed a stream from a list of starting ids, usually the heads.
    pub fn new(frontier: Vec<NodeId>) -> (r: BlobChangesetStream)
        requires
            forall|i: int| 0 <= i < frontier@.len() ==> (#[trigger] frontier@[i]).wf(),
        ensures
            r.wf(),
            r.frontier_view() == Seq::new(frontier@.len(), |i: int| frontier@[i]@),
            r.seen_view() =~= Seq::<Seq<u8>>::empty(),
            r.roots_view() == r.frontier_view(),
            forall|store: Map<Seq<u8>, Seq<u8>>| #[trigger] r.sound_for(store),
            forall|store: Map<Seq<u8>, Seq<u8>>| #[trigger] r.complete_for(store),
    {
        let ghost roots = Seq::new(frontier@.len(), |i: int| frontier@[i]@);
        let r = BlobChangesetStream { frontier, seen: Vec::new(), roots: Ghost(roots) };
        proof {
            assert(r.seen_view() =~= Seq::<Seq<u8>>::empty());
            assert(r.frontier_view() =~= roots);
            assert forall|i: int| 0 <= i < r.roots_view().len() implies r.seen_view().contains(
                #[trigger] r.roots_view()[i],
            ) || r.frontier_view().contains(r.roots_view()[i]) by {
                assert(r.frontier_view()[i] == r.roots_view()[i]);
            }
            assert forall|store: Map<Seq<u8>, Seq<u8>>| #[trigger] r.complete_for(store) by {
                assert(r.seen_view().len() == 0);
            }
            assert forall|store: Map<Seq<u8>, Seq<u8>>| #[trigger] r.sound_for(store) by {
                assert forall|i: int| 0 <= i < r.frontier_view().len() implies reachable(
                    store,
                    r.roots_view(),
                    #[trigger] r.frontier_view()[i],
                ) by {
                    let chain = seq![r.frontier_view()[i]];
                    assert(chain[0] == r.frontier_view()[i]);
                    assert(r.roots_view().contains(chain[0]));
                    assert(is_chain(store, r.roots_view(), chain));
                    assert(chain.last() == r.frontier_view()[i]);
                }
            }
        }
        r
    }

    /// Yield the next unvisited commit, or `None` when the walk is done.
    ///
    /// A yielded id was on the frontier, had not been yielded before, and
    /// has its node record in the store; the parents of its commit joined
    /// the back of the frontier. A frontier whose every id was already
    /// visited — in particular an empty one — is owed `Ok(None)`: that path
    /// makes no store call. A failed load leaves the visited set unchanged
    /// and the id at the head of the frontier, so a retried walk loses
    /// nothing.
    pub fn next<B: Blobstore>(&mut self, repo: &BlobRepo<B>) -> (r: Result<
        Option<NodeId>,
        ErrorKind,
    >)
        requires
            old(self).wf(),
        ensures
            final(self).wf(),
            final(self).roots_view() == old(self).roots_view(),
            old(self).sound_for(repo.store_contents()) ==> final(self).sound_for(
                repo.store_contents(),
            ),
            old(self).complete_for(repo.store_contents()) ==> final(self).complete_for(
                repo.store_contents(),
            ),
            (forall|i: int| 0 <= i < old(self).frontier_view().len() ==> old(
                self,
            ).seen_view().contains(#[trigger] old(self).frontier_view()[i])) ==> r matches Ok(
                None,
            ),
            match r {
                Ok(Some(id)) => old(self).sound_for(repo.store_contents()) ==> reachable(
                    repo.store_contents(),
                    old(self).roots_view(),
                    id@,
                ),
                _ => true,
            },
            match r {
                Ok(Some(id)) => {
                    &&& id.wf()
                    &&& old(self).frontier_view().contains(id@)
                    &&& !old(self).seen_view().contains(id@)
                    &&& final(self).seen_view() == old(self).seen_view().push(id@)
                    &&& repo.store_contents().contains_key(node_key_view(id@))
                    &&& (cs_parents_of(repo.store_contents(), id@) matches Some(ps) && exists|
                        k: int,
                    |
                        0 <= k < old(self).frontier_view().len() && old(self).frontier_view()[k]
                            == id@ && final(self).frontier_view() == old(self).frontier_view().skip(
                            k + 1,
                        ) + ps)
                },
                Ok(None) => {
                    &&& final(self).seen_view() == old(self).seen_view()
                    &&& final(self).frontier_view().len() == 0
                    &&& forall|i: int| 0 <= i < old(self).frontier_view().len() ==> old(
                        self,
                    ).seen_view().contains(#[trigger] old(self).frontier_view()[i])
                },
                Err(_) => final(self).seen_view() == old(self).seen_view(),
            },
    {
        proof {
            assert(self.frontier_view() =~= old(self).frontier_view().skip(0));
        }
        loop
            invariant
                self.wf(),
                self.roots_view() == old(self).roots_view(),
                self.seen_view() == old(self).seen_view(),
                old(self).complete_for(repo.store_contents()) ==> self.complete_for(
                    repo.store_contents(),
                ),
                forall|i: int| 0 <= i < self.frontier_view().len() ==> old(
                    self,
                ).frontier_view().contains(#[trigger] self.frontier_view()[i]),
                exists|k: int|
                    0 <= k <= old(self).frontier_view().len() && self.frontier_view() == old(
                        self,
                    ).frontier_view().skip(k) && (forall|j: int|
                        0 <= j < k ==> old(self).seen_view().contains(
                            #[trigger] old(self).frontier_view()[j],
                        )),
            decreases self.frontier@.len(),
        {
            if self.frontier.len() == 0 {
                proof {
                    let k = choose|k: int|
                        0 <= k <= old(self).frontier_view().len() && self.frontier_view() == old(
                            self,
                        ).frontier_view().skip(k) && (forall|j: int|
                            0 <= j < k ==> old(self).seen_view().contains(
                                #[trigger] old(self).frontier_view()[j],
                            ));
                    assert(self.frontier_view().len() == 0);
                    assert(k == old(self).frontier_view().len());
                }
                return Ok(None);
            }
            let ghost pre_frontier = self.frontier_view();
            let next_id = self.frontier.remove(0);
            proof {
                assert(self.frontier_view() =~= pre_frontier.skip(1));
                assert(next_id@ == pre_frontier[0]);
                let k = choose|k: int|
                    0 <= k <= old(self).frontier_view().len() && pre_frontier == old(
                        self,
                    ).frontier_view().skip(k) && (forall|j: int|
                        0 <= j < k ==> old(self).seen_view().contains(
                            #[trigger] old(self).frontier_view()[j],
                        ));
                assert(old(self).frontier_view()[k] == next_id@);
                assert(old(self).frontier_view().contains(next_id@));
                assert(pre_frontier.skip(1) =~= old(self).frontier_view().skip(k + 1));
            }
            let ghost kk = choose|k: int|
                0 <= k < old(self).frontier_view().len() && old(self).frontier_view()[k]
                    == next_id@ && self.frontier_view() == old(self).frontier_view().skip(k + 1)
                    && (forall|j: int|
                    0 <= j < k ==> old(self).seen_view().contains(
                        #[trigger] old(self).frontier_view()[j],
                    ));
            let mut already = false;
            let mut si: usize = 0;
            while si < self.seen.len()
                invariant
                    si <= self.seen@.len(),
                    self.seen_view().len() == self.seen@.len(),
                    already ==> self.seen_view().contains(next_id@),
                    !already ==> forall|j: int| 0 <= j < si ==> self.seen_view()[j] != next_id@,
                decreases self.seen@.len() - si,
            {
                if !already {
                    if &self.seen[si] == &next_id {
                        already = true;
                        proof {
                            assert(self.seen_view()[si as int] == next_id@);
                        }
                    } else {
                        proof {
                            assert(self.seen_view()[si as int] != next_id@);
                        }
                    }
                }
                si = si + 1;
            }
            if already {
                proof {
                    assert(forall|j: int|
                        0 <= j < kk + 1 ==> old(self).seen_view().contains(
                            #[trigger] old(self).frontier_view()[j],
                        ));
                    let store2 = repo.store_contents();
                    assert forall|i: int| 0 <= i < self.roots_view().len() implies self
                        .seen_view().contains(#[trigger] self.roots_view()[i])
                        || self.frontier_view().contains(self.roots_view()[i]) by {
                        let rt = self.roots_view()[i];
                        if !self.seen_view().contains(rt) {
                            assert(pre_frontier.contains(rt));
                            let j = choose|j: int|
                                0 <= j < pre_frontier.len() && pre_frontier[j] == rt;
                            if j == 0 {
                                assert(rt == next_id@);
                            } else {
                                assert(self.frontier_view()[j - 1] == rt);
                            }
                        }
                    }
                    if old(self).complete_for(store2) {
                        assert forall|i2: int| 0 <= i2 < self.seen_view().len() implies (
                        cs_parents_of(store2, #[trigger] self.seen_view()[i2]) matches Some(ps)
                            && (forall|j2: int|
                            0 <= j2 < ps.len() ==> self.seen_view().contains(#[trigger] ps[j2])
                                || self.frontier_view().contains(ps[j2]))) by {
                            let s = self.seen_view()[i2];
                            assert(cs_parents_of(store2, s) is Some);
                            let ps = cs_parents_of(store2, s).unwrap();
                            assert forall|j2: int| 0 <= j2 < ps.len() implies self
                                .seen_view().contains(#[trigger] ps[j2])
                                || self.frontier_view().contains(ps[j2]) by {
                                let p = ps[j2];
                                if !self.seen_view().contains(p) {
                                    assert(pre_frontier.contains(p));
                                    let j = choose|j: int|
                                        0 <= j < pre_frontier.len() && pre_frontier[j] == p;
                                    if j == 0 {
                                        assert(p == next_id@);
                                    } else {
                                        assert(self.frontier_view()[j - 1] == p);
                                    }
                                }
                            }
                        }
                    }
                }
                continue ;
            }
            proof {
                if self.seen_view().contains(next_id@) {
                    let j = choose|j: int|
                        0 <= j < self.seen_view().len() && self.seen_view()[j] == next_id@;
                    assert(false);
                }
                if forall|i: int| 0 <= i < old(self).frontier_view().len() ==> old(
                    self,
                ).seen_view().contains(#[trigger] old(self).frontier_view()[i]) {
                    assert(old(self).seen_view().contains(old(self).frontier_view()[kk]));
                    assert(false);
                }
            }
            let ghost store = repo.store_contents();
            proof {
                assert forall|i: int| 0 <= i < self.frontier_view().len() implies old(
                    self,
                ).frontier_view().contains(#[trigger] self.frontier_view()[i]) by {
                    assert(self.frontier_view()[i] == old(self).frontier_view()[kk + 1 + i]);
                }
                if old(self).sound_for(store) {
                    assert forall|i: int| 0 <= i < self.frontier_view().len() implies reachable(
                        store,
                        old(self).roots_view(),
                        #[trigger] self.frontier_view()[i],
                    ) by {
                        assert(old(self).frontier_view()[kk + 1 + i] == self.frontier_view()[i]);
                    }
                }
            }
            let bc = match repo.get_changeset_by_changesetid(&next_id) {
                Ok(bc) => bc,
                Err(e) => {
                    let ghost pre_skip = self.frontier_view();
                    self.frontier.insert(0, next_id);
                    proof {
                        assert(self.frontier_view() =~= seq![pre_frontier[0]] + pre_skip);
                        assert(pre_skip =~= pre_frontier.skip(1));
                        assert forall|i: int| 0 <= i < self.roots_view().len() implies self
                            .seen_view().contains(#[trigger] self.roots_view()[i])
                            || self.frontier_view().contains(self.roots_view()[i]) by {
                            let rt = self.roots_view()[i];
                            if !self.seen_view().contains(rt) {
                                assert(pre_frontier.contains(rt));
                                let j = choose|j: int|
                                    0 <= j < pre_frontier.len() && pre_frontier[j] == rt;
                                assert(self.frontier_view()[j] == rt);
                            }
                        }
                        if old(self).complete_for(store) {
                            assert forall|i2: int| 0 <= i2 < self.seen_view().len() implies (
                            cs_parents_of(store, #[trigger] self.seen_view()[i2]) matches Some(
                                ps,
                            ) && (forall|j2: int|
                                0 <= j2 < ps.len() ==> self.seen_view().contains(
                                    #[trigger] ps[j2],
                                ) || self.frontier_view().contains(ps[j2]))) by {
                                let s = self.seen_view()[i2];
                                assert(cs_parents_of(store, s) is Some);
                                let ps = cs_parents_of(store, s).unwrap();
                                assert forall|j2: int| 0 <= j2 < ps.len() implies self
                                    .seen_view().contains(#[trigger] ps[j2])
                                    || self.frontier_view().contains(ps[j2]) by {
                                    let p = ps[j2];
                                    if !self.seen_view().contains(p) {
                                        assert(pre_frontier.contains(p));
                                        let j = choose|j: int|
                                            0 <= j < pre_frontier.len() && pre_frontier[j] == p;
                                        assert(self.frontier_view()[j] == p);
                                    }
                                }
                            }
                        }
                        if old(self).sound_for(store) {
                            assert forall|i: int|
                                0 <= i < self.frontier_view().len() implies reachable(
                                store,
                                old(self).roots_view(),
                                #[trigger] self.frontier_view()[i],
                            ) by {
                                if i == 0 {
                                    assert(self.frontier_view()[0] == old(self).frontier_view()[
                                        kk]);
                                } else {
                                    assert(self.frontier_view()[i] == pre_skip[i - 1]);
                                    assert(pre_skip[i - 1] == old(self).frontier_view()[kk + i]);
                                }
                            }
                        }
                    }
                    return Err(e);
                },
            };
            let parents = bc.parents();
            let ghost pre_seen = self.seen_view();
            self.seen.push(next_id.clone());
            proof {
                assert(self.seen_view() =~= pre_seen.push(next_id@));
                assert forall|i: int, j: int|
                    0 <= i < j < self.seen_view().len() implies self.seen_view()[i]
                    != self.seen_view()[j] by {
                    if j < self.seen_view().len() - 1 {
                        assert(pre_seen[i] != pre_seen[j]);
                    } else {
                        assert(self.seen_view()[j] == next_id@);
                        assert(pre_seen[i] == self.seen_view()[i]);
                        assert(pre_seen[i] != next_id@) by {
                            if pre_seen[i] == next_id@ {
                                assert(pre_seen.contains(next_id@));
                            }
                        }
                    }
                }
                assert forall|i: int| 0 <= i < self.roots_view().len() implies self
                    .seen_view().contains(#[trigger] self.roots_view()[i])
                    || self.frontier_view().contains(self.roots_view()[i]) by {
                    let rt = self.roots_view()[i];
                    if pre_seen.contains(rt) {
                        let m = choose|m: int| 0 <= m < pre_seen.len() && pre_seen[m] == rt;
                        assert(self.seen_view()[m] == rt);
                    } else {
                        assert(pre_frontier.contains(rt));
                        let j = choose|j: int| 0 <= j < pre_frontier.len() && pre_frontier[j]
                            == rt;
                        if j == 0 {
                            assert(rt == next_id@);
                            assert(self.seen_view()[self.seen_view().len() - 1] == rt);
                        } else {
                            assert(self.frontier_view()[j - 1] == rt);
                        }
                    }
                }
            }
            let ghost pre_f2 = self.frontier_view();
            let mut pi: usize = 0;
            while pi < parents.len()
                invariant
                    pi <= parents@.len(),
                    forall|i: int| 0 <= i < parents@.len() ==> (#[trigger] parents@[i]).wf(),
                    self.roots_view() == old(self).roots_view(),
                    self.seen_view() == pre_seen.push(next_id@),
                    self.frontier_view() =~= pre_f2 + crate::changeset::parent_ids_view(
                        parents@,
                    ).take(pi as int),
                    self.wf(),
                decreases parents@.len() - pi,
            {
                let ghost before = self.frontier_view();
                self.frontier.push(parents[pi].clone());
                proof {
                    assert(self.frontier_view() =~= before.push(parents@[pi as int]@));
                    assert(crate::changeset::parent_ids_view(parents@).take(pi as int).push(
                        parents@[pi as int]@,
                    ) =~= crate::changeset::parent_ids_view(parents@).take(pi as int + 1));
                    assert forall|i2: int| 0 <= i2 < self.roots_view().len() implies self
                        .seen_view().contains(#[trigger] self.roots_view()[i2])
                        || self.frontier_view().contains(self.roots_view()[i2]) by {
                        let rt = self.roots_view()[i2];
                        if !self.seen_view().contains(rt) {
                            assert(before.contains(rt));
                            let m = choose|m: int| 0 <= m < before.len() && before[m] == rt;
                            assert(self.frontier_view()[m] == rt);
                        }
                    }
                }
                pi = pi + 1;
            }
            proof {
                assert(crate::changeset::parent_ids_view(parents@).take(parents@.len() as int)
                    =~= crate::changeset::parent_ids_view(parents@));
                let ps = crate::changeset::parent_ids_view(parents@);
                assert(cs_parents_of(store, next_id@) == Some(ps)) by {
                    assert(present_parents(bc.content_view()) == ps);
                }
                if old(self).sound_for(store) {
                    let roots = old(self).roots_view();
                    assert(reachable(store, roots, next_id@)) by {
                        assert(old(self).frontier_view()[kk] == next_id@);
                    }
                    assert forall|i: int| 0 <= i < self.frontier_view().len() implies reachable(
                        store,
                        roots,
                        #[trigger] self.frontier_view()[i],
                    ) by {
                        if i < pre_f2.len() {
                            assert(self.frontier_view()[i] == pre_f2[i]);
                            assert(pre_f2[i] == old(self).frontier_view()[kk + 1 + i]);
                        } else {
                            assert(self.frontier_view()[i] == ps[i - pre_f2.len()]);
                            assert(ps.contains(ps[i - pre_f2.len()]));
                            lemma_reachable_step(store, roots, next_id@, ps[i - pre_f2.len()]);
                        }
                    }
                }
                assert forall|i: int| 0 <= i < self.roots_view().len() implies self
                    .seen_view().contains(#[trigger] self.roots_view()[i])
                    || self.frontier_view().contains(self.roots_view()[i]) by {
                    let rt = self.roots_view()[i];
                    if pre_seen.contains(rt) {
                        let m = choose|m: int| 0 <= m < pre_seen.len() && pre_seen[m] == rt;
                        assert(self.seen_view()[m] == rt);
                    } else if !self.seen_view().contains(rt) {
                        assert(pre_frontier.contains(rt));
                        let j = choose|j: int| 0 <= j < pre_frontier.len() && pre_frontier[j]
                            == rt;
                        if j == 0 {
                            assert(rt == next_id@);
                            assert(self.seen_view()[self.seen_view().len() - 1] == next_id@);
                        } else {
                            assert(pre_f2[j - 1] == rt);
                            assert(self.frontier_view()[j - 1] == rt);
                        }
                    }
                }
                if old(self).complete_for(store) {
                    assert forall|i2: int| 0 <= i2 < self.seen_view().len() implies (
                    cs_parents_of(store, #[trigger] self.seen_view()[i2]) matches Some(qs) && (
                    forall|j2: int|
                        0 <= j2 < qs.len() ==> self.seen_view().contains(#[trigger] qs[j2])
                            || self.frontier_view().contains(qs[j2]))) by {
                        let s = self.seen_view()[i2];
                        if i2 < self.seen_view().len() - 1 {
                            assert(s == pre_seen[i2]);
                            assert(cs_parents_of(store, s) is Some);
                            let qs = cs_parents_of(store, s).unwrap();
                            assert forall|j2: int| 0 <= j2 < qs.len() implies self
                                .seen_view().contains(#[trigger] qs[j2])
                                || self.frontier_view().contains(qs[j2]) by {
                                let p = qs[j2];
                                if pre_seen.contains(p) {
                                    let m = choose|m: int|
                                        0 <= m < pre_seen.len() && pre_seen[m] == p;
                                    assert(self.seen_view()[m] == p);
                                } else {
                                    assert(pre_frontier.contains(p));
                                    let j = choose|j: int|
                                        0 <= j < pre_frontier.len() && pre_frontier[j] == p;
                                    if j == 0 {
                                        assert(p == next_id@);
                                        assert(self.seen_view()[self.seen_view().len() - 1]
                                            == p);
                                    } else {
                                        assert(pre_f2[j - 1] == p);
                                        assert(self.frontier_view()[j - 1] == p);
                                    }
                                }
                            }
                        } else {
                            assert(s == next_id@);
                            assert(cs_parents_of(store, s) == Some(ps));
                            assert forall|j2: int| 0 <= j2 < ps.len() implies self
                                .seen_view().contains(#[trigger] ps[j2])
                                || self.frontier_view().contains(ps[j2]) by {
                                assert(self.frontier_view()[pre_f2.len() + j2] == ps[j2]);
                            }
                        }
                    }
                }
            }
            return Ok(Some(next_id));
        }
    }
}

impl BlobChangesetStream {
    /// Every id on a visited chain is visited, once the walk is exhausted.
    proof fn lemma_chain_visited(&self, store: Map<Seq<u8>, Seq<u8>>, chain: Seq<Seq<u8>>, i: int)
        requires
            self.wf(),
            self.complete_for(store),
            self.frontier_view().len() == 0,
            is_chain(store, self.roots_view(), chain),
            0 <= i < chain.len(),
        ensures
            self.seen_view().contains(chain[i]),
        decreases i,
    {
        if i == 0 {
            let j = choose|j: int|
                0 <= j < self.roots_view().len() && self.roots_view()[j] == chain[0];
            assert(self.seen_view().contains(self.roots_view()[j]) || self.frontier_view().contains(
                self.roots_view()[j],
            ));
        } else {
            self.lemma_chain_visited(store, chain, i - 1);
            let m = choose|m: int|
                0 <= m < self.seen_view().len() && self.seen_view()[m] == chain[i - 1];
            assert(cs_parents_of(store, self.seen_view()[m]) is Some);
            let ps = cs_parents_of(store, self.seen_view()[m]).unwrap();
            assert(ps.contains(chain[i]));
            let j = choose|j: int| 0 <= j < ps.len() && ps[j] == chain[i];
            assert(self.seen_view().contains(ps[j]) || self.frontier_view().contains(ps[j]));
        }
    }

    /// When the walk is exhausted against one fixed store — the frontier is
    /// empty and every `next` ran against that store without error — the
    /// visited set covers every commit reachable from the seeds. Together
    /// with the per-yield contract, an error-free walk therefore yields
    /// exactly the commits reachable from its seeds, each exactly once.
    pub proof fn lemma_exhausted_walk_complete(
        &self,
        store: Map<Seq<u8>, Seq<u8>>,
        x: Seq<u8>,
    )
        requires
            self.wf(),
            self.complete_for(store),
            self.frontier_view().len() == 0,
            reachable(store, self.roots_view(), x),
        ensures
            self.seen_view().contains(x),
    {
        let chain = choose|chain: Seq<Seq<u8>>|
            is_chain(store, self.roots_view(), chain) && chain.last() == x;
        self.lemma_chain_visited(store, chain, chain.len() - 1);
    }
}

/// Two successful yields of the stream are distinct commits: the first
/// yield leaves its id in the visited set, and a later yield is drawn from
/// outside that set. Each reachable commit is therefore yielded at most
/// once.
pub proof fn lemma_stream_yields_distinct(
    pre: Seq<Seq<u8>>,
    id1: Seq<u8>,
    mid: Seq<Seq<u8>>,
    id2: Seq<u8>,
)
    requires
        !pre.contains(id1),
        mid == pre.push(id1),
        !mid.contains(id2),
    ensures
        id1 != id2,
{
    assert(mid[mid.len() - 1] == id1);
    assert(mid.contains(id1));
}

} // verus!
