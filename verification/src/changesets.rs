//! The changesets index: one record per committed changeset.
//!
//! A record carries the changeset's parents and its generation number:
//! one for a root, one more than the greatest parent generation otherwise.
//! A record may be added only when all its parents already have records,
//! so the generation law is an invariant of the index.

use vstd::prelude::*;

use crate::errors::ErrorKind;
use crate::hash::NodeId;
use crate::kvlist::{kv_map, lemma_kv_map_take_unfold};

verus! {

/// The mathematical content of one changeset record.
pub struct CsRec {
    pub parents: Seq<Seq<u8>>,
    pub gen: u64,
}

/// A stored changeset record.
pub struct ChangesetEntry {
    pub cs_id: NodeId,
    pub parents: Vec<NodeId>,
    pub gen: u64,
}

impl ChangesetEntry {
    /// The parents as a sequence of id views.
    pub open spec fn parents_view(&self) -> Seq<Seq<u8>> {
        Seq::new(self.parents@.len(), |i: int| self.parents@[i]@)
    }

    /// The record this entry denotes.
    pub open spec fn rec(&self) -> CsRec {
        CsRec { parents: self.parents_view(), gen: self.gen }
    }

    pub open spec fn wf(&self) -> bool {
        &&& self.cs_id.wf()
        &&& self.parents@.len() <= 2
        &&& forall|i: int| 0 <= i < self.parents@.len() ==> (#[trigger] self.parents@[i]).wf()
    }
}

impl Clone for ChangesetEntry {
    fn clone(&self) -> (r: Self)
        ensures
            r.cs_id@ == self.cs_id@,
            r.rec() == self.rec(),
            r.wf() == self.wf(),
    {
        let r = ChangesetEntry {
            cs_id: self.cs_id.clone(),
            parents: crate::hash::clone_id_vec(&self.parents),
            gen: self.gen,
        };
        proof {
            assert(r.parents_view() =~= self.parents_view());
        }
        r
    }
}

/// A request to record one changeset.
pub struct ChangesetInsert {
    pub cs_id: NodeId,
    pub parents: Vec<NodeId>,
}

impl ChangesetInsert {
    pub open spec fn parents_view(&self) -> Seq<Seq<u8>> {
        Seq::new(self.parents@.len(), |i: int| self.parents@[i]@)
    }

    pub open spec fn wf(&self) -> bool {
        &&& self.cs_id.wf()
        &&& self.parents@.len() <= 2
        &&& forall|i: int| 0 <= i < self.parents@.len() ==> (#[trigger] self.parents@[i]).wf()
    }
}

/// The greatest generation among `parents`' records in `m`, zero when there
/// are none.
pub open spec fn max_parent_gen(parents: Seq<Seq<u8>>, m: Map<Seq<u8>, CsRec>) -> int
    decreases parents.len(),
{
    if parents.len() == 0 {
        0
    } else {
        let rest = max_parent_gen(parents.drop_last(), m);
        let g = m[parents.last()].gen as int;
        if g > rest {
            g
        } else {
            rest
        }
    }
}

/// The index invariant: every record's parents have records, and its
/// generation is one more than the greatest parent generation.
pub open spec fn changesets_inv(m: Map<Seq<u8>, CsRec>) -> bool {
    forall|k: Seq<u8>| #[trigger]
        m.contains_key(k) ==> {
            &&& forall|i: int| 0 <= i < m[k].parents.len() ==> m.contains_key(
                #[trigger] m[k].parents[i],
            )
            &&& m[k].gen == 1 + max_parent_gen(m[k].parents, m)
        }
}

/// Every record has generation one for roots, one past the greatest parent
/// generation otherwise: the generation law, read off the index invariant.
pub proof fn lemma_generation_law(m: Map<Seq<u8>, CsRec>, k: Seq<u8>)
    requires
        changesets_inv(m),
        m.contains_key(k),
    ensures
        m[k].gen == 1 + max_parent_gen(m[k].parents, m),
        m[k].parents.len() == 0 ==> m[k].gen == 1,
{
}

/// The greatest parent generation does not change when the map grows by keys
/// outside the parents, as long as every parent already has a record.
pub proof fn lemma_max_gen_stable(
    parents: Seq<Seq<u8>>,
    m1: Map<Seq<u8>, CsRec>,
    m2: Map<Seq<u8>, CsRec>,
)
    requires
        forall|i: int| 0 <= i < parents.len() ==> m1.contains_key(#[trigger] parents[i]),
        forall|k: Seq<u8>| #[trigger]
            m1.contains_key(k) ==> m2.contains_key(k) && m2[k] == m1[k],
    ensures
        max_parent_gen(parents, m2) == max_parent_gen(parents, m1),
    decreases parents.len(),
{
    if parents.len() > 0 {
        lemma_max_gen_stable(parents.drop_last(), m1, m2);
        assert(parents[parents.len() - 1] == parents.last());
    }
}

/// The map after recording one changeset: its record carries the given
/// parents and a generation one past the greatest parent generation. This
/// is exactly what a successful insert does to the index.
pub open spec fn record_step(m: Map<Seq<u8>, CsRec>, cs: Seq<u8>, parents: Seq<Seq<u8>>) -> Map<
    Seq<u8>,
    CsRec,
> {
    m.insert(cs, CsRec { parents, gen: (1 + max_parent_gen(parents, m)) as u64 })
}

/// Recording two independent commits commutes: when neither is a parent of
/// the other and both sets of parents already have records, recording them
/// in either order leaves the same index. Interleaving two builders that
/// share no parents therefore cannot change the final state.
pub proof fn lemma_independent_records_commute(
    m: Map<Seq<u8>, CsRec>,
    csa: Seq<u8>,
    pa: Seq<Seq<u8>>,
    csb: Seq<u8>,
    pb: Seq<Seq<u8>>,
)
    requires
        csa != csb,
        !m.contains_key(csa),
        !m.contains_key(csb),
        forall|i: int| 0 <= i < pa.len() ==> m.contains_key(#[trigger] pa[i]),
        forall|i: int| 0 <= i < pb.len() ==> m.contains_key(#[trigger] pb[i]),
    ensures
        record_step(record_step(m, csa, pa), csb, pb) == record_step(
            record_step(m, csb, pb),
            csa,
            pa,
        ),
{
    let ma = record_step(m, csa, pa);
    let mb = record_step(m, csb, pb);
    lemma_max_gen_stable(pb, m, ma);
    lemma_max_gen_stable(pa, m, mb);
    assert(record_step(ma, csb, pb) =~= record_step(mb, csa, pa));
}

/// An in-memory changesets index.
pub struct Changesets {
    entries: Vec<ChangesetEntry>,
}

impl Changesets {
    /// The entries as a sequence of key/record views.
    pub closed spec fn entries_view(&self) -> Seq<(Seq<u8>, CsRec)> {
        Seq::new(self.entries@.len(), |i: int| (self.entries@[i].cs_id@, self.entries@[i].rec()))
    }

    /// The id→record mapping the index holds.
    pub closed spec fn contents(&self) -> Map<Seq<u8>, CsRec> {
        kv_map(self.entries_view())
    }

    /// Entries are well formed and the generation invariant holds.
    pub open spec fn inv(&self) -> bool {
        &&& changesets_inv(self.contents())
        &&& forall|i: int| 0 <= i < self.num_entries() ==> self.entry_wf(i)
    }

    /// How many entries the index holds (spec-level).
    pub closed spec fn num_entries(&self) -> int {
        self.entries@.len() as int
    }

    /// Whether the entry at `i` is well formed (spec-level).
    pub closed spec fn entry_wf(&self, i: int) -> bool {
        self.entries@[i].wf()
    }

    pub fn new() -> (r: Self)
        ensures
            r.contents() == Map::<Seq<u8>, CsRec>::empty(),
            r.inv(),
    {
        let r = Changesets { entries: Vec::new() };
        proof {
            assert(r.entries_view() =~= Seq::<(Seq<u8>, CsRec)>::empty());
        }
        r
    }

    fn lookup(&self, id: &NodeId) -> (r: Option<usize>)
        ensures
            match r {
                Some(i) => 0 <= i < self.num_entries() && self.entries_view()[i as int].0 == id@
                    && self.contents().contains_key(id@) && self.contents()[id@]
                    == self.entries_view()[i as int].1,
                None => !self.contents().contains_key(id@),
            },
    {
        let ghost whole = self.entries_view();
        let mut i: usize = self.entries.len();
        proof {
            assert(whole.take(i as int) =~= whole);
        }
        loop
            invariant
                i <= self.entries@.len(),
                whole == self.entries_view(),
                kv_map(whole).contains_key(id@) == kv_map(whole.take(i as int)).contains_key(id@),
                kv_map(whole).contains_key(id@) ==> kv_map(whole)[id@] == kv_map(
                    whole.take(i as int),
                )[id@],
            decreases i,
        {
            if i == 0 {
                proof {
                    assert(whole.take(0) =~= Seq::<(Seq<u8>, CsRec)>::empty());
                }
                return None;
            }
            i = i - 1;
            proof {
                lemma_kv_map_take_unfold(whole, i as int);
            }
            if &self.entries[i].cs_id == id {
                proof {
                    assert(whole[i as int].0 == id@);
                }
                return Some(i);
            }
            proof {
                assert(whole[i as int].0 != id@);
            }
        }
    }

    /// Fetch the record for `cs_id`, if one exists.
    pub fn get(&self, cs_id: &NodeId) -> (r: Option<ChangesetEntry>)
        requires
            self.inv(),
        ensures
            match r {
                Some(e) => self.contents().contains_key(cs_id@) && e.cs_id@ == cs_id@ && e.rec()
                    == self.contents()[cs_id@] && e.wf(),
                None => !self.contents().contains_key(cs_id@),
            },
    {
        match self.lookup(cs_id) {
            Some(i) => {
                proof {
                    assert(self.entries_view()[i as int].1 == self.entries@[i as int].rec());
                    assert(self.entry_wf(i as int));
                }
                Some(self.entries[i].clone())
            },
            None => None,
        }
    }

    /// The generation the next record for `insert` would get: one past the
    /// greatest generation among its parents' records.
    fn compute_gen(&self, insert: &ChangesetInsert) -> (r: Result<u64, ErrorKind>)
        requires
            self.inv(),
            insert.wf(),
        ensures
            match r {
                Ok(g) => {
                    &&& forall|i: int| 0 <= i < insert.parents_view().len()
                        ==> self.contents().contains_key(#[trigger] insert.parents_view()[i])
                    &&& g as int == 1 + max_parent_gen(insert.parents_view(), self.contents())
                },
                Err(e) => match e {
                    ErrorKind::ChangesetMissing(p) => insert.parents_view().contains(p@)
                        && !self.contents().contains_key(p@),
                    ErrorKind::SerializationFailed => max_parent_gen(
                        insert.parents_view(),
                        self.contents(),
                    ) == u64::MAX,
                    _ => false,
                },
            },
    {
        let ghost m0 = self.contents();
        let mut maxg: u64 = 0;
        let mut i: usize = 0;
        proof {
            assert(insert.parents_view().take(0) =~= Seq::<Seq<u8>>::empty());
        }
        while i < insert.parents.len()
            invariant
                i <= insert.parents@.len(),
                m0 == self.contents(),
                self.inv(),
                insert.wf(),
                maxg as int == max_parent_gen(insert.parents_view().take(i as int), m0),
                forall|j: int| 0 <= j < i ==> m0.contains_key(#[trigger] insert.parents_view()[j]),
            decreases insert.parents@.len() - i,
        {
            let p = &insert.parents[i];
            match self.lookup(p) {
                Some(j) => {
                    let g = self.entries[j].gen;
                    proof {
                        let pv = insert.parents_view();
                        assert(pv.take(i as int + 1).drop_last() =~= pv.take(i as int));
                        assert(pv.take(i as int + 1).last() == pv[i as int]);
                        assert(pv[i as int] == p@);
                        assert(m0[p@].gen == g);
                    }
                    if g > maxg {
                        maxg = g;
                    }
                },
                None => {
                    proof {
                        assert(insert.parents_view()[i as int] == p@);
                        assert(insert.parents_view().contains(p@));
                    }
                    return Err(ErrorKind::ChangesetMissing(p.clone()));
                },
            }
            i = i + 1;
        }
        proof {
            assert(insert.parents_view().take(insert.parents@.len() as int)
                =~= insert.parents_view());
        }
        if maxg == u64::MAX {
            return Err(ErrorKind::SerializationFailed);
        }
        Ok(maxg + 1)
    }

    /// Record one changeset.
    ///
    /// Returns `Ok(true)` when the record was inserted, `Ok(false)` when an
    /// identical record already existed. Fails with `DuplicateChangeset` when
    /// a record with differing parents exists, with `ChangesetMissing(p)` when
    /// parent `p` has no record yet, and with `SerializationFailed` when the
    /// generation number cannot grow further.
    pub fn add(&mut self, insert: &ChangesetInsert) -> (r: Result<bool, ErrorKind>)
        requires
            old(self).inv(),
            insert.wf(),
        ensures
            final(self).inv(),
            match r {
                Ok(true) => {
                    &&& !old(self).contents().contains_key(insert.cs_id@)
                    &&& forall|i: int| 0 <= i < insert.parents_view().len() ==> old(
                        self,
                    ).contents().contains_key(#[trigger] insert.parents_view()[i])
                    &&& final(self).contents() == old(self).contents().insert(
                        insert.cs_id@,
                        CsRec {
                            parents: insert.parents_view(),
                            gen: (1 + max_parent_gen(insert.parents_view(), old(self).contents()))
                                as u64,
                        },
                    )
                },
                Ok(false) => {
                    &&& final(self).contents() == old(self).contents()
                    &&& old(self).contents().contains_key(insert.cs_id@)
                    &&& old(self).contents()[insert.cs_id@].parents == insert.parents_view()
                },
                Err(e) => {
                    &&& final(self).contents() == old(self).contents()
                    &&& match e {
                        ErrorKind::DuplicateChangeset => old(self).contents().contains_key(
                            insert.cs_id@,
                        ) && old(self).contents()[insert.cs_id@].parents != insert.parents_view(),
                        ErrorKind::ChangesetMissing(p) => !old(self).contents().contains_key(
                            insert.cs_id@,
                        ) && insert.parents_view().contains(p@) && !old(
                            self,
                        ).contents().contains_key(p@),
                        ErrorKind::SerializationFailed => !old(self).contents().contains_key(
                            insert.cs_id@,
                        ) && max_parent_gen(insert.parents_view(), old(self).contents())
                            == u64::MAX,
                        _ => false,
                    }
                },
            },
    {
        let ghost m0 = self.contents();
        match self.lookup(&insert.cs_id) {
            Some(i) => {
                let same = self.entries[i].parents == insert.parents;
                proof {
                    let sp = self.entries@[i as int].parents@;
                    let ip = insert.parents@;
                    if sp.len() == ip.len() && (forall|j: int|
                        0 <= j < ip.len() ==> sp[j]@ == (#[trigger] ip[j])@) {
                        assert(self.entries@[i as int].parents_view() =~= insert.parents_view());
                    }
                    if self.entries@[i as int].parents_view() == insert.parents_view() {
                        assert(sp.len() == ip.len());
                        assert forall|j: int| 0 <= j < ip.len() implies sp[j]@ == (
                        #[trigger] ip[j])@ by {
                            assert(self.entries@[i as int].parents_view()[j]
                                == insert.parents_view()[j]);
                        }
                    }
                }
                if same {
                    Ok(false)
                } else {
                    Err(ErrorKind::DuplicateChangeset)
                }
            },
            None => {
                let gen = match self.compute_gen(insert) {
                    Ok(g) => g,
                    Err(e) => {
                        return Err(e);
                    },
                };
                let entry = ChangesetEntry {
                    cs_id: insert.cs_id.clone(),
                    parents: crate::hash::clone_id_vec(&insert.parents),
                    gen,
                };
                proof {
                    assert(entry.parents_view() =~= insert.parents_view());
                }
                let ghost rec = entry.rec();
                let ghost saved_entry = entry;
                proof {
                    assert(saved_entry.wf());
                }
                self.entries.push(entry);
                proof {
                    assert(self.entries@.last() == saved_entry);
                    assert(forall|j: int|
                        0 <= j < self.entries@.len() - 1 ==> self.entries@[j] == old(
                            self,
                        ).entries@[j]);
                    assert forall|j: int| 0 <= j < self.num_entries() implies #[trigger] self
                        .entry_wf(j) by {
                        if j < self.num_entries() - 1 {
                            assert(old(self).entry_wf(j));
                            assert(self.entries@[j] == old(self).entries@[j]);
                        } else {
                            assert(self.entries@[j] == saved_entry);
                        }
                    }
                    assert(self.entries_view().drop_last() =~= old(self).entries_view());
                    assert(self.entries_view().last() == (insert.cs_id@, rec));
                    let m1 = self.contents();
                    assert(m1 == m0.insert(insert.cs_id@, rec));
                    assert forall|k: Seq<u8>| #[trigger] m1.contains_key(k) implies {
                        &&& forall|j: int| 0 <= j < m1[k].parents.len() ==> m1.contains_key(
                            #[trigger] m1[k].parents[j],
                        )
                        &&& m1[k].gen == 1 + max_parent_gen(m1[k].parents, m1)
                    } by {
                        if k == insert.cs_id@ {
                            lemma_max_gen_stable(rec.parents, m0, m1);
                        } else {
                            assert(m0.contains_key(k));
                            assert(m1[k] == m0[k]);
                            lemma_max_gen_stable(m0[k].parents, m0, m1);
                        }
                    }
                }
                Ok(true)
            },
        }
    }
}

} // verus!
