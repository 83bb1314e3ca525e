//! The bookmarks index: named moving pointers to changesets.
//!
//! Bookmark names are ASCII. Updates go through transactions: a transaction
//! batches create, update, and delete operations, each carrying the value the
//! caller expects the store to hold, and commits atomically. A transaction
//! whose expectation no longer holds — because an overlapping transaction
//! committed first — fails with a conflict and changes nothing.

use vstd::prelude::*;

use crate::errors::ErrorKind;
use crate::hash::NodeId;
use crate::kvlist::{kv_map, lemma_kv_map_last_occurrence, lemma_kv_map_take_unfold};

verus! {

/// Whether every byte is ASCII.
pub open spec fn ascii(s: Seq<u8>) -> bool {
    forall|i: int| 0 <= i < s.len() ==> s[i] < 128
}

/// Whether `p` is a prefix of `s`.
pub open spec fn is_prefix(p: Seq<u8>, s: Seq<u8>) -> bool {
    p.len() <= s.len() && s.take(p.len() as int) == p
}

/// The live name→id map denoted by a raw map whose deletions are tombstones.
pub open spec fn live_map(raw: Map<Seq<u8>, Option<Seq<u8>>>) -> Map<Seq<u8>, Seq<u8>> {
    Map::new(
        |k: Seq<u8>| raw.contains_key(k) && raw[k] is Some,
        |k: Seq<u8>| raw[k].unwrap(),
    )
}

/// An in-memory bookmarks store. The entry list is append-only; a later
/// entry for a name shadows earlier ones, and a `None` value is a deletion.
pub struct Bookmarks {
    entries: Vec<(Vec<u8>, Option<NodeId>)>,
}

impl Bookmarks {
    /// The entries as a sequence of name/value views.
    pub closed spec fn entries_view(&self) -> Seq<(Seq<u8>, Option<Seq<u8>>)> {
        Seq::new(
            self.entries@.len(),
            |i: int| (self.entries@[i].0@, crate::hash::opt_id_view(self.entries@[i].1)),
        )
    }

    /// The live name→id mapping the store holds.
    pub closed spec fn contents(&self) -> Map<Seq<u8>, Seq<u8>> {
        live_map(kv_map(self.entries_view()))
    }

    /// Stored names are ASCII and stored ids are well formed.
    pub open spec fn inv(&self) -> bool {
        forall|i: int| 0 <= i < self.entries_view().len() ==> ascii(
            (#[trigger] self.entries_view()[i]).0,
        ) && (self.entries_view()[i].1 matches Some(v) ==> v.len() == 20)
    }

    pub fn new() -> (r: Self)
        ensures
            r.contents() == Map::<Seq<u8>, Seq<u8>>::empty(),
            r.inv(),
    {
        let r = Bookmarks { entries: Vec::new() };
        proof {
            assert(r.entries_view() =~= Seq::<(Seq<u8>, Option<Seq<u8>>)>::empty());
            assert(r.contents() =~= Map::<Seq<u8>, Seq<u8>>::empty());
        }
        r
    }

    /// Fetch the changeset a bookmark points at, if the bookmark exists.
    pub fn get(&self, name: &Vec<u8>) -> (r: Option<NodeId>)
        requires
            self.inv(),
        ensures
            match r {
                Some(id) => self.contents().contains_key(name@) && id@ == self.contents()[name@]
                    && id.wf(),
                None => !self.contents().contains_key(name@),
            },
    {
        let ghost whole = self.entries_view();
        let mut i: usize = self.entries.len();
        proof {
            assert(whole.take(i as int) =~= whole);
        }
        loop
            invariant
                i <= self.entries@.len(),
                whole == self.entries_view(),
                self.inv(),
                kv_map(whole).contains_key(name@) == kv_map(whole.take(i as int)).contains_key(
                    name@,
                ),
                kv_map(whole).contains_key(name@) ==> kv_map(whole)[name@] == kv_map(
                    whole.take(i as int),
                )[name@],
            decreases i,
        {
            if i == 0 {
                proof {
                    assert(whole.take(0) =~= Seq::<(Seq<u8>, Option<Seq<u8>>)>::empty());
                    assert(!self.contents().contains_key(name@));
                }
                return None;
            }
            i = i - 1;
            proof {
                lemma_kv_map_take_unfold(whole, i as int);
            }
            if self.entries[i].0 == *name {
                proof {
                    if self.entries@[i as int].0@ =~= name@ {
                        assert(whole[i as int].0 == name@);
                    }
                }
                match &self.entries[i].1 {
                    Some(id) => {
                        proof {
                            assert(kv_map(whole)[name@] == Some(id@));
                            assert(self.contents().contains_key(name@));
                            assert(self.contents()[name@] == id@);
                        }
                        return Some(id.clone());
                    },
                    None => {
                        proof {
                            assert(kv_map(whole)[name@] is None);
                            assert(!self.contents().contains_key(name@));
                        }
                        return None;
                    },
                }
            }
            proof {
                assert(whole[i as int].0 != name@);
            }
        }
    }

    /// List the bookmarks whose names start with `prefix`.
    ///
    /// Every returned pair is a live bookmark with its current target, and
    /// every live bookmark matching the prefix is returned.
    pub fn list_by_prefix(&self, prefix: &Vec<u8>) -> (r: Vec<(Vec<u8>, NodeId)>)
        requires
            self.inv(),
        ensures
            forall|m: int| 0 <= m < r@.len() ==> self.contents().contains_key(
                (#[trigger] r@[m]).0@,
            ) && self.contents()[r@[m].0@] == r@[m].1@ && is_prefix(prefix@, r@[m].0@),
            forall|k: Seq<u8>| #[trigger]
                self.contents().contains_key(k) && is_prefix(prefix@, k) ==> exists|m: int|
                    0 <= m < r@.len() && (#[trigger] r@[m]).0@ == k,
    {
        let ghost whole = self.entries_view();
        let mut out: Vec<(Vec<u8>, NodeId)> = Vec::new();
        let mut i: usize = 0;
        while i < self.entries.len()
            invariant
                i <= self.entries@.len(),
                whole == self.entries_view(),
                self.inv(),
                forall|m: int| 0 <= m < out@.len() ==> self.contents().contains_key(
                    (#[trigger] out@[m]).0@,
                ) && self.contents()[out@[m].0@] == out@[m].1@ && is_prefix(prefix@, out@[m].0@),
                forall|i2: int|
                    0 <= i2 < i && last_occ_at(whole, i2) && (#[trigger] whole[i2]).1 is Some
                        && is_prefix(prefix@, whole[i2].0) ==> exists|m: int|
                        0 <= m < out@.len() && (#[trigger] out@[m]).0@ == whole[i2].0,
            decreases self.entries@.len() - i,
        {
            let ghost out_pre = out@;
            let mut is_last = true;
            let mut j: usize = i + 1;
            while j < self.entries.len()
                invariant
                    i < j <= self.entries@.len() || (j == i + 1),
                    i < self.entries@.len(),
                    whole == self.entries_view(),
                    is_last == (forall|jj: int|
                        i < jj < j ==> (#[trigger] whole[jj]).0 != whole[i as int].0),
                decreases self.entries@.len() - j,
            {
                if self.entries[j].0 == self.entries[i].0 {
                    proof {
                        if whole[j as int].0 =~= whole[i as int].0 {
                        }
                    }
                    is_last = false;
                }
                proof {
                    if self.entries@[j as int].0@ != self.entries@[i as int].0@ {
                        assert(whole[j as int].0 != whole[i as int].0);
                    }
                }
                j = j + 1;
            }
            if is_last {
                proof {
                    assert(last_occ_at(whole, i as int));
                    lemma_kv_map_last_occurrence(whole, i as int);
                }
                match &self.entries[i].1 {
                    Some(id) => {
                        if starts_with(prefix, &self.entries[i].0) {
                            let name = crate::codec::subvec(
                                &self.entries[i].0,
                                0,
                                self.entries[i].0.len(),
                            );
                            proof {
                                assert(name@ =~= whole[i as int].0);
                                assert(kv_map(whole)[whole[i as int].0] == Some(id@));
                                assert(self.contents().contains_key(whole[i as int].0));
                                assert(self.contents()[whole[i as int].0] == id@);
                            }
                            out.push((name, id.clone()));
                        }
                    },
                    None => {
                        proof {
                            assert(kv_map(whole)[whole[i as int].0] is None);
                            assert(!self.contents().contains_key(whole[i as int].0));
                            assert(!(whole[i as int].1 is Some));
                        }
                    },
                }
            }
            proof {
                assert(forall|m: int| 0 <= m < out_pre.len() ==> out@[m] == out_pre[m]);
                assert forall|i2: int|
                    0 <= i2 < i + 1 && last_occ_at(whole, i2) && (#[trigger] whole[i2]).1 is Some
                        && is_prefix(prefix@, whole[i2].0) implies exists|m: int|
                    0 <= m < out@.len() && (#[trigger] out@[m]).0@ == whole[i2].0 by {
                    if i2 < i {
                        let m = choose|m: int|
                            0 <= m < out_pre.len() && (#[trigger] out_pre[m]).0@ == whole[i2].0;
                        assert(out@[m].0@ == whole[i2].0);
                    } else {
                        assert(out@.len() > out_pre.len());
                        assert(out@[out@.len() - 1].0@ == whole[i2].0);
                    }
                }
            }
            i = i + 1;
        }
        proof {
            assert forall|k: Seq<u8>| #[trigger]
                self.contents().contains_key(k) && is_prefix(prefix@, k) implies exists|m: int|
                0 <= m < out@.len() && (#[trigger] out@[m]).0@ == k by {
                crate::kvlist::lemma_kv_map_has_last_occurrence(whole, k);
                let i2 = choose|i2: int|
                    0 <= i2 < whole.len() && (#[trigger] whole[i2]).0 == k && (forall|j: int|
                        i2 < j < whole.len() ==> (#[trigger] whole[j]).0 != k);
                assert(last_occ_at(whole, i2));
                crate::kvlist::lemma_kv_map_last_occurrence(whole, i2);
                assert(whole[i2].1 == kv_map(whole)[k]);
                assert(whole[i2].1 is Some);
            }
        }
        out
    }

    /// Record `name -> id`, shadowing any earlier binding.
    fn set(&mut self, name: Vec<u8>, id: NodeId)
        requires
            old(self).inv(),
            ascii(name@),
            id.wf(),
        ensures
            final(self).inv(),
            final(self).contents() == old(self).contents().insert(name@, id@),
    {
        let ghost pre = self.entries_view();
        let ghost k = name@;
        let ghost v = id@;
        self.entries.push((name, Some(id)));
        proof {
            assert(self.entries_view().drop_last() =~= pre);
            assert(self.entries_view().last() == (k, Some(v)));
            assert(self.contents() =~= old(self).contents().insert(k, v));
            assert forall|j: int| 0 <= j < self.entries_view().len() implies ascii(
                (#[trigger] self.entries_view()[j]).0,
            ) && (self.entries_view()[j].1 matches Some(vv) ==> vv.len() == 20) by {
                if j < self.entries_view().len() - 1 {
                    assert(self.entries_view()[j] == pre[j]);
                    assert(ascii((old(self).entries_view()[j]).0) && (old(
                        self,
                    ).entries_view()[j].1 matches Some(vv) ==> vv.len() == 20));
                } else {
                    assert(self.entries_view()[j] == (k, Some(v)));
                }
            }
        }
    }

    /// Record the deletion of `name`.
    fn unset(&mut self, name: Vec<u8>)
        requires
            old(self).inv(),
            ascii(name@),
        ensures
            final(self).inv(),
            final(self).contents() == old(self).contents().remove(name@),
    {
        let ghost pre = self.entries_view();
        let ghost k = name@;
        self.entries.push((name, None));
        proof {
            assert(self.entries_view().drop_last() =~= pre);
            assert(self.entries_view().last() == (k, None::<Seq<u8>>));
            assert(self.contents() =~= old(self).contents().remove(k));
            assert forall|j: int| 0 <= j < self.entries_view().len() implies ascii(
                (#[trigger] self.entries_view()[j]).0,
            ) && (self.entries_view()[j].1 matches Some(vv) ==> vv.len() == 20) by {
                if j < self.entries_view().len() - 1 {
                    assert(self.entries_view()[j] == pre[j]);
                    assert(ascii((old(self).entries_view()[j]).0) && (old(
                        self,
                    ).entries_view()[j].1 matches Some(vv) ==> vv.len() == 20));
                } else {
                    assert(self.entries_view()[j] == (k, None::<Seq<u8>>));
                }
            }
        }
    }

    /// Open a transaction against this store.
    pub fn create_transaction(&self) -> (r: BookmarkTransaction)
        ensures
            r.ops_view() =~= Seq::<BookmarkOp>::empty(),
            r.wf(),
    {
        BookmarkTransaction { ops: Vec::new() }
    }

    /// Commit a transaction: check every operation's expectation against the
    /// current store, and only when all hold apply them in order.
    pub fn commit_transaction(&mut self, tx: BookmarkTransaction) -> (r: Result<(), ErrorKind>)
        requires
            old(self).inv(),
            tx.wf(),
        ensures
            final(self).inv(),
            match r {
                Ok(_) => all_expectations_hold(old(self).contents(), tx.ops_view())
                    && final(self).contents() == apply_ops(old(self).contents(), tx.ops_view()),
                Err(e) => e matches ErrorKind::BookmarkConflict && final(self).contents() == old(
                    self,
                ).contents() && !all_expectations_hold(old(self).contents(), tx.ops_view()),
            },
    {
        proof {
            assert forall|j: int| 0 <= j < tx.ops@.len() implies op_wf(#[trigger] tx.ops@[j]) by {
                assert(tx.op_wf_at(j));
            }
        }
        let ok = self.check_ops(&tx.ops);
        if !ok {
            return Err(ErrorKind::BookmarkConflict);
        }
        let ghost m0 = self.contents();
        let ghost ops = tx.ops_view();
        let mut i: usize = 0;
        let tx_ops = tx.ops;
        proof {
            assert(ops.take(0) =~= Seq::<BookmarkOp>::empty());
        }
        while i < tx_ops.len()
            invariant
                i <= tx_ops@.len(),
                ops == ops_view_of(tx_ops@),
                forall|j: int| 0 <= j < tx_ops@.len() ==> op_wf(#[trigger] tx_ops@[j]),
                self.inv(),
                self.contents() == apply_ops(m0, ops.take(i as int)),
            decreases tx_ops@.len() - i,
        {
            let ghost mcur = self.contents();
            proof {
                assert(ops.take(i as int + 1).drop_last() =~= ops.take(i as int));
                assert(ops.take(i as int + 1).last() == ops[i as int]);
                assert(ops[i as int] == op_view(tx_ops@[i as int]));
            }
            match &tx_ops[i] {
                TxOp::Put { name, id, expected: _ } => {
                    self.set(crate::codec::subvec(name, 0, name.len()), id.clone());
                    proof {
                        assert(name@.subrange(0, name@.len() as int) =~= name@);
                    }
                },
                TxOp::Delete { name, expected: _ } => {
                    self.unset(crate::codec::subvec(name, 0, name.len()));
                    proof {
                        assert(name@.subrange(0, name@.len() as int) =~= name@);
                    }
                },
            }
            i = i + 1;
        }
        proof {
            assert(ops.take(tx_ops@.len() as int) =~= ops);
        }
        Ok(())
    }

    /// Whether every operation's expectation holds of the current store.
    fn check_ops(&self, ops: &Vec<TxOp>) -> (r: bool)
        requires
            self.inv(),
            forall|j: int| 0 <= j < ops@.len() ==> op_wf(#[trigger] ops@[j]),
        ensures
            r == all_expectations_hold(self.contents(), ops_view_of(ops@)),
    {
        let ghost vops = ops_view_of(ops@);
        let mut i: usize = 0;
        while i < ops.len()
            invariant
                i <= ops@.len(),
                self.inv(),
                vops == ops_view_of(ops@),
                forall|j: int| 0 <= j < ops@.len() ==> op_wf(#[trigger] ops@[j]),
                forall|j: int| 0 <= j < i ==> expectation_holds(
                    self.contents(),
                    #[trigger] vops[j],
                ),
            decreases ops@.len() - i,
        {
            let expected = match &ops[i] {
                TxOp::Put { name: _, id: _, expected } => expected,
                TxOp::Delete { name: _, expected } => expected,
            };
            let name = match &ops[i] {
                TxOp::Put { name, id: _, expected: _ } => name,
                TxOp::Delete { name, expected: _ } => name,
            };
            match expected {
                Expectation::Any => (),
                Expectation::Absent => {
                    match self.get(name) {
                        Some(_) => {
                            proof {
                                assert(!expectation_holds(self.contents(), vops[i as int]));
                            }
                            return false;
                        },
                        None => (),
                    }
                },
                Expectation::Present(want) => {
                    match self.get(name) {
                        Some(got) => {
                            if !(&got == want) {
                                proof {
                                    assert(!expectation_holds(self.contents(), vops[i as int]));
                                }
                                return false;
                            }
                        },
                        None => {
                            proof {
                                assert(!expectation_holds(self.contents(), vops[i as int]));
                            }
                            return false;
                        },
                    }
                },
            }
            proof {
                assert(expectation_holds(self.contents(), vops[i as int]));
            }
            i = i + 1;
        }
        true
    }
}

/// Whether position `i` is the last occurrence of its name.
pub open spec fn last_occ_at(s: Seq<(Seq<u8>, Option<Seq<u8>>)>, i: int) -> bool {
    forall|j: int| i < j < s.len() ==> (#[trigger] s[j]).0 != s[i].0
}

/// Whether `s` starts with `prefix`.
pub fn starts_with(prefix: &Vec<u8>, s: &Vec<u8>) -> (r: bool)
    ensures
        r == is_prefix(prefix@, s@),
{
    if prefix.len() > s.len() {
        return false;
    }
    let mut i: usize = 0;
    while i < prefix.len()
        invariant
            i <= prefix@.len(),
            prefix@.len() <= s@.len(),
            forall|j: int| 0 <= j < i ==> s@[j] == prefix@[j],
        decreases prefix@.len() - i,
    {
        if s[i] != prefix[i] {
            proof {
                assert(s@.take(prefix@.len() as int)[i as int] == s@[i as int]);
            }
            return false;
        }
        i = i + 1;
    }
    proof {
        assert(s@.take(prefix@.len() as int) =~= prefix@);
    }
    true
}

/// What a transaction operation expects the store to hold for its name.
pub enum Expectation {
    /// No expectation: force the operation.
    Any,
    /// The name must be absent.
    Absent,
    /// The name must point at exactly this changeset.
    Present(NodeId),
}

/// One recorded transaction operation.
pub enum TxOp {
    Put { name: Vec<u8>, id: NodeId, expected: Expectation },
    Delete { name: Vec<u8>, expected: Expectation },
}

/// The view of an expectation.
pub open spec fn expectation_view(e: Expectation) -> Option<Option<Seq<u8>>> {
    match e {
        Expectation::Any => None,
        Expectation::Absent => Some(None),
        Expectation::Present(id) => Some(Some(id@)),
    }
}

/// The mathematical content of one operation: the name, the new value
/// (`None` deletes), and the expectation.
pub struct BookmarkOp {
    pub name: Seq<u8>,
    pub value: Option<Seq<u8>>,
    pub expected: Option<Option<Seq<u8>>>,
}

pub open spec fn op_view(op: TxOp) -> BookmarkOp {
    match op {
        TxOp::Put { name, id, expected } => BookmarkOp {
            name: name@,
            value: Some(id@),
            expected: expectation_view(expected),
        },
        TxOp::Delete { name, expected } => BookmarkOp {
            name: name@,
            value: None,
            expected: expectation_view(expected),
        },
    }
}

pub open spec fn op_wf(op: TxOp) -> bool {
    match op {
        TxOp::Put { name, id, expected } => ascii(name@) && id.wf() && (expected matches
            Expectation::Present(e) ==> e.wf()),
        TxOp::Delete { name, expected } => ascii(name@) && (expected matches Expectation::Present(
            e,
        ) ==> e.wf()),
    }
}

pub open spec fn ops_view_of(s: Seq<TxOp>) -> Seq<BookmarkOp> {
    Seq::new(s.len(), |i: int| op_view(s[i]))
}

/// Whether one operation's expectation holds of the store contents `m`.
pub open spec fn expectation_holds(m: Map<Seq<u8>, Seq<u8>>, op: BookmarkOp) -> bool {
    match op.expected {
        None => true,
        Some(None) => !m.contains_key(op.name),
        Some(Some(v)) => m.contains_key(op.name) && m[op.name] == v,
    }
}

/// Whether every operation's expectation holds of `m`.
pub open spec fn all_expectations_hold(m: Map<Seq<u8>, Seq<u8>>, ops: Seq<BookmarkOp>) -> bool {
    forall|i: int| 0 <= i < ops.len() ==> expectation_holds(m, #[trigger] ops[i])
}

/// The store contents after applying the operations in order.
pub open spec fn apply_ops(m: Map<Seq<u8>, Seq<u8>>, ops: Seq<BookmarkOp>) -> Map<Seq<u8>, Seq<u8>>
    decreases ops.len(),
{
    if ops.len() == 0 {
        m
    } else {
        let prev = apply_ops(m, ops.drop_last());
        let op = ops.last();
        match op.value {
            Some(v) => prev.insert(op.name, v),
            None => prev.remove(op.name),
        }
    }
}

/// A batch of bookmark operations committed atomically.
pub struct BookmarkTransaction {
    ops: Vec<TxOp>,
}

impl BookmarkTransaction {
    /// The recorded operations, in order.
    pub closed spec fn ops_view(&self) -> Seq<BookmarkOp> {
        ops_view_of(self.ops@)
    }

    pub open spec fn wf(&self) -> bool {
        forall|j: int| 0 <= j < self.num_ops() ==> self.op_wf_at(j)
    }

    /// How many operations are recorded (spec-level).
    pub closed spec fn num_ops(&self) -> int {
        self.ops@.len() as int
    }

    /// Whether the operation at `j` is well formed (spec-level).
    pub closed spec fn op_wf_at(&self, j: int) -> bool {
        op_wf(self.ops@[j])
    }

    /// Record: create `name` pointing at `id`; the name must be absent.
    pub fn create(&mut self, name: Vec<u8>, id: NodeId)
        requires
            old(self).wf(),
            ascii(name@),
            id.wf(),
        ensures
            final(self).wf(),
            final(self).ops_view() == old(self).ops_view().push(
                BookmarkOp { name: name@, value: Some(id@), expected: Some(None) },
            ),
    {
        self.push_op(TxOp::Put { name, id, expected: Expectation::Absent });
    }

    /// Record: move `name` from `expected_old` to `id`.
    pub fn update(&mut self, name: Vec<u8>, id: NodeId, expected_old: NodeId)
        requires
            old(self).wf(),
            ascii(name@),
            id.wf(),
            expected_old.wf(),
        ensures
            final(self).wf(),
            final(self).ops_view() == old(self).ops_view().push(
                BookmarkOp {
                    name: name@,
                    value: Some(id@),
                    expected: Some(Some(expected_old@)),
                },
            ),
    {
        self.push_op(TxOp::Put { name, id, expected: Expectation::Present(expected_old) });
    }

    /// Record: set `name` to `id` whatever the store holds.
    pub fn force_set(&mut self, name: Vec<u8>, id: NodeId)
        requires
            old(self).wf(),
            ascii(name@),
            id.wf(),
        ensures
            final(self).wf(),
            final(self).ops_view() == old(self).ops_view().push(
                BookmarkOp { name: name@, value: Some(id@), expected: None },
            ),
    {
        self.push_op(TxOp::Put { name, id, expected: Expectation::Any });
    }

    /// Record: delete `name`, which must point at `expected_old`.
    pub fn delete(&mut self, name: Vec<u8>, expected_old: NodeId)
        requires
            old(self).wf(),
            ascii(name@),
            expected_old.wf(),
        ensures
            final(self).wf(),
            final(self).ops_view() == old(self).ops_view().push(
                BookmarkOp { name: name@, value: None, expected: Some(Some(expected_old@)) },
            ),
    {
        self.push_op(TxOp::Delete { name, expected: Expectation::Present(expected_old) });
    }

    /// Record: delete `name` whatever the store holds.
    pub fn force_delete(&mut self, name: Vec<u8>)
        requires
            old(self).wf(),
            ascii(name@),
        ensures
            final(self).wf(),
            final(self).ops_view() == old(self).ops_view().push(
                BookmarkOp { name: name@, value: None, expected: None },
            ),
    {
        self.push_op(TxOp::Delete { name, expected: Expectation::Any });
    }

    fn push_op(&mut self, op: TxOp)
        requires
            old(self).wf(),
            op_wf(op),
        ensures
            final(self).wf(),
            final(self).ops_view() == old(self).ops_view().push(op_view(op)),
    {
        let ghost saved = op;
        self.ops.push(op);
        proof {
            assert(self.ops_view() =~= old(self).ops_view().push(op_view(saved)));
            assert forall|j: int| 0 <= j < self.num_ops() implies self.op_wf_at(j) by {
                if j < self.num_ops() - 1 {
                    assert(old(self).op_wf_at(j));
                    assert(self.ops@[j] == old(self).ops@[j]);
                } else {
                    assert(self.ops@[j] == saved);
                }
            }
        }
    }
}

} // verus!
