//! The heads index: the set of changesets tracked as tips.

use vstd::prelude::*;

use crate::hash::NodeId;

verus! {

/// An in-memory store of repository heads, in insertion order, without
/// duplicates.
pub struct Heads {
    ids: Vec<NodeId>,
}

impl View for Heads {
    type V = Seq<Seq<u8>>;

    closed spec fn view(&self) -> Seq<Seq<u8>> {
        Seq::new(self.ids@.len(), |i: int| self.ids@[i]@)
    }
}

impl Heads {
    /// Ids are distinct and each is well formed.
    pub open spec fn wf(&self) -> bool {
        &&& forall|i: int, j: int| 0 <= i < j < self@.len() ==> self@[i] != self@[j]
        &&& forall|i: int| 0 <= i < self@.len() ==> (#[trigger] self@[i]).len() == 20
    }

    pub fn new() -> (r: Self)
        ensures
            r@ =~= Seq::<Seq<u8>>::empty(),
            r.wf(),
    {
        let r = Heads { ids: Vec::new() };
        proof {
            assert(r@ =~= Seq::<Seq<u8>>::empty());
        }
        r
    }

    /// Whether `id` is currently a head.
    pub fn contains(&self, id: &NodeId) -> (r: bool)
        ensures
            r == self@.contains(id@),
    {
        let mut i: usize = 0;
        while i < self.ids.len()
            invariant
                i <= self.ids@.len(),
                self@.len() == self.ids@.len(),
                forall|j: int| 0 <= j < i ==> self@[j] != id@,
            decreases self.ids@.len() - i,
        {
            if &self.ids[i] == id {
                assert(self@[i as int] == id@);
                return true;
            }
            assert(self@[i as int] == self.ids@[i as int]@);
            i = i + 1;
        }
        assert(forall|j: int| 0 <= j < self@.len() ==> self@[j] != id@);
        false
    }

    /// Track `id` as a head; adding a present head changes nothing.
    pub fn add(&mut self, id: &NodeId)
        requires
            old(self).wf(),
            id.wf(),
        ensures
            final(self).wf(),
            old(self)@.contains(id@) ==> final(self)@ == old(self)@,
            !old(self)@.contains(id@) ==> final(self)@ == old(self)@.push(id@),
    {
        if !self.contains(id) {
            let ghost pre = self@;
            self.ids.push(id.clone());
            proof {
                assert(self@ =~= pre.push(id@));
            }
        }
    }

    /// Stop tracking `id` as a head; removing an absent head changes nothing.
    pub fn remove(&mut self, id: &NodeId)
        requires
            old(self).wf(),
        ensures
            final(self).wf(),
            !final(self)@.contains(id@),
            forall|x: Seq<u8>| x != id@ ==> final(self)@.contains(x) == old(self)@.contains(x),
    {
        let mut i: usize = 0;
        while i < self.ids.len()
            invariant
                i <= self.ids@.len(),
                self@.len() == self.ids@.len(),
                self.wf(),
                self@ == old(self)@,
                forall|j: int| 0 <= j < i ==> self@[j] != id@,
            decreases self.ids@.len() - i,
        {
            if &self.ids[i] == id {
                let ghost pre = self@;
                assert(pre[i as int] == id@);
                self.ids.remove(i);
                proof {
                    assert(self@ =~= pre.remove(i as int));
                    assert forall|x: Seq<u8>| x != id@ implies self@.contains(x) == pre.contains(
                        x,
                    ) by {
                        if pre.contains(x) {
                            let j = choose|j: int| 0 <= j < pre.len() && pre[j] == x;
                            if j < i {
                                assert(self@[j] == x);
                            } else {
                                assert(j > i);
                                assert(self@[j - 1] == x);
                            }
                        }
                        if self@.contains(x) {
                            let j = choose|j: int| 0 <= j < self@.len() && self@[j] == x;
                            if j < i {
                                assert(pre[j] == x);
                            } else {
                                assert(pre[j + 1] == x);
                            }
                        }
                    }
                    assert(!self@.contains(id@)) by {
                        if self@.contains(id@) {
                            let j = choose|j: int| 0 <= j < self@.len() && self@[j] == id@;
                            if j < i {
                                assert(pre[j] == id@);
                            } else {
                                assert(pre[j + 1] == id@);
                                assert(pre[i as int] == id@);
                            }
                        }
                    }
                }
                return ;
            }
            assert(self@[i as int] == self.ids@[i as int]@);
            i = i + 1;
        }
        assert(forall|j: int| 0 <= j < self@.len() ==> self@[j] != id@);
    }

    /// The current heads, in insertion order.
    pub fn heads(&self) -> (r: Vec<NodeId>)
        ensures
            r@.len() == self@.len(),
            forall|i: int| 0 <= i < r@.len() ==> r@[i]@ == self@[i],
            self.wf() ==> forall|i: int| 0 <= i < r@.len() ==> (#[trigger] r@[i]).wf(),
    {
        let mut out: Vec<NodeId> = Vec::new();
        let mut i: usize = 0;
        while i < self.ids.len()
            invariant
                i <= self.ids@.len(),
                self@.len() == self.ids@.len(),
                out@.len() == i,
                forall|j: int| 0 <= j < i ==> out@[j]@ == self@[j],
                self.wf() ==> forall|j: int| 0 <= j < i ==> (#[trigger] out@[j]).wf(),
            decreases self.ids@.len() - i,
        {
            out.push(self.ids[i].clone());
            assert(self@[i as int] == self.ids@[i as int]@);
            i = i + 1;
        }
        out
    }
}

} // verus!
