//! Deriving the changed-files list of a commit.
//!
//! Given the child's root manifest and the root manifests of up to two
//! parents, a file is changed when it is new, removed, or bound to a node
//! that differs from the parents'. With two parents, a file carried by
//! exactly one of them counts as changed outright; one carried by both with
//! the same node counts as changed only when the child's binding differs
//! from it. The result is the byte-sorted list of changed paths.

use vstd::prelude::*;

use crate::hash::{
    lemma_lex_le_antisym, lemma_lex_le_total, lemma_lex_le_trans, lex_le, lex_lt, lex_lt_bytes,
    NodeId,
};
use crate::manifest::{BlobManifest, EntryType};

verus! {

/// The node bound to `f`, if the manifest carries `f`.
pub open spec fn entry_of(m: Map<Seq<u8>, (Seq<u8>, EntryType)>, f: Seq<u8>) -> Option<Seq<u8>> {
    if m.contains_key(f) {
        Some(m[f].0)
    } else {
        None
    }
}

/// Whether `f` counts as changed in the child against the parents.
pub open spec fn file_changed(
    child: Map<Seq<u8>, (Seq<u8>, EntryType)>,
    p1: Option<Map<Seq<u8>, (Seq<u8>, EntryType)>>,
    p2: Option<Map<Seq<u8>, (Seq<u8>, EntryType)>>,
    f: Seq<u8>,
) -> bool {
    match (p1, p2) {
        (None, None) => child.contains_key(f),
        (Some(m1), None) => entry_of(child, f) != entry_of(m1, f),
        (None, Some(m2)) => entry_of(child, f) != entry_of(m2, f),
        (Some(m1), Some(m2)) => {
            let n1 = entry_of(m1, f);
            let n2 = entry_of(m2, f);
            if n1 is Some && n2 is Some {
                entry_of(child, f) != n1 && entry_of(child, f) != n2
            } else if n1 is Some || n2 is Some {
                true
            } else {
                child.contains_key(f)
            }
        },
    }
}

/// Whether the paths are in strictly increasing bytewise order.
pub open spec fn sorted_strict(s: Seq<Seq<u8>>) -> bool {
    forall|i: int, j: int| 0 <= i < j < s.len() ==> lex_lt(#[trigger] s[i], #[trigger] s[j])
}

/// Two strictly sorted lists with the same members are the same list: the
/// sorted changed-files list is determined by the changed set.
pub proof fn lemma_sorted_strict_unique(a: Seq<Seq<u8>>, b: Seq<Seq<u8>>)
    requires
        sorted_strict(a),
        sorted_strict(b),
        forall|f: Seq<u8>| a.contains(f) <==> b.contains(f),
    ensures
        a == b,
    decreases a.len(),
{
    if a.len() == 0 {
        if b.len() > 0 {
            assert(b.contains(b[0]));
            assert(a.contains(b[0]));
            let k = choose|k: int| 0 <= k < a.len() && a[k] == b[0];
            assert(false);
        }
        assert(a =~= b);
    } else {
        assert(b.len() > 0) by {
            assert(a.contains(a[0]));
            assert(b.contains(a[0]));
        }
        assert(a[0] == b[0]) by {
            assert(a.contains(a[0]));
            assert(b.contains(a[0]));
            let j = choose|j: int| 0 <= j < b.len() && b[j] == a[0];
            assert(b.contains(b[0]));
            assert(a.contains(b[0]));
            let k = choose|k: int| 0 <= k < a.len() && a[k] == b[0];
            if j > 0 && k > 0 {
                assert(lex_lt(b[0], b[j]));
                assert(lex_lt(a[0], a[k]));
                lemma_lex_le_antisym(a[0], b[0]);
                assert(false);
            }
        }
        let at = a.skip(1);
        let bt = b.skip(1);
        assert forall|f: Seq<u8>| at.contains(f) implies bt.contains(f) by {
            let m = choose|m: int| 0 <= m < at.len() && at[m] == f;
            assert(a[m + 1] == f);
            assert(lex_lt(a[0], f));
            assert(b.contains(f));
            let j = choose|j: int| 0 <= j < b.len() && b[j] == f;
            assert(j != 0) by {
                if j == 0 {
                    assert(f == b[0]);
                    assert(f == a[0]);
                }
            }
            assert(bt[j - 1] == f);
        }
        assert forall|f: Seq<u8>| bt.contains(f) implies at.contains(f) by {
            let m = choose|m: int| 0 <= m < bt.len() && bt[m] == f;
            assert(b[m + 1] == f);
            assert(lex_lt(b[0], f));
            assert(a.contains(f));
            let j = choose|j: int| 0 <= j < a.len() && a[j] == f;
            assert(j != 0) by {
                if j == 0 {
                    assert(f == a[0]);
                    assert(f == b[0]);
                }
            }
            assert(at[j - 1] == f);
        }
        lemma_sorted_strict_unique(at, bt);
        assert(a.len() == b.len());
        assert forall|i: int| 0 <= i < a.len() implies a[i] == b[i] by {
            if i > 0 {
                assert(at[i - 1] == a[i]);
                assert(bt[i - 1] == b[i]);
            }
        }
        assert(a =~= b);
    }
}

/// The views of a list of paths.
pub open spec fn paths_view(s: Seq<Vec<u8>>) -> Seq<Seq<u8>> {
    Seq::new(s.len(), |i: int| s[i]@)
}

/// Insert a path into a strictly sorted list, keeping it strictly sorted;
/// inserting a present path changes nothing.
pub fn insert_sorted(out: &mut Vec<Vec<u8>>, item: Vec<u8>)
    requires
        sorted_strict(paths_view(old(out)@)),
    ensures
        sorted_strict(paths_view(final(out)@)),
        forall|f: Seq<u8>| paths_view(final(out)@).contains(f) <==> (paths_view(
            old(out)@,
        ).contains(f) || f == item@),
{
    let ghost pre = paths_view(out@);
    let mut i: usize = 0;
    while i < out.len() && lex_lt_bytes(&out[i], &item)
        invariant
            i <= out@.len(),
            pre == paths_view(out@),
            sorted_strict(pre),
            forall|j: int| 0 <= j < i ==> lex_lt(#[trigger] pre[j], item@),
        decreases out@.len() - i,
    {
        proof {
            assert(pre[i as int] == out@[i as int]@);
        }
        i = i + 1;
    }
    let at_end = i == out.len();
    if !at_end {
        let same = out[i] == item;
        proof {
            if out@[i as int]@ =~= item@ {
                assert(out@[i as int]@ == item@);
            }
        }
        if same {
            proof {
                assert(pre[i as int] == item@);
                assert(pre.contains(item@));
            }
            return ;
        }
    }
    proof {
        if i < out@.len() {
            assert(pre[i as int] == out@[i as int]@);
            assert(!lex_lt(pre[i as int], item@));
            assert(pre[i as int] != item@);
            lemma_lex_le_total(pre[i as int], item@);
            if lex_le(pre[i as int], item@) && lex_le(item@, pre[i as int]) {
                lemma_lex_le_antisym(pre[i as int], item@);
            }
            assert(lex_lt(item@, pre[i as int]));
        }
    }
    let ghost item_v = item@;
    out.insert(i, item);
    proof {
        let post = paths_view(out@);
        assert(post.len() == pre.len() + 1);
        assert(post[i as int] == item_v);
        assert(forall|j: int| 0 <= j < i ==> post[j] == pre[j]);
        assert(forall|j: int| i < j < post.len() ==> post[j] == pre[j - 1]);
        assert forall|a: int, b: int| 0 <= a < b < post.len() implies lex_lt(
            #[trigger] post[a],
            #[trigger] post[b],
        ) by {
            if a == i {
                if b > i {
                    assert(post[b] == pre[b - 1]);
                    assert(b - 1 >= i);
                    if b - 1 == i {
                        assert(lex_lt(item_v, pre[i as int]));
                    } else {
                        assert(lex_lt(pre[i as int], pre[b - 1]));
                        assert(lex_lt(item_v, pre[i as int]));
                        lemma_lex_le_trans(item_v, pre[i as int], pre[b - 1]);
                        if item_v == pre[b - 1] {
                            lemma_lex_le_antisym(item_v, pre[i as int]);
                        }
                    }
                }
            } else if b == i {
                assert(post[a] == pre[a]);
                assert(lex_lt(pre[a], item_v));
            } else if a < i && b > i {
                assert(post[a] == pre[a]);
                assert(post[b] == pre[b - 1]);
                if b - 1 == a {
                    assert(a < i && a >= i);
                } else {
                    assert(lex_lt(pre[a], pre[b - 1]));
                }
            } else if a < i && b < i {
                assert(lex_lt(pre[a], pre[b]));
            } else {
                assert(a > i && b > i);
                assert(lex_lt(pre[a - 1], pre[b - 1]));
            }
        }
        assert forall|f: Seq<u8>| post.contains(f) <==> (pre.contains(f) || f == item_v) by {
            if post.contains(f) {
                let j = choose|j: int| 0 <= j < post.len() && post[j] == f;
                if j == i {
                } else if j < i {
                    assert(pre[j] == f);
                } else {
                    assert(pre[j - 1] == f);
                }
            }
            if pre.contains(f) {
                let j = choose|j: int| 0 <= j < pre.len() && pre[j] == f;
                if j < i {
                    assert(post[j] == f);
                } else {
                    assert(post[j + 1] == f);
                }
            }
            if f == item_v {
                assert(post[i as int] == f);
            }
        }
    }
}

/// The node bound to `f` in a manifest, as an optional id.
fn lookup_node(m: &BlobManifest, f: &Vec<u8>) -> (r: Option<NodeId>)
    requires
        m.wf(),
    ensures
        crate::hash::opt_id_view(r) == entry_of(m.lookup_map(), f@),
        crate::hash::opt_id_wf(r),
{
    match m.lookup(f) {
        Some((node, _)) => Some(node),
        None => None,
    }
}

/// The spec maps of optional parent manifests.
pub open spec fn opt_map_view(m: Option<&BlobManifest>) -> Option<
    Map<Seq<u8>, (Seq<u8>, EntryType)>,
> {
    match m {
        Some(mf) => Some(mf.lookup_map()),
        None => None,
    }
}

/// Whether `f` is changed, computed against the manifests.
fn changed_for(
    f: &Vec<u8>,
    child: &BlobManifest,
    p1: Option<&BlobManifest>,
    p2: Option<&BlobManifest>,
) -> (r: bool)
    requires
        child.wf(),
        p1 matches Some(m) ==> m.wf(),
        p2 matches Some(m) ==> m.wf(),
    ensures
        r == file_changed(child.lookup_map(), opt_map_view(p1), opt_map_view(p2), f@),
{
    let cn = lookup_node(child, f);
    match (p1, p2) {
        (None, None) => cn.is_some(),
        (Some(m1), None) => {
            let n1 = lookup_node(m1, f);
            !opt_id_eq(&cn, &n1)
        },
        (None, Some(m2)) => {
            let n2 = lookup_node(m2, f);
            !opt_id_eq(&cn, &n2)
        },
        (Some(m1), Some(m2)) => {
            let n1 = lookup_node(m1, f);
            let n2 = lookup_node(m2, f);
            match (&n1, &n2) {
                (Some(_), Some(_)) => !opt_id_eq(&cn, &n1) && !opt_id_eq(&cn, &n2),
                (None, None) => cn.is_some(),
                _ => true,
            }
        },
    }
}

/// Whether two optional ids denote the same value.
fn opt_id_eq(a: &Option<NodeId>, b: &Option<NodeId>) -> (r: bool)
    ensures
        r == (crate::hash::opt_id_view(*a) == crate::hash::opt_id_view(*b)),
{
    match (a, b) {
        (Some(x), Some(y)) => x == y,
        (None, None) => true,
        _ => false,
    }
}

/// Compute the byte-sorted list of files changed by a commit whose root
/// manifest is `child`, against the root manifests of its present parents.
///
/// The result is strictly sorted and holds exactly the changed paths.
pub fn compute_changed_files(
    child: &BlobManifest,
    p1: Option<&BlobManifest>,
    p2: Option<&BlobManifest>,
) -> (r: Vec<Vec<u8>>)
    requires
        child.wf(),
        p1 matches Some(m) ==> m.wf(),
        p2 matches Some(m) ==> m.wf(),
    ensures
        sorted_strict(paths_view(r@)),
        forall|f: Seq<u8>| paths_view(r@).contains(f) <==> file_changed(
            child.lookup_map(),
            opt_map_view(p1),
            opt_map_view(p2),
            f,
        ),
{
    let mut candidates: Vec<Vec<u8>> = Vec::new();
    proof {
        assert(paths_view(candidates@) =~= Seq::<Seq<u8>>::empty());
    }
    gather_paths(&mut candidates, child);
    match p1 {
        Some(m) => gather_paths(&mut candidates, m),
        None => (),
    }
    match p2 {
        Some(m) => gather_paths(&mut candidates, m),
        None => (),
    }
    let ghost cands = paths_view(candidates@);
    let mut out: Vec<Vec<u8>> = Vec::new();
    proof {
        assert(paths_view(out@) =~= Seq::<Seq<u8>>::empty());
    }
    let mut i: usize = 0;
    while i < candidates.len()
        invariant
            i <= candidates@.len(),
            cands == paths_view(candidates@),
            child.wf(),
            p1 matches Some(m) ==> m.wf(),
            p2 matches Some(m) ==> m.wf(),
            sorted_strict(paths_view(out@)),
            forall|f: Seq<u8>| paths_view(out@).contains(f) ==> (cands.contains(f) && file_changed(
                child.lookup_map(),
                opt_map_view(p1),
                opt_map_view(p2),
                f,
            )),
            forall|j: int|
                0 <= j < i && file_changed(
                    child.lookup_map(),
                    opt_map_view(p1),
                    opt_map_view(p2),
                    #[trigger] cands[j],
                ) ==> paths_view(out@).contains(cands[j]),
        decreases candidates@.len() - i,
    {
        let f = &candidates[i];
        proof {
            assert(cands[i as int] == candidates@[i as int]@);
        }
        if changed_for(f, child, p1, p2) {
            let copy = crate::codec::subvec(f, 0, f.len());
            proof {
                assert(copy@ =~= f@);
            }
            insert_sorted(&mut out, copy);
            proof {
                assert(cands.contains(cands[i as int]));
            }
        }
        i = i + 1;
    }
    proof {
        assert forall|f: Seq<u8>| paths_view(out@).contains(f) <==> file_changed(
            child.lookup_map(),
            opt_map_view(p1),
            opt_map_view(p2),
            f,
        ) by {
            if file_changed(child.lookup_map(), opt_map_view(p1), opt_map_view(p2), f) {
                lemma_changed_in_union(child, p1, p2, f);
                assert(cands.contains(f));
                let j = choose|j: int| 0 <= j < cands.len() && cands[j] == f;
                assert(paths_view(out@).contains(cands[j]));
            }
        }
    }
    out
}

/// Append every path of the manifest to `acc`; afterwards `acc`'s paths are
/// the old ones together with the manifest's.
fn gather_paths(acc: &mut Vec<Vec<u8>>, m: &BlobManifest)
    requires
        m.wf(),
    ensures
        forall|f: Seq<u8>| paths_view(final(acc)@).contains(f) <==> (paths_view(
            old(acc)@,
        ).contains(f) || m.lookup_map().contains_key(f)),
{
    let rows = m.list();
    let ghost pre = paths_view(acc@);
    let mut i: usize = 0;
    while i < rows.len()
        invariant
            i <= rows@.len(),
            m.wf(),
            rows@.len() == m.items_view().len(),
            forall|j: int| 0 <= j < rows@.len() ==> (#[trigger] rows@[j]).view_item()
                == m.items_view()[j],
            forall|f: Seq<u8>| paths_view(acc@).contains(f) <==> (pre.contains(f) || exists|j: int|
                0 <= j < i && (#[trigger] m.items_view()[j]).0 == f),
        decreases rows@.len() - i,
    {
        let ghost before = paths_view(acc@);
        let path_copy = crate::codec::subvec(&rows[i].path, 0, rows[i].path.len());
        proof {
            assert(path_copy@ =~= rows@[i as int].path@);
            assert(rows@[i as int].view_item().0 == rows@[i as int].path@);
        }
        acc.push(path_copy);
        proof {
            let now = paths_view(acc@);
            assert(now =~= before.push(m.items_view()[i as int].0));
            assert forall|f: Seq<u8>| now.contains(f) implies (pre.contains(f) || exists|j: int|
                0 <= j < i + 1 && (#[trigger] m.items_view()[j]).0 == f) by {
                let k = choose|k: int| 0 <= k < now.len() && now[k] == f;
                if k < before.len() {
                    assert(before.contains(f));
                } else {
                    assert(m.items_view()[i as int].0 == f);
                }
            }
            assert forall|f: Seq<u8>| (pre.contains(f) || exists|j: int|
                0 <= j < i + 1 && (#[trigger] m.items_view()[j]).0 == f) implies now.contains(
                f,
            ) by {
                if pre.contains(f) {
                    assert(before.contains(f));
                    let k = choose|k: int| 0 <= k < before.len() && before[k] == f;
                    assert(now[k] == f);
                } else {
                    let j = choose|j: int| 0 <= j < i + 1 && (#[trigger] m.items_view()[j]).0 == f;
                    if j < i {
                        assert(before.contains(f));
                        let k = choose|k: int| 0 <= k < before.len() && before[k] == f;
                        assert(now[k] == f);
                    } else {
                        assert(now[now.len() - 1] == f);
                    }
                }
            }
        }
        i = i + 1;
    }
    proof {
        assert forall|f: Seq<u8>| (exists|j: int|
            0 <= j < rows@.len() && (#[trigger] m.items_view()[j]).0 == f) implies m
            .lookup_map().contains_key(f) by {
            let j = choose|j: int| 0 <= j < rows@.len() && (#[trigger] m.items_view()[j]).0 == f;
            let pairs = Seq::new(
                m.items_view().len(),
                |q: int| (m.items_view()[q].0, (m.items_view()[q].1, m.items_view()[q].2)),
            );
            crate::kvlist::lemma_kv_map_contains(pairs, j);
        }
        assert forall|f: Seq<u8>| #[trigger] m.lookup_map().contains_key(f) implies (exists|j: int|
            0 <= j < rows@.len() && (#[trigger] m.items_view()[j]).0 == f) by {
            let pairs = Seq::new(
                m.items_view().len(),
                |q: int| (m.items_view()[q].0, (m.items_view()[q].1, m.items_view()[q].2)),
            );
            crate::kvlist::lemma_kv_map_dom(pairs, f);
            let j = choose|j: int| 0 <= j < pairs.len() && pairs[j].0 == f;
            assert(m.items_view()[j].0 == f);
        }
    }
}

/// A changed file is carried by the child or by a present parent.
proof fn lemma_changed_in_union(
    child: &BlobManifest,
    p1: Option<&BlobManifest>,
    p2: Option<&BlobManifest>,
    f: Seq<u8>,
)
    requires
        file_changed(child.lookup_map(), opt_map_view(p1), opt_map_view(p2), f),
    ensures
        child.lookup_map().contains_key(f) || (p1 matches Some(m)
            && m.lookup_map().contains_key(f)) || (p2 matches Some(m)
            && m.lookup_map().contains_key(f)),
{
}

} // verus!
