//! A suite's cases grouped by their ids' path components:
//! `foop/23/sub_feature/test1` nests under `foop`, then `foop/23`, then
//! `foop/23/sub_feature`. A view computed from the ids on demand; no tree
//! state is stored or kept in sync.

use vstd::prelude::*;
use vstd::slice::slice_to_vec;
use crate::case::EinmoCase;
use crate::stage::{deep_chars, id_views, ids_strictly_sorted, lemma_split_slash_nonempty, split_components, split_slash, EinmoId};
use crate::text::{
    compare_chars, lemma_seq_lt_irreflexive, lemma_seq_lt_transitive, lemma_seq_lt_trichotomy, seq_lt, string_of,
    Order,
};

verus! {

/// One node of a directory tree: a path component (empty for the root),
/// the cases whose id ends directly at this level, and child nodes for
/// deeper components, ordered by component.
pub struct DirectoryNode {
    /// This node's own path component; empty for the root.
    pub component: String,
    /// Cases whose id ends exactly at this node, in id order.
    pub cases: Vec<EinmoCase>,
    /// Deeper path components, in component order, each once.
    pub children: Vec<DirectoryNode>,
}

/// The directory components of the id text `x`: all but its last.
pub open spec fn dir_parts(x: Seq<char>) -> Seq<Seq<char>> {
    split_slash(x).drop_last()
}

/// The id text `x` lies at or below the directory `path`.
pub open spec fn below(x: Seq<char>, path: Seq<Seq<char>>) -> bool {
    &&& path.len() <= dir_parts(x).len()
    &&& dir_parts(x).subrange(0, path.len() as int) == path
}

/// The id text `x` lies below the child `c` of directory `path`.
pub open spec fn below_child(x: Seq<char>, path: Seq<Seq<char>>, c: Seq<char>) -> bool {
    &&& below(x, path)
    &&& dir_parts(x).len() > path.len()
    &&& dir_parts(x)[path.len() as int] == c
}

/// Some id of `ids` lies below the child `c` of directory `path`.
pub open spec fn has_child(ids: Seq<Seq<char>>, path: Seq<Seq<char>>, c: Seq<char>) -> bool {
    exists|x: Seq<char>| #[trigger] ids.contains(x) && below_child(x, path, c)
}

/// The ids of a list of cases.
pub open spec fn case_views(v: Seq<EinmoCase>) -> Seq<Seq<char>> {
    Seq::new(v.len(), |i: int| v[i]@)
}

/// The components of a list of nodes.
pub open spec fn node_components(v: Seq<DirectoryNode>) -> Seq<Seq<char>> {
    Seq::new(v.len(), |i: int| v[i].component@)
}

/// `node` is the directory tree of `ids` at directory `path`: its
/// component is the path's last; its cases are exactly the ids directly in
/// `path`, in order; its children are exactly the components one level
/// deeper that some id lies below, in order, each the tree at its own
/// path; and no node but the root is empty.
pub open spec fn tree_ok(node: DirectoryNode, path: Seq<Seq<char>>, ids: Seq<Seq<char>>) -> bool
    decreases node,
{
    &&& node.component@ == (if path.len() == 0 {
        Seq::<char>::empty()
    } else {
        path.last()
    })
    &&& ids_strictly_sorted(case_views(node.cases@))
    &&& forall|x: Seq<char>| #[trigger] case_views(node.cases@).contains(x) <==> (ids.contains(x) && dir_parts(x) == path)
    &&& ids_strictly_sorted(node_components(node.children@))
    &&& forall|c: Seq<char>| #[trigger] node_components(node.children@).contains(c) <==> has_child(ids, path, c)
    &&& (path.len() > 0 ==> node.cases@.len() > 0 || node.children@.len() > 0)
    &&& forall|i: int|
        0 <= i < node.children@.len() ==> tree_ok(
            #[trigger] node.children@[i],
            path.push(node.children@[i].component@),
            ids,
        )
}

/// Inserts `c` into the strictly increasing `v` unless it is there.
fn insert_component(v: &mut Vec<Vec<char>>, c: Vec<char>)
    requires
        ids_strictly_sorted(deep_chars(old(v)@)),
    ensures
        ids_strictly_sorted(deep_chars(final(v)@)),
        forall|y: Seq<char>| #[trigger] deep_chars(final(v)@).contains(y) <==> (deep_chars(old(v)@).contains(y) || y == c@),
{
    let ghost before = deep_chars(v@);
    let mut k: usize = 0;
    while k < v.len() && matches!(compare_chars(v[k].as_slice(), c.as_slice()), Order::Less)
        invariant
            k <= v@.len(),
            before == deep_chars(v@),
            forall|j: int| 0 <= j < k ==> seq_lt(#[trigger] before[j], c@),
        decreases v@.len() - k,
    {
        k = k + 1;
    }
    if k < v.len() && matches!(compare_chars(v[k].as_slice(), c.as_slice()), Order::Equal) {
        proof {
            assert(before[k as int] == c@);
        }
        return;
    }
    proof {
        if k < before.len() {
            lemma_seq_lt_trichotomy(before[k as int], c@);
            assert(seq_lt(c@, before[k as int]));
        }
        assert forall|j: int| k <= j < before.len() implies seq_lt(c@, #[trigger] before[j]) by {
            if j > k {
                lemma_seq_lt_transitive(c@, before[k as int], before[j]);
            }
        }
    }
    v.insert(k, c);
    proof {
        let after = deep_chars(v@);
        assert(after =~= before.insert(k as int, c@));
        assert forall|a: int, b: int| 0 <= a < b < after.len() implies seq_lt(#[trigger] after[a], #[trigger] after[b]) by {
            if a < k && b == k {
            } else if a < k && b > k {
                assert(after[b] == before[b - 1]);
                lemma_seq_lt_transitive(after[a], c@, after[b]);
            } else if a == k {
                assert(after[b] == before[b - 1]);
            } else if a > k {
                assert(after[a] == before[a - 1]);
                assert(after[b] == before[b - 1]);
            }
        }
        assert forall|y: Seq<char>| #[trigger] after.contains(y) <==> (before.contains(y) || y == c@) by {
            if after.contains(y) {
                let i = choose|i: int| 0 <= i < after.len() && after[i] == y;
                if i < k {
                    assert(before[i] == y);
                } else if i > k {
                    assert(before[i - 1] == y);
                }
            }
            if before.contains(y) {
                let i = choose|i: int| 0 <= i < before.len() && before[i] == y;
                if i < k {
                    assert(after[i] == y);
                } else {
                    assert(after[i + 1] == y);
                }
            }
            if y == c@ {
                assert(after[k as int] == y);
            }
        }
    }
}

/// Lying below the child `c` of `path` is lying below `path` extended
/// by `c`.
proof fn lemma_below_child(x: Seq<char>, path: Seq<Seq<char>>, c: Seq<char>)
    ensures
        below(x, path.push(c)) <==> below_child(x, path, c),
{
    let d = dir_parts(x);
    let n = path.len() as int;
    if below(x, path.push(c)) {
        assert(d.subrange(0, n) =~= path.push(c).subrange(0, n));
        assert(path.push(c).subrange(0, n) =~= path);
        assert(d[n] == d.subrange(0, n + 1)[n]);
    }
    if below_child(x, path, c) {
        assert(d.subrange(0, n + 1) =~= path.push(c));
    }
}

/// The ids of `items`, all below `path`, that lie below its child `c`, in
/// order.
fn items_below_child(items: &Vec<EinmoId>, depth: usize, c: &Vec<char>, Ghost(path): Ghost<Seq<Seq<char>>>) -> (r: Vec<
    EinmoId,
>)
    requires
        path.len() == depth,
        ids_strictly_sorted(id_views(items@)),
        forall|k: int| 0 <= k < items@.len() ==> below(#[trigger] items@[k]@, path),
    ensures
        ids_strictly_sorted(id_views(r@)),
        forall|x: Seq<char>| #[trigger] id_views(r@).contains(x) <==> (id_views(items@).contains(x) && below_child(x, path, c@)),
{
    let ghost iv = id_views(items@);
    let mut out: Vec<EinmoId> = Vec::new();
    let ghost mut last: int = -1;
    let mut i: usize = 0;
    while i < items.len()
        invariant
            iv == id_views(items@),
            ids_strictly_sorted(iv),
            path.len() == depth,
            forall|k: int| 0 <= k < items@.len() ==> below(#[trigger] items@[k]@, path),
            i <= items@.len(),
            ids_strictly_sorted(id_views(out@)),
            out@.len() > 0 ==> 0 <= last < i && id_views(out@).last() == iv[last],
            forall|x: Seq<char>| #[trigger] id_views(out@).contains(x) <==> (iv.take(i as int).contains(x) && below_child(x, path, c@)),
        decreases items@.len() - i,
    {
        let parts = split_components(items[i].chars().as_slice());
        let ghost x = iv[i as int];
        proof {
            assert(items@[i as int]@ == x);
            assert(iv.take(i + 1) =~= iv.take(i as int).push(x));
        }
        let mut hit = false;
        if depth < parts.len() && parts.len() - depth > 1 {
            let o = compare_chars(parts[depth].as_slice(), c.as_slice());
            hit = matches!(o, Order::Equal);
            proof {
                assert(parts@[depth as int]@ == split_slash(x)[depth as int]);
                assert(dir_parts(x)[depth as int] == parts@[depth as int]@);
                assert(hit <==> parts@[depth as int]@ == c@);
            }
        }
        proof {
            assert(split_slash(x).len() == parts@.len());
            assert(below(x, path));
            lemma_split_slash_nonempty(x);
            assert(dir_parts(x).len() == parts@.len() - 1);
            if hit {
                assert(dir_parts(x).len() > path.len());
                assert(dir_parts(x)[path.len() as int] == c@);
            }
            if below_child(x, path, c@) {
                assert(depth < parts@.len() && parts@.len() - depth > 1);
            }
            assert(hit <==> below_child(x, path, c@));
        }
        if hit {
            let ghost before = id_views(out@);
            out.push(items[i].duplicate());
            proof {
                let after = id_views(out@);
                assert(after =~= before.push(x));
                assert forall|a: int, b: int| 0 <= a < b < after.len() implies seq_lt(#[trigger] after[a], #[trigger] after[b]) by {
                    if b == after.len() - 1 && a < b {
                        assert(seq_lt(iv[last], x));
                        if a < before.len() - 1 {
                            lemma_seq_lt_transitive(after[a], before.last(), x);
                        }
                    }
                }
                assert forall|y: Seq<char>| #[trigger] after.contains(y) <==> (iv.take(i + 1).contains(y) && below_child(y, path, c@)) by {
                    if after.contains(y) && y != x {
                        let k = choose|k: int| 0 <= k < after.len() && after[k] == y;
                        assert(before[k] == y);
                    }
                    if before.contains(y) {
                        let k = choose|k: int| 0 <= k < before.len() && before[k] == y;
                        assert(after[k] == y);
                    }
                    let t1 = iv.take(i + 1);
                    let t0 = iv.take(i as int);
                    if t1.contains(y) && y != x {
                        let k = choose|k: int| 0 <= k < t1.len() && t1[k] == y;
                        assert(t0[k] == y);
                    }
                    if t0.contains(y) {
                        let k = choose|k: int| 0 <= k < t0.len() && t0[k] == y;
                        assert(t1[k] == y);
                    }
                    assert(after[after.len() - 1] == x);
                    assert(iv.take(i + 1)[i as int] == x);
                }
                last = i as int;
            }
        } else {
            proof {
                assert(!below_child(x, path, c@));
                assert forall|y: Seq<char>| #[trigger] id_views(out@).contains(y) <==> (iv.take(i + 1).contains(y) && below_child(y, path, c@)) by {
                    let t1 = iv.take(i + 1);
                    let t0 = iv.take(i as int);
                    if t1.contains(y) && y != x {
                        let k = choose|k: int| 0 <= k < t1.len() && t1[k] == y;
                        assert(t0[k] == y);
                    }
                    if t0.contains(y) {
                        let k = choose|k: int| 0 <= k < t0.len() && t0[k] == y;
                        assert(t1[k] == y);
                    }
                }
            }
        }
        i = i + 1;
    }
    proof {
        assert(iv.take(items@.len() as int) =~= iv);
    }
    out
}

/// Every id of `ids` has at most `bound` components.
pub open spec fn components_at_most(ids: Seq<Seq<char>>, bound: nat) -> bool {
    forall|x: Seq<char>| #[trigger] ids.contains(x) ==> split_slash(x).len() <= bound
}

/// The directory tree of `ids` at `path`, built from `items`: those ids
/// that lie below `path`, in order.
pub(crate) fn build_node(
    component: Vec<char>,
    depth: usize,
    bound: usize,
    items: Vec<EinmoId>,
    Ghost(path): Ghost<Seq<Seq<char>>>,
    Ghost(ids): Ghost<Seq<Seq<char>>>,
) -> (r: DirectoryNode)
    requires
        path.len() == depth,
        depth <= bound,
        component@ == (if depth == 0 {
            Seq::<char>::empty()
        } else {
            path.last()
        }),
        ids_strictly_sorted(id_views(items@)),
        forall|x: Seq<char>| #[trigger] id_views(items@).contains(x) <==> (ids.contains(x) && below(x, path)),
        components_at_most(ids, bound as nat),
        depth > 0 ==> items@.len() > 0,
    ensures
        tree_ok(r, path, ids),
    decreases bound - depth,
{
    let ghost iv = id_views(items@);
    let mut cases: Vec<EinmoCase> = Vec::new();
    let mut comps: Vec<Vec<char>> = Vec::new();
    let ghost mut last: int = -1;
    let mut i: usize = 0;
    proof {
        assert forall|k: int| 0 <= k < items@.len() implies below(#[trigger] items@[k]@, path) by {
            assert(iv[k] == items@[k]@);
            assert(iv.contains(iv[k]));
        }
        assert(case_views(cases@) =~= Seq::<Seq<char>>::empty());
        assert(deep_chars(comps@) =~= Seq::<Seq<char>>::empty());
    }
    while i < items.len()
        invariant
            iv == id_views(items@),
            ids_strictly_sorted(iv),
            path.len() == depth,
            forall|k: int| 0 <= k < items@.len() ==> below(#[trigger] items@[k]@, path),
            i <= items@.len(),
            ids_strictly_sorted(case_views(cases@)),
            cases@.len() > 0 ==> 0 <= last < i && case_views(cases@).last() == iv[last],
            forall|x: Seq<char>| #[trigger] case_views(cases@).contains(x) <==> (iv.take(i as int).contains(x) && dir_parts(x) == path),
            ids_strictly_sorted(deep_chars(comps@)),
            forall|c: Seq<char>| #[trigger] deep_chars(comps@).contains(c) <==> has_child(iv.take(i as int), path, c),
        decreases items@.len() - i,
    {
        let parts = split_components(items[i].chars().as_slice());
        let ghost x = iv[i as int];
        let ghost t0 = iv.take(i as int);
        let ghost t1 = iv.take(i + 1);
        proof {
            assert(items@[i as int]@ == x);
            assert(t1 =~= t0.push(x));
            assert(below(x, path));
            lemma_split_slash_nonempty(x);
            assert(dir_parts(x).len() == parts@.len() - 1);
            assert forall|y: Seq<char>| #[trigger] t1.contains(y) <==> (t0.contains(y) || y == x) by {
                if t1.contains(y) && y != x {
                    let k = choose|k: int| 0 <= k < t1.len() && t1[k] == y;
                    assert(t0[k] == y);
                }
                if t0.contains(y) {
                    let k = choose|k: int| 0 <= k < t0.len() && t0[k] == y;
                    assert(t1[k] == y);
                }
                assert(t1[i as int] == x);
            }
        }
        if parts.len() - depth == 1 {
            let ghost before = case_views(cases@);
            cases.push(EinmoCase::new(items[i].duplicate()));
            proof {
                assert(dir_parts(x) =~= path);
                let after = case_views(cases@);
                assert(after =~= before.push(x));
                assert forall|a: int, b: int| 0 <= a < b < after.len() implies seq_lt(#[trigger] after[a], #[trigger] after[b]) by {
                    if b == after.len() - 1 {
                        assert(seq_lt(iv[last], x));
                        if a < before.len() - 1 {
                            lemma_seq_lt_transitive(after[a], before.last(), x);
                        }
                    }
                }
                assert forall|y: Seq<char>| #[trigger] after.contains(y) <==> (t1.contains(y) && dir_parts(y) == path) by {
                    if after.contains(y) && y != x {
                        let k = choose|k: int| 0 <= k < after.len() && after[k] == y;
                        assert(before[k] == y);
                    }
                    if before.contains(y) {
                        let k = choose|k: int| 0 <= k < before.len() && before[k] == y;
                        assert(after[k] == y);
                    }
                    assert(after[after.len() - 1] == x);
                }
                assert forall|c: Seq<char>| #[trigger] deep_chars(comps@).contains(c) <==> has_child(t1, path, c) by {
                    if has_child(t1, path, c) {
                        let y = choose|y: Seq<char>| #[trigger] t1.contains(y) && below_child(y, path, c);
                        assert(y != x);
                        assert(t0.contains(y));
                    }
                    if has_child(t0, path, c) {
                        let y = choose|y: Seq<char>| #[trigger] t0.contains(y) && below_child(y, path, c);
                        assert(t1.contains(y));
                    }
                }
                last = i as int;
            }
        } else {
            let c = slice_to_vec(parts[depth].as_slice());
            let ghost before = deep_chars(comps@);
            proof {
                assert(parts@[depth as int]@ == split_slash(x)[depth as int]);
                assert(dir_parts(x)[depth as int] == c@);
                assert(below_child(x, path, c@));
            }
            insert_component(&mut comps, c);
            proof {
                assert forall|y: Seq<char>| #[trigger] case_views(cases@).contains(y) <==> (t1.contains(y) && dir_parts(y) == path) by {
                    if y == x {
                        assert(dir_parts(x) != path);
                    }
                }
                assert forall|d: Seq<char>| #[trigger] deep_chars(comps@).contains(d) <==> has_child(t1, path, d) by {
                    if has_child(t1, path, d) {
                        let y = choose|y: Seq<char>| #[trigger] t1.contains(y) && below_child(y, path, d);
                        if y != x {
                            assert(t0.contains(y));
                        }
                    }
                    if has_child(t0, path, d) {
                        let y = choose|y: Seq<char>| #[trigger] t0.contains(y) && below_child(y, path, d);
                        assert(t1.contains(y));
                    }
                    if d == c@ {
                        assert(t1.contains(x));
                    }
                }
            }
        }
        i = i + 1;
    }
    proof {
        assert(iv.take(items@.len() as int) =~= iv);
    }
    let mut children: Vec<DirectoryNode> = Vec::new();
    let mut j: usize = 0;
    proof {
        assert(node_components(children@) =~= deep_chars(comps@).take(0));
    }
    while j < comps.len()
        invariant
            iv == id_views(items@),
            ids_strictly_sorted(iv),
            path.len() == depth,
            depth <= bound,
            forall|k: int| 0 <= k < items@.len() ==> below(#[trigger] items@[k]@, path),
            forall|x: Seq<char>| #[trigger] iv.contains(x) <==> (ids.contains(x) && below(x, path)),
            components_at_most(ids, bound as nat),
            forall|c: Seq<char>| #[trigger] deep_chars(comps@).contains(c) <==> has_child(iv, path, c),
            j <= comps@.len(),
            node_components(children@) == deep_chars(comps@).take(j as int),
            forall|k: int|
                0 <= k < children@.len() ==> tree_ok(
                    #[trigger] children@[k],
                    path.push(children@[k].component@),
                    ids,
                ),
        decreases comps@.len() - j,
    {
        let c = slice_to_vec(comps[j].as_slice());
        let sub = items_below_child(&items, depth, &c, Ghost(path));
        let ghost sub_path = path.push(c@);
        proof {
            assert(deep_chars(comps@)[j as int] == c@);
            assert(deep_chars(comps@).contains(c@));
            assert(has_child(iv, path, c@));
            let y = choose|y: Seq<char>| #[trigger] iv.contains(y) && below_child(y, path, c@);
            assert(ids.contains(y));
            lemma_split_slash_nonempty(y);
            assert(split_slash(y).len() <= bound);
            assert(depth + 1 <= bound);
            assert(id_views(sub@).contains(y));
            assert forall|x: Seq<char>| #[trigger] id_views(sub@).contains(x) <==> (ids.contains(x) && below(x, sub_path)) by {
                lemma_below_child(x, path, c@);
            }
            assert(sub_path.last() == c@);
        }
        let child = build_node(c, depth + 1, bound, sub, Ghost(sub_path), Ghost(ids));
        proof {
            assert(child.component@ == sub_path.last());
            assert(child.component@ == deep_chars(comps@)[j as int]);
        }
        let ghost before = children@;
        let ghost cc = child.component@;
        proof {
            assert(node_components(before).len() == before.len());
            assert(deep_chars(comps@).take(j as int).len() == j);
            assert(before.len() == j);
        }
        children.push(child);
        proof {
            assert(children@.len() == j + 1);
            assert(children@[j as int].component@ == cc);
            assert forall|k: int| 0 <= k < j + 1 implies #[trigger] node_components(children@)[k] == deep_chars(comps@).take(j + 1)[k] by {
                if k < j {
                    assert(children@[k] == before[k]);
                    assert(node_components(before)[k] == deep_chars(comps@).take(j as int)[k]);
                }
            }
            assert(node_components(children@) =~= deep_chars(comps@).take(j + 1));
            assert forall|k: int|
                0 <= k < children@.len() implies tree_ok(
                    #[trigger] children@[k],
                    path.push(children@[k].component@),
                    ids,
                ) by {
                if k < before.len() {
                    assert(children@[k] == before[k]);
                }
            }
        }
        j = j + 1;
    }
    proof {
        assert(deep_chars(comps@).take(comps@.len() as int) =~= deep_chars(comps@));
        assert forall|x: Seq<char>| #[trigger] case_views(cases@).contains(x) <==> (ids.contains(x) && dir_parts(x) == path) by {
            if ids.contains(x) && dir_parts(x) == path {
                assert(dir_parts(x).subrange(0, path.len() as int) =~= path);
                assert(iv.contains(x));
            }
        }
        assert forall|c: Seq<char>| #[trigger] node_components(children@).contains(c) <==> has_child(ids, path, c) by {
            if has_child(ids, path, c) {
                let y = choose|y: Seq<char>| #[trigger] ids.contains(y) && below_child(y, path, c);
                assert(iv.contains(y));
            }
            if has_child(iv, path, c) {
                let y = choose|y: Seq<char>| #[trigger] iv.contains(y) && below_child(y, path, c);
                assert(ids.contains(y));
            }
        }
        if depth > 0 {
            let x0 = iv[0];
            assert(iv.contains(x0));
            assert(below(x0, path));
            if dir_parts(x0) == path {
                assert(case_views(cases@).contains(x0));
            } else {
                assert(dir_parts(x0).len() > path.len()) by {
                    if dir_parts(x0).len() == path.len() {
                        assert(dir_parts(x0) =~= dir_parts(x0).subrange(0, path.len() as int));
                    }
                }
                let c0 = dir_parts(x0)[path.len() as int];
                assert(below_child(x0, path, c0));
                assert(has_child(iv, path, c0));
                assert(deep_chars(comps@).contains(c0));
            }
        }
    }
    DirectoryNode { component: string_of(component.as_slice()), cases, children }
}

} // verus!
