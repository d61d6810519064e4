//! Facts about the ancestor relation `is_under` and the depth-first
//! enumeration of a well-formed aggregate view.

use vstd::prelude::*;
use vstd::seq_lib::group_seq_properties;
use vstd::seq_lib::lemma_no_dup_in_concat;

use crate::book::BookView;
use crate::errors::NodeId;

verus! {

broadcast use group_seq_properties;

/// `x` lies in the subtree of some element of `ids`.
pub open spec fn under_any(v: BookView, x: NodeId, ids: Seq<NodeId>) -> bool {
    exists|i: int| 0 <= i < ids.len() && v.is_under(x, #[trigger] ids[i])
}

/// Walking up from `x` to `r` only ever decreases the depth: an ancestor is
/// at most as deep, and strictly less deep unless it is the node itself.
pub proof fn lemma_is_under_depth(v: BookView, x: NodeId, r: NodeId)
    requires
        v.wf(),
        v.has(x),
        v.is_under(x, r),
    ensures
        v.has(r),
        v.depths[x] >= v.depths[r],
        (x == r) <==> (v.depths[x] == v.depths[r]),
    decreases v.depths[x],
{
    if x != r {
        assert(v.node_ok(x));
        let p = v.nodes[x].parent->0;
        lemma_is_under_depth(v, p, r);
    }
}

/// The ancestor relation is transitive.
pub proof fn lemma_is_under_trans(v: BookView, x: NodeId, y: NodeId, z: NodeId)
    requires
        v.wf(),
        v.has(x),
        v.is_under(x, y),
        v.is_under(y, z),
    ensures
        v.is_under(x, z),
    decreases v.depths[x],
{
    if x != y {
        assert(v.node_ok(x));
        let p = v.nodes[x].parent->0;
        lemma_is_under_trans(v, p, y, z);
    }
}

/// Two ancestors of one node lie on a single chain: one is under the other.
pub proof fn lemma_under_two(v: BookView, x: NodeId, a: NodeId, b: NodeId)
    requires
        v.wf(),
        v.has(x),
        v.is_under(x, a),
        v.is_under(x, b),
    ensures
        v.is_under(a, b) || v.is_under(b, a),
    decreases v.depths[x],
{
    if x != a && x != b {
        assert(v.node_ok(x));
        let p = v.nodes[x].parent->0;
        lemma_under_two(v, p, a, b);
    }
}

/// A proper descendant of `r` lies in the subtree of exactly one of `r`'s
/// children; this names that child.
pub proof fn lemma_branch_child(v: BookView, x: NodeId, r: NodeId)
    requires
        v.wf(),
        v.has(x),
        v.is_under(x, r),
        x != r,
    ensures
        exists|c: NodeId|
            #![trigger v.nodes[r].children.contains(c)]
            v.nodes[r].children.contains(c) && v.has(c) && v.is_under(x, c),
    decreases v.depths[x],
{
    assert(v.node_ok(x));
    let p = v.nodes[x].parent->0;
    if p == r {
        assert(v.nodes[r].children.contains(x) && v.has(x) && v.is_under(x, x));
    } else {
        lemma_branch_child(v, p, r);
        let c = choose|c: NodeId|
            #![trigger v.nodes[r].children.contains(c)]
            v.nodes[r].children.contains(c) && v.has(c) && v.is_under(p, c);
        assert(v.is_under(x, c));
    }
}

/// The depth-first enumeration of a subtree visits exactly the subtree's
/// nodes, each once.
pub proof fn lemma_subtree_props(v: BookView, id: NodeId)
    requires
        v.wf(),
        v.has(id),
    ensures
        v.subtree_ids(id).no_duplicates(),
        forall|x: NodeId|
            #[trigger] v.subtree_ids(id).contains(x) <==> (v.has(x) && v.is_under(x, id)),
    decreases v.rank(id) + 1, 0nat,
{
    let s = v.subtree_ids(id);
    let kids = v.nodes[id].children;
    let f = v.forest_ids(kids, v.rank(id));
    assert(v.node_ok(id));
    assert forall|i: int| 0 <= i < kids.len() implies {
        &&& v.has(#[trigger] kids[i])
        &&& v.rank(kids[i]) < v.rank(id)
        &&& v.is_under(kids[i], id)
    } by {
        assert(v.child_ok(id, kids[i]));
        assert(v.node_ok(kids[i]));
        assert(v.is_under(id, id));
    }
    assert forall|i: int, j: int|
        0 <= i < kids.len() && 0 <= j < kids.len() && i != j implies !v.is_under(
        #[trigger] kids[i],
        #[trigger] kids[j],
    ) by {
        if v.is_under(kids[i], kids[j]) {
            lemma_is_under_depth(v, kids[i], kids[j]);
            assert(v.child_ok(id, kids[i]));
            assert(v.child_ok(id, kids[j]));
            assert(v.node_ok(kids[i]));
            assert(v.node_ok(kids[j]));
            assert(kids[i] == kids[j]);
        }
    }
    lemma_forest_props(v, kids, v.rank(id));
    assert(s == seq![id] + f);
    // `id` itself is not among the children's subtrees
    assert forall|x: NodeId| #[trigger] f.contains(x) implies x != id by {
        let i = choose|i: int| 0 <= i < kids.len() && v.is_under(x, #[trigger] kids[i]);
        lemma_is_under_depth(v, x, kids[i]);
        assert(v.child_ok(id, kids[i]));
        assert(v.node_ok(kids[i]));
    }
    assert(seq![id].no_duplicates());
    assert forall|i: int, j: int| 0 <= i < seq![id].len() && 0 <= j < f.len() implies seq![id][i]
        != f[j] by {
        assert(f.contains(f[j]));
    }
    lemma_no_dup_in_concat(seq![id], f);
    assert forall|x: NodeId| #[trigger] s.contains(x) implies (v.has(x) && v.is_under(x, id)) by {
        if x == id {
            assert(v.is_under(id, id));
        } else {
            assert(f.contains(x));
            let i = choose|i: int| 0 <= i < kids.len() && v.is_under(x, #[trigger] kids[i]);
            lemma_is_under_trans(v, x, kids[i], id);
        }
    }
    assert forall|x: NodeId| v.has(x) && v.is_under(x, id) implies #[trigger] s.contains(x) by {
        if x == id {
            assert(s[0] == id);
        } else {
            lemma_branch_child(v, x, id);
            let c = choose|c: NodeId|
                #![trigger v.nodes[id].children.contains(c)]
                v.nodes[id].children.contains(c) && v.has(c) && v.is_under(x, c);
            let i = choose|i: int| 0 <= i < kids.len() && kids[i] == c;
            assert(v.is_under(x, kids[i]));
            assert(under_any(v, x, kids));
            assert(f.contains(x));
        }
    }
}

/// The depth-first enumeration of a list of mutually un-nested subtrees
/// visits exactly their union, each node once.
pub proof fn lemma_forest_props(v: BookView, ids: Seq<NodeId>, r: nat)
    requires
        v.wf(),
        forall|i: int|
            0 <= i < ids.len() ==> v.has(#[trigger] ids[i]) && v.rank(ids[i]) < r,
        ids.no_duplicates(),
        forall|i: int, j: int|
            0 <= i < ids.len() && 0 <= j < ids.len() && i != j ==> !v.is_under(
                #[trigger] ids[i],
                #[trigger] ids[j],
            ),
    ensures
        v.forest_ids(ids, r).no_duplicates(),
        forall|x: NodeId|
            #[trigger] v.forest_ids(ids, r).contains(x) <==> (v.has(x) && under_any(v, x, ids)),
    decreases r, ids.len(),
{
    let f = v.forest_ids(ids, r);
    if ids.len() == 0 {
        assert forall|x: NodeId| #[trigger] f.contains(x) implies false by {}
    } else {
        let head = ids[0];
        let rest = ids.drop_first();
        let sh = v.subtree_ids(head);
        let fr = v.forest_ids(rest, r);
        assert(v.rank(head) < r);
        assert(f == sh + fr);
        lemma_subtree_props(v, head);
        assert forall|i: int| 0 <= i < rest.len() implies {
            &&& v.has(#[trigger] rest[i])
            &&& v.rank(rest[i]) < r
        } by {
            assert(rest[i] == ids[i + 1]);
        }
        assert forall|i: int, j: int|
            0 <= i < rest.len() && 0 <= j < rest.len() && i != j implies !v.is_under(
            #[trigger] rest[i],
            #[trigger] rest[j],
        ) by {
            assert(rest[i] == ids[i + 1] && rest[j] == ids[j + 1]);
        }
        lemma_forest_props(v, rest, r);
        // the head's subtree and the remaining forest are disjoint
        assert forall|i: int, j: int|
            0 <= i < sh.len() && 0 <= j < fr.len() implies sh[i] != fr[j] by {
            let x = sh[i];
            if x == fr[j] {
                assert(sh.contains(x));
                assert(fr.contains(x));
                let k = choose|k: int| 0 <= k < rest.len() && v.is_under(x, #[trigger] rest[k]);
                lemma_under_two(v, x, head, rest[k]);
                assert(rest[k] == ids[k + 1]);
            }
        }
        lemma_no_dup_in_concat(sh, fr);
        assert forall|x: NodeId| #[trigger] f.contains(x) implies (v.has(x) && under_any(
            v,
            x,
            ids,
        )) by {
            if sh.contains(x) {
                assert(v.is_under(x, ids[0]));
            } else {
                assert(fr.contains(x));
                let k = choose|k: int| 0 <= k < rest.len() && v.is_under(x, #[trigger] rest[k]);
                assert(v.is_under(x, ids[k + 1]));
            }
        }
        assert forall|x: NodeId| v.has(x) && under_any(v, x, ids) implies #[trigger] f.contains(
            x,
        ) by {
            let i = choose|i: int| 0 <= i < ids.len() && v.is_under(x, #[trigger] ids[i]);
            if i == 0 {
                assert(sh.contains(x));
            } else {
                assert(rest[i - 1] == ids[i]);
                assert(under_any(v, x, rest));
                assert(fr.contains(x));
            }
        }
    }
}

/// The depth-first enumeration of a forest splits over concatenation of the
/// root lists.
pub proof fn lemma_forest_concat(v: BookView, a: Seq<NodeId>, b: Seq<NodeId>, r: nat)
    ensures
        v.forest_ids(a + b, r) == v.forest_ids(a, r) + v.forest_ids(b, r),
    decreases a.len(),
{
    if a.len() == 0 {
        assert(a + b =~= b);
        assert(v.forest_ids(a, r) + v.forest_ids(b, r) =~= v.forest_ids(b, r));
    } else {
        assert((a + b)[0] == a[0]);
        assert((a + b).drop_first() =~= a.drop_first() + b);
        lemma_forest_concat(v, a.drop_first(), b, r);
        if v.rank(a[0]) < r {
            assert(v.forest_ids(a + b, r) =~= v.forest_ids(a, r) + v.forest_ids(b, r));
        } else {
            assert(v.forest_ids(a + b, r) =~= v.forest_ids(a, r) + v.forest_ids(b, r));
        }
    }
}

/// A one-element forest is that element's subtree, provided its rank fits.
pub proof fn lemma_forest_single(v: BookView, x: NodeId, r: nat)
    requires
        v.rank(x) < r,
    ensures
        v.forest_ids(seq![x], r) == v.subtree_ids(x),
{
    assert(seq![x].drop_first() =~= Seq::<NodeId>::empty());
    assert(seq![x][0] == x);
    assert(v.forest_ids(seq![x], r) == v.subtree_ids(x) + v.forest_ids(
        Seq::<NodeId>::empty(),
        r,
    ));
    assert(v.forest_ids(Seq::<NodeId>::empty(), r) == Seq::<NodeId>::empty());
    assert(v.subtree_ids(x) + Seq::<NodeId>::empty() =~= v.subtree_ids(x));
}

/// The roots of a well-formed aggregate are mutually un-nested, so the full
/// depth-first enumeration visits every node of the aggregate exactly once.
pub proof fn lemma_dfs_props(v: BookView)
    requires
        v.wf(),
    ensures
        v.dfs().no_duplicates(),
        forall|x: NodeId| #[trigger] v.dfs().contains(x) <==> v.has(x),
        v.dfs().len() == v.nodes.dom().len(),
{
    let r = v.max_depth as nat + 1;
    assert forall|i: int| 0 <= i < v.roots.len() implies {
        &&& v.has(#[trigger] v.roots[i])
        &&& v.rank(v.roots[i]) < r
    } by {
        assert(v.root_ok(v.roots[i]));
        assert(v.node_ok(v.roots[i]));
    }
    assert forall|i: int, j: int|
        0 <= i < v.roots.len() && 0 <= j < v.roots.len() && i != j implies !v.is_under(
        #[trigger] v.roots[i],
        #[trigger] v.roots[j],
    ) by {
        if v.is_under(v.roots[i], v.roots[j]) {
            assert(v.root_ok(v.roots[i]));
            assert(v.root_ok(v.roots[j]));
            assert(v.node_ok(v.roots[i]));
            assert(v.node_ok(v.roots[j]));
            lemma_is_under_depth(v, v.roots[i], v.roots[j]);
        }
    }
    lemma_forest_props(v, v.roots, r);
    assert forall|x: NodeId| v.has(x) implies #[trigger] v.dfs().contains(x) by {
        lemma_reaches_root(v, x);
        let rt = choose|rt: NodeId|
            #![trigger v.roots.contains(rt)]
            v.roots.contains(rt) && v.is_under(x, rt);
        let i = choose|i: int| 0 <= i < v.roots.len() && v.roots[i] == rt;
        assert(v.is_under(x, v.roots[i]));
        assert(under_any(v, x, v.roots));
    }
    v.dfs().unique_seq_to_set();
    assert(v.dfs().to_set() =~= v.nodes.dom());
}

/// Removing a value from a duplicate-free sequence removes exactly that
/// value's occurrence and keeps the sequence duplicate-free.
pub proof fn lemma_remove_value_props(s: Seq<NodeId>, x: NodeId)
    requires
        s.no_duplicates(),
    ensures
        s.remove_value(x).no_duplicates(),
        forall|y: NodeId| #[trigger] s.remove_value(x).contains(y) <==> (s.contains(y) && y != x),
        s.contains(x) ==> s.remove_value(x).len() == s.len() - 1,
        !s.contains(x) ==> s.remove_value(x) == s,
{
    s.index_of_first_ensures(x);
    let t = s.remove_value(x);
    match s.index_of_first(x) {
        None => {},
        Some(i) => {
            s.remove_ensures(i);
            assert forall|y: NodeId| #[trigger] t.contains(y) implies (s.contains(y) && y != x) by {
                let j = choose|j: int| 0 <= j < t.len() && t[j] == y;
                if j < i {
                    assert(s[j] == y);
                } else {
                    assert(s[j + 1] == y);
                }
            }
            assert forall|y: NodeId| s.contains(y) && y != x implies #[trigger] t.contains(y) by {
                let j = choose|j: int| 0 <= j < s.len() && s[j] == y;
                if j < i {
                    assert(t[j] == y);
                } else {
                    assert(j != i);
                    assert(t[j - 1] == y);
                }
            }
            assert forall|p: int, q: int| 0 <= p < q < t.len() implies t[p] != t[q] by {
                let sp = if p < i {
                    s[p]
                } else {
                    s[p + 1]
                };
                let sq = if q < i {
                    s[q]
                } else {
                    s[q + 1]
                };
                assert(t[p] == sp && t[q] == sq);
            }
        },
    }
}

/// Every node of a well-formed aggregate sits in the subtree of some root.
pub proof fn lemma_reaches_root(v: BookView, x: NodeId)
    requires
        v.wf(),
        v.has(x),
    ensures
        exists|r: NodeId|
            #![trigger v.roots.contains(r)]
            v.roots.contains(r) && v.is_under(x, r),
    decreases v.depths[x],
{
    assert(v.node_ok(x));
    match v.nodes[x].parent {
        None => {
            assert(v.roots.contains(x) && v.is_under(x, x));
        },
        Some(p) => {
            lemma_reaches_root(v, p);
            let r = choose|r: NodeId|
                #![trigger v.roots.contains(r)]
                v.roots.contains(r) && v.is_under(p, r);
            assert(v.is_under(x, r));
        },
    }
}

} // verus!
