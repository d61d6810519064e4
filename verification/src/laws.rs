//! The library's general laws, stated over the aggregate's model and proved
//! from the public contracts.

use vstd::prelude::*;

use crate::book::{added_ok, move_contract, removed_ok, BookView};
use crate::eject::{
    first_issue_forest, first_issue_node, imported_node_matches, tag_type, tree_node_matches,
    type_tag, EjectTree, EjectTreeNode, ImportIssue, IMPORT_MAX_RECURSION,
};
use crate::errors::{DomainError, NodeId};
use crate::node::NodeType;

verus! {

/// Inserting a node and then removing that same node restores the node
/// count exactly: the fresh node's subtree is only itself.
pub proof fn law_add_remove_restores_count(
    pre: BookView,
    mid: BookView,
    post: BookView,
    id: NodeId,
    parent: Option<NodeId>,
    title: Seq<char>,
    node_type: NodeType,
    body: Option<Seq<char>>,
    placeholder: Option<Seq<char>>,
    position: int,
)
    requires
        pre.wf(),
        mid.wf(),
        added_ok(pre, mid, id, parent, title, node_type, body, placeholder, position),
        removed_ok(mid, post, id),
    ensures
        post.nodes.dom().len() == pre.nodes.dom().len(),
{
    assert(mid.nodes.dom() =~= pre.nodes.dom().insert(id));
    assert(mid.nodes.dom().len() == pre.nodes.dom().len() + 1);
    let sub = mid.subtree_set(id);
    assert(sub =~= Set::<NodeId>::empty().insert(id)) by {
        assert(mid.is_under(id, id));
        assert forall|x: NodeId| #[trigger] sub.contains(x) implies x == id by {
            if x != id {
                crate::tree::lemma_branch_child(mid, x, id);
                let c = choose|c: NodeId|
                    #![trigger mid.nodes[id].children.contains(c)]
                    mid.nodes[id].children.contains(c) && mid.has(c) && mid.is_under(x, c);
                assert(mid.nodes[id].children.len() == 0);
            }
        }
    }
    assert(post.nodes.dom() =~= mid.nodes.dom().remove(id));
    assert(post.nodes.dom().len() == mid.nodes.dom().len() - 1);
}

/// Every node of a well-formed aggregate sits at depth at least one and at
/// most the configured maximum; every operation's contract preserves
/// well-formedness, so this holds after any successful mutation.
pub proof fn law_depth_bounds(v: BookView, id: NodeId)
    requires
        v.wf(),
        v.has(id),
    ensures
        1 <= v.depths[id],
        v.depths[id] <= v.max_depth as nat,
{
    assert(v.node_ok(id));
}

/// A move whose target is the node itself or one of its own descendants is
/// rejected with `CyclicMove`, leaving the aggregate unchanged.
pub proof fn law_move_rejects_cycles(
    pre: BookView,
    post: BookView,
    id: NodeId,
    np: NodeId,
    position: int,
    r: Result<(), DomainError>,
)
    requires
        pre.wf(),
        pre.has(id),
        pre.has(np),
        pre.is_under(np, id),
        move_contract(pre, post, id, Some(np), position, r),
    ensures
        r == Err::<(), DomainError>(DomainError::CyclicMove(id)),
        post == pre,
{
    assert(!(r is Ok));
    match r {
        Ok(_) => {},
        Err(e) => {
            match e {
                DomainError::NodeNotFound(x) => {
                    assert(false);
                },
                DomainError::CyclicMove(x) => {
                    assert(x == id);
                },
                DomainError::MaxDepthExceeded { node_id, max } => {
                    assert(false);
                },
            }
        },
    }
}

/// The depth-first traversal visits exactly `node_count` nodes, each once,
/// and the positional numbering enumerates the same identifiers in the same
/// order.
pub proof fn law_traversal_and_numbering(v: BookView)
    requires
        v.wf(),
    ensures
        v.dfs().len() == v.nodes.dom().len(),
        v.dfs().no_duplicates(),
        forall|x: NodeId| #[trigger] v.dfs().contains(x) <==> v.has(x),
        crate::numbering::toc_labels(v).len() == v.dfs().len(),
        forall|i: int|
            0 <= i < v.dfs().len() ==> (#[trigger] crate::numbering::toc_labels(v)[i]).1
                == v.dfs()[i],
{
    crate::tree::lemma_dfs_props(v);
    crate::numbering::lemma_toc_labels_order(v);
}

/// Every type tag in the tree belongs to the recognized vocabulary.
pub open spec fn tags_ok_node(t: EjectTreeNode) -> bool
    decreases t, 0int,
{
    tag_type(t.node_type@) is Some && tags_ok_forest(t.children@)
}

pub open spec fn tags_ok_forest(ts: Seq<EjectTreeNode>) -> bool
    decreases ts, 1int,
{
    ts.len() == 0 || (tags_ok_node(ts[0]) && tags_ok_forest(ts.drop_first()))
}

/// Nesting depth of a tree node: one more than its deepest child.
pub open spec fn height_node(t: EjectTreeNode) -> nat
    decreases t, 0int,
{
    1 + height_forest(t.children@)
}

pub open spec fn height_forest(ts: Seq<EjectTreeNode>) -> nat
    decreases ts, 1int,
{
    if ts.len() == 0 {
        0
    } else {
        if height_node(ts[0]) > height_forest(ts.drop_first()) {
            height_node(ts[0])
        } else {
            height_forest(ts.drop_first())
        }
    }
}

/// With valid tags and a declared maximum no smaller than the ceiling, the
/// only possible import failure is the nesting ceiling, and it fires
/// exactly when the tree reaches below it.
proof fn lemma_ceiling_node(t: EjectTreeNode, depth: int, max: int)
    requires
        tags_ok_node(t),
        0 <= depth <= IMPORT_MAX_RECURSION as int,
        max >= IMPORT_MAX_RECURSION as int,
    ensures
        first_issue_node(t, depth, max) == (if depth + height_node(t)
            > IMPORT_MAX_RECURSION as int {
            Some(ImportIssue::RecursionLimit)
        } else {
            None::<ImportIssue>
        }),
    decreases t, 0int,
{
    if depth >= IMPORT_MAX_RECURSION as int {
        assert(height_node(t) >= 1);
    } else {
        lemma_ceiling_forest(t.children@, depth + 1, max);
    }
}

proof fn lemma_ceiling_forest(ts: Seq<EjectTreeNode>, depth: int, max: int)
    requires
        tags_ok_forest(ts),
        0 <= depth <= IMPORT_MAX_RECURSION as int,
        max >= IMPORT_MAX_RECURSION as int,
    ensures
        first_issue_forest(ts, depth, max) == (if depth + height_forest(ts)
            > IMPORT_MAX_RECURSION as int {
            Some(ImportIssue::RecursionLimit)
        } else {
            None::<ImportIssue>
        }),
    decreases ts, 1int,
{
    if ts.len() > 0 {
        lemma_ceiling_node(ts[0], depth, max);
        lemma_ceiling_forest(ts.drop_first(), depth, max);
        let h0 = height_node(ts[0]);
        let hr = height_forest(ts.drop_first());
        assert(height_forest(ts) == if h0 > hr {
            h0
        } else {
            hr
        });
        if depth + h0 > IMPORT_MAX_RECURSION as int {
            assert(first_issue_node(ts[0], depth, max) == Some(ImportIssue::RecursionLimit));
            assert(first_issue_forest(ts, depth, max) == Some(ImportIssue::RecursionLimit));
        } else {
            assert(first_issue_node(ts[0], depth, max) is None);
            assert(first_issue_forest(ts, depth, max) == first_issue_forest(
                ts.drop_first(),
                depth,
                max,
            ));
        }
    }
}

/// A tree with recognized tags nested deeper than the fixed ceiling fails
/// to import with `RecursionLimit`, whatever (sufficiently large) maximum
/// depth the tree declares for itself. With a smaller declared maximum, the
/// aggregate's own depth limit fires first on a shallower node.
pub proof fn law_recursion_ceiling(tree: EjectTree)
    requires
        tags_ok_forest(tree.nodes@),
        tree.max_depth >= IMPORT_MAX_RECURSION,
        height_forest(tree.nodes@) > IMPORT_MAX_RECURSION as nat,
    ensures
        first_issue_forest(tree.nodes@, 0, tree.max_depth as int) == Some(
            ImportIssue::RecursionLimit,
        ),
{
    lemma_ceiling_forest(tree.nodes@, 0, tree.max_depth as int);
}

/// What "structurally equal" means for one node of two aggregates: the
/// user-visible fields agree and the child counts agree (identifiers may
/// differ).
pub open spec fn node_content_eq(v1: BookView, x: NodeId, v2: BookView, y: NodeId) -> bool {
    &&& v1.nodes[x].title == v2.nodes[y].title
    &&& v1.nodes[x].body == v2.nodes[y].body
    &&& v1.nodes[x].placeholder == v2.nodes[y].placeholder
    &&& v1.nodes[x].node_type == v2.nodes[y].node_type
    &&& v1.nodes[x].children.len() == v2.nodes[y].children.len()
}

/// A tag survives the round trip through its type.
proof fn lemma_tag_round(nt: NodeType)
    ensures
        tag_type(type_tag(nt)) == Some(nt),
{
    reveal_strlit("section");
    reveal_strlit("content");
    match nt {
        NodeType::Section => {},
        NodeType::Content => {
            assert("content"@[0] == 'c' && "section"@[0] == 's');
            assert("content"@ != "section"@);
        },
    }
}

/// Exporting a subtree and importing the exported tree yields a subtree of
/// the same shape with the same texts and types, node for node in
/// depth-first order.
pub proof fn lemma_round_trip_subtree(
    v1: BookView,
    id1: NodeId,
    v2: BookView,
    id2: NodeId,
    t: EjectTreeNode,
)
    requires
        v1.wf(),
        v2.wf(),
        tree_node_matches(v1, id1, t),
        imported_node_matches(v2, id2, t),
    ensures
        v1.subtree_ids(id1).len() == v2.subtree_ids(id2).len(),
        forall|i: int|
            0 <= i < v1.subtree_ids(id1).len() ==> node_content_eq(
                v1,
                #[trigger] v1.subtree_ids(id1)[i],
                v2,
                v2.subtree_ids(id2)[i],
            ),
    decreases t, 0int,
{
    let s1 = v1.subtree_ids(id1);
    let s2 = v2.subtree_ids(id2);
    assert(v1.node_ok(id1));
    assert(v2.node_ok(id2));
    lemma_tag_round(v1.nodes[id1].node_type);
    let kids1 = v1.nodes[id1].children;
    let kids2 = v2.nodes[id2].children;
    assert forall|i: int| 0 <= i < kids1.len() implies {
        &&& v1.has(#[trigger] kids1[i])
        &&& v1.rank(kids1[i]) < v1.rank(id1)
        &&& v2.has(kids2[i])
        &&& v2.rank(kids2[i]) < v2.rank(id2)
    } by {
        assert(v1.child_ok(id1, kids1[i]));
        assert(v1.node_ok(kids1[i]));
        assert(v2.child_ok(id2, kids2[i]));
        assert(v2.node_ok(kids2[i]));
    }
    lemma_round_trip_forest(v1, kids1, v2, kids2, t.children@, v1.rank(id1), v2.rank(id2));
    let f1 = v1.forest_ids(kids1, v1.rank(id1));
    let f2 = v2.forest_ids(kids2, v2.rank(id2));
    assert(s1 == seq![id1] + f1);
    assert(s2 == seq![id2] + f2);
    assert(s1.len() == s2.len());
    assert forall|i: int| 0 <= i < s1.len() implies node_content_eq(
        v1,
        #[trigger] s1[i],
        v2,
        s2[i],
    ) by {
        if i == 0 {
            assert(s1[0] == id1 && s2[0] == id2);
        } else {
            assert(s1[i] == f1[i - 1] && s2[i] == f2[i - 1]);
        }
    }
}

/// Forest version of `lemma_round_trip_subtree`.
proof fn lemma_round_trip_forest(
    v1: BookView,
    ids1: Seq<NodeId>,
    v2: BookView,
    ids2: Seq<NodeId>,
    ts: Seq<EjectTreeNode>,
    r1: nat,
    r2: nat,
)
    requires
        v1.wf(),
        v2.wf(),
        ids1.len() == ts.len(),
        ids2.len() == ts.len(),
        forall|i: int| 0 <= i < ts.len() ==> tree_node_matches(v1, ids1[i], #[trigger] ts[i]),
        forall|i: int|
            0 <= i < ts.len() ==> imported_node_matches(v2, ids2[i], #[trigger] ts[i]),
        forall|i: int|
            0 <= i < ts.len() ==> v1.has(#[trigger] ids1[i]) && v1.rank(ids1[i]) < r1,
        forall|i: int|
            0 <= i < ts.len() ==> v2.has(#[trigger] ids2[i]) && v2.rank(ids2[i]) < r2,
    ensures
        v1.forest_ids(ids1, r1).len() == v2.forest_ids(ids2, r2).len(),
        forall|i: int|
            0 <= i < v1.forest_ids(ids1, r1).len() ==> node_content_eq(
                v1,
                #[trigger] v1.forest_ids(ids1, r1)[i],
                v2,
                v2.forest_ids(ids2, r2)[i],
            ),
    decreases ts, 1int,
{
    if ts.len() == 0 {
        assert(ids1.len() == 0 && ids2.len() == 0);
    } else {
        assert(tree_node_matches(v1, ids1[0], ts[0]));
        assert(imported_node_matches(v2, ids2[0], ts[0]));
        lemma_round_trip_subtree(v1, ids1[0], v2, ids2[0], ts[0]);
        assert forall|i: int| 0 <= i < ts.drop_first().len() implies {
            &&& tree_node_matches(v1, ids1.drop_first()[i], #[trigger] ts.drop_first()[i])
            &&& imported_node_matches(v2, ids2.drop_first()[i], ts.drop_first()[i])
            &&& v1.has(ids1.drop_first()[i]) && v1.rank(ids1.drop_first()[i]) < r1
            &&& v2.has(ids2.drop_first()[i]) && v2.rank(ids2.drop_first()[i]) < r2
        } by {
            assert(ts.drop_first()[i] == ts[i + 1]);
            assert(ids1.drop_first()[i] == ids1[i + 1]);
            assert(ids2.drop_first()[i] == ids2[i + 1]);
        }
        lemma_round_trip_forest(
            v1,
            ids1.drop_first(),
            v2,
            ids2.drop_first(),
            ts.drop_first(),
            r1,
            r2,
        );
        let h1 = v1.subtree_ids(ids1[0]);
        let h2 = v2.subtree_ids(ids2[0]);
        let g1 = v1.forest_ids(ids1.drop_first(), r1);
        let g2 = v2.forest_ids(ids2.drop_first(), r2);
        assert(v1.forest_ids(ids1, r1) == h1 + g1);
        assert(v2.forest_ids(ids2, r2) == h2 + g2);
        assert forall|i: int| 0 <= i < (h1 + g1).len() implies node_content_eq(
            v1,
            #[trigger] (h1 + g1)[i],
            v2,
            (h2 + g2)[i],
        ) by {
            if i < h1.len() {
                assert((h1 + g1)[i] == h1[i] && (h2 + g2)[i] == h2[i]);
            } else {
                assert((h1 + g1)[i] == g1[i - h1.len()] && (h2 + g2)[i] == g2[i - h1.len()]);
            }
        }
    }
}

/// Export-then-import round-trips structurally: the imported aggregate has
/// the same root count, the same node count, and node for node in
/// depth-first order the same titles, bodies, placeholders, types and child
/// counts; only the identifiers are fresh.
pub proof fn law_export_import_round_trip(v1: BookView, tree: EjectTree, v2: BookView)
    requires
        v1.wf(),
        v2.wf(),
        tree.nodes@.len() == v1.roots.len(),
        forall|i: int|
            0 <= i < v1.roots.len() ==> tree_node_matches(
                v1,
                v1.roots[i],
                #[trigger] tree.nodes@[i],
            ),
        v2.roots.len() == tree.nodes@.len(),
        forall|i: int|
            0 <= i < v2.roots.len() ==> imported_node_matches(
                v2,
                v2.roots[i],
                #[trigger] tree.nodes@[i],
            ),
    ensures
        v2.roots.len() == v1.roots.len(),
        v2.nodes.dom().len() == v1.nodes.dom().len(),
        v1.dfs().len() == v2.dfs().len(),
        forall|i: int|
            0 <= i < v1.dfs().len() ==> node_content_eq(
                v1,
                #[trigger] v1.dfs()[i],
                v2,
                v2.dfs()[i],
            ),
{
    assert forall|i: int| 0 <= i < v1.roots.len() implies {
        &&& v1.has(#[trigger] v1.roots[i])
        &&& v1.rank(v1.roots[i]) < v1.max_depth as nat + 1
    } by {
        assert(v1.root_ok(v1.roots[i]));
        assert(v1.node_ok(v1.roots[i]));
    }
    assert forall|i: int| 0 <= i < v2.roots.len() implies {
        &&& v2.has(#[trigger] v2.roots[i])
        &&& v2.rank(v2.roots[i]) < v2.max_depth as nat + 1
    } by {
        assert(v2.root_ok(v2.roots[i]));
        assert(v2.node_ok(v2.roots[i]));
    }
    lemma_round_trip_forest(
        v1,
        v1.roots,
        v2,
        v2.roots,
        tree.nodes@,
        v1.max_depth as nat + 1,
        v2.max_depth as nat + 1,
    );
    crate::tree::lemma_dfs_props(v1);
    crate::tree::lemma_dfs_props(v2);
}

} // verus!
