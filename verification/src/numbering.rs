//! Positional numbering: the derived dotted labels ("1", "2-3", "1-2-1")
//! computed from the tree shape by depth-first traversal, never stored.

use vstd::prelude::*;
use vstd::seq_lib::group_seq_properties;

use crate::book::{BookView, TemplateBook};
use crate::node::TemplateNode;
use crate::errors::NodeId;
use crate::textutil::{dec_rep, format_u64};

verus! {

broadcast use group_seq_properties;

/// The label of the `k`-th sibling (0-based) under `prefix`; root-level
/// siblings have no prefix.
pub open spec fn child_label(prefix: Option<Seq<char>>, k: int) -> Seq<char> {
    match prefix {
        Some(p) => p + seq!['-'] + dec_rep((k + 1) as nat),
        None => dec_rep((k + 1) as nat),
    }
}

/// The labelled depth-first enumeration of the subtree rooted at `id`,
/// which itself carries `label`.
pub open spec fn subtree_labels(v: BookView, id: NodeId, label: Seq<char>) -> Seq<
    (Seq<char>, NodeId),
>
    decreases v.rank(id) + 1, 0nat,
{
    if v.has(id) {
        seq![(label, id)] + forest_labels(v, v.nodes[id].children, 0, Some(label), v.rank(id))
    } else {
        Seq::empty()
    }
}

/// The labelled depth-first enumeration of the subtrees of `ids`, which are
/// the siblings numbered `k`, `k + 1`, ... under `prefix`.
pub open spec fn forest_labels(
    v: BookView,
    ids: Seq<NodeId>,
    k: int,
    prefix: Option<Seq<char>>,
    r: nat,
) -> Seq<(Seq<char>, NodeId)>
    decreases r, ids.len(),
{
    if ids.len() == 0 {
        Seq::empty()
    } else if v.rank(ids[0]) < r {
        subtree_labels(v, ids[0], child_label(prefix, k)) + forest_labels(
            v,
            ids.drop_first(),
            k + 1,
            prefix,
            r,
        )
    } else {
        forest_labels(v, ids.drop_first(), k + 1, prefix, r)
    }
}

/// The labelled depth-first enumeration of the whole aggregate.
pub open spec fn toc_labels(v: BookView) -> Seq<(Seq<char>, NodeId)> {
    forest_labels(v, v.roots, 0, None, v.max_depth as nat + 1)
}

/// The label of the first entry for `x`, if any.
pub open spec fn lookup_label(ls: Seq<(Seq<char>, NodeId)>, x: NodeId) -> Option<Seq<char>>
    decreases ls.len(),
{
    if ls.len() == 0 {
        None
    } else if ls[0].1 == x {
        Some(ls[0].0)
    } else {
        lookup_label(ls.drop_first(), x)
    }
}

/// The strings of `vs` spell out the label sequence `ls`, pair for pair.
pub open spec fn labels_match(vs: Seq<(String, NodeId)>, ls: Seq<(Seq<char>, NodeId)>) -> bool {
    &&& vs.len() == ls.len()
    &&& (forall|i: int|
        0 <= i < vs.len() ==> ((#[trigger] vs[i]).0@ == ls[i].0 && vs[i].1 == ls[i].1))
}

/// The labelled enumeration visits the same identifiers in the same order
/// as the plain depth-first enumeration.
pub proof fn lemma_subtree_labels_ids(v: BookView, id: NodeId, label: Seq<char>)
    ensures
        subtree_labels(v, id, label).len() == v.subtree_ids(id).len(),
        forall|i: int|
            0 <= i < v.subtree_ids(id).len() ==> (#[trigger] subtree_labels(v, id, label)[i]).1
                == v.subtree_ids(id)[i],
    decreases v.rank(id) + 1, 0nat,
{
    if v.has(id) {
        lemma_forest_labels_ids(v, v.nodes[id].children, 0, Some(label), v.rank(id));
    }
}

/// Forest version of `lemma_subtree_labels_ids`.
pub proof fn lemma_forest_labels_ids(
    v: BookView,
    ids: Seq<NodeId>,
    k: int,
    prefix: Option<Seq<char>>,
    r: nat,
)
    ensures
        forest_labels(v, ids, k, prefix, r).len() == v.forest_ids(ids, r).len(),
        forall|i: int|
            0 <= i < v.forest_ids(ids, r).len() ==> (#[trigger] forest_labels(
                v,
                ids,
                k,
                prefix,
                r,
            )[i]).1 == v.forest_ids(ids, r)[i],
    decreases r, ids.len(),
{
    if ids.len() == 0 {
    } else {
        lemma_forest_labels_ids(v, ids.drop_first(), k + 1, prefix, r);
        if v.rank(ids[0]) < r {
            lemma_subtree_labels_ids(v, ids[0], child_label(prefix, k));
        }
    }
}

/// The whole-aggregate version: positional numbering enumerates exactly the
/// depth-first order of the aggregate.
pub proof fn lemma_toc_labels_order(v: BookView)
    ensures
        toc_labels(v).len() == v.dfs().len(),
        forall|i: int|
            0 <= i < v.dfs().len() ==> (#[trigger] toc_labels(v)[i]).1 == v.dfs()[i],
{
    lemma_forest_labels_ids(v, v.roots, 0, None, v.max_depth as nat + 1);
}

/// Splitting a sibling list splits its labelled enumeration, with the
/// numbering of the second part shifted past the first.
proof fn lemma_forest_labels_concat(
    v: BookView,
    a: Seq<NodeId>,
    b: Seq<NodeId>,
    k: int,
    prefix: Option<Seq<char>>,
    r: nat,
)
    ensures
        forest_labels(v, a + b, k, prefix, r) == forest_labels(v, a, k, prefix, r)
            + forest_labels(v, b, k + a.len(), prefix, r),
    decreases a.len(),
{
    if a.len() == 0 {
        assert(a + b =~= b);
        assert(forest_labels(v, a, k, prefix, r) + forest_labels(v, b, k, prefix, r)
            =~= forest_labels(v, b, k, prefix, r));
    } else {
        assert((a + b)[0] == a[0]);
        assert((a + b).drop_first() =~= a.drop_first() + b);
        lemma_forest_labels_concat(v, a.drop_first(), b, k + 1, prefix, r);
        if v.rank(a[0]) < r {
            assert(forest_labels(v, a + b, k, prefix, r) =~= forest_labels(v, a, k, prefix, r)
                + forest_labels(v, b, k + a.len(), prefix, r));
        } else {
            assert(forest_labels(v, a + b, k, prefix, r) =~= forest_labels(v, a, k, prefix, r)
                + forest_labels(v, b, k + a.len(), prefix, r));
        }
    }
}

/// A one-element sibling list enumerates that sibling's subtree.
proof fn lemma_forest_labels_single(
    v: BookView,
    x: NodeId,
    k: int,
    prefix: Option<Seq<char>>,
    r: nat,
)
    requires
        v.rank(x) < r,
    ensures
        forest_labels(v, seq![x], k, prefix, r) == subtree_labels(v, x, child_label(prefix, k)),
{
    assert(seq![x].drop_first() =~= Seq::<NodeId>::empty());
    assert(seq![x][0] == x);
    assert(forest_labels(v, Seq::<NodeId>::empty(), k + 1, prefix, r) == Seq::<
        (Seq<char>, NodeId),
    >::empty());
    assert(subtree_labels(v, x, child_label(prefix, k)) + Seq::<(Seq<char>, NodeId)>::empty()
        =~= subtree_labels(v, x, child_label(prefix, k)));
}

/// Append the labelled enumeration of the subtree of `id` (labelled `label`)
/// to `out`.
fn subtree_labels_vec(
    book: &TemplateBook,
    id: NodeId,
    label: &str,
    out: &mut Vec<(String, NodeId)>,
)
    requires
        book@.wf(),
        book@.has(id),
    ensures
        final(out)@.len() == old(out)@.len() + subtree_labels(book@, id, label@).len(),
        forall|i: int| 0 <= i < old(out)@.len() ==> final(out)@[i] == old(out)@[i],
        labels_match(
            final(out)@.skip(old(out)@.len() as int),
            subtree_labels(book@, id, label@),
        ),
    decreases book@.rank(id) + 1, 0nat,
{
    let ghost ls = subtree_labels(book@, id, label@);
    let entry_label = String::from_str(label);
    out.push((entry_label, id));
    let node = match book.get_node(id) {
        Some(n) => n,
        None => {
            proof {
                assert(false);
            }
            return ;
        },
    };
    let ghost kids = node@.children;
    let ghost r = book@.rank(id);
    proof {
        assert(book@.node_ok(id));
    }
    let n = node.children_len();
    let mut j: usize = 0;
    proof {
        assert(kids.take(0) =~= Seq::<NodeId>::empty());
        assert(out@.skip(old(out)@.len() as int + 1) =~= Seq::<(String, NodeId)>::empty());
    }
    while j < n
        invariant
            book@.wf(),
            book@.has(id),
            n == kids.len(),
            kids == book@.nodes[id].children,
            r == book@.rank(id),
            j <= n,
            out@.len() == old(out)@.len() + 1 + forest_labels(
                book@,
                kids.take(j as int),
                0,
                Some(label@),
                r,
            ).len(),
            forall|i: int| 0 <= i < old(out)@.len() ==> out@[i] == old(out)@[i],
            out@[old(out)@.len() as int].0@ == label@,
            out@[old(out)@.len() as int].1 == id,
            labels_match(
                out@.skip(old(out)@.len() as int + 1),
                forest_labels(book@, kids.take(j as int), 0, Some(label@), r),
            ),
        decreases n - j,
    {
        let child = *book.child_at(id, j);
        proof {
            assert(book@.child_ok(id, kids[j as int]));
            assert(book@.node_ok(kids[j as int]));
            assert(book@.rank(child) < r);
        }
        let num = format_u64((j as u64) + 1);
        let mut child_label_s = String::from_str(label);
        child_label_s.append("-");
        child_label_s.append(num.as_str());
        proof {
            reveal_strlit("-");
            assert(child_label_s@ == label@ + seq!['-'] + dec_rep((j + 1) as nat)) by {
                assert("-"@ =~= seq!['-']);
            }
            assert(child_label_s@ == child_label(Some(label@), j as int));
            lemma_forest_labels_concat(
                book@,
                kids.take(j as int),
                seq![child],
                0,
                Some(label@),
                r,
            );
            lemma_forest_labels_single(book@, child, j as int, Some(label@), r);
            assert(kids.take(j as int + 1) =~= kids.take(j as int) + seq![child]);
        }
        subtree_labels_vec(book, child, child_label_s.as_str(), out);
        j = j + 1;
    }
    proof {
        assert(kids.take(n as int) =~= kids);
        let base = old(out)@.len() as int;
        let f = forest_labels(book@, kids, 0, Some(label@), r);
        assert(ls == seq![(label@, id)] + f);
        assert(out@.skip(base).len() == ls.len());
        assert forall|t: int|
            0 <= t < ls.len() implies ((#[trigger] out@.skip(base)[t]).0@ == ls[t].0 && out@.skip(
            base,
        )[t].1 == ls[t].1) by {
            if t == 0 {
                assert(out@.skip(base)[0] == out@[base]);
                assert(ls[0] == (label@, id));
            } else {
                assert(out@.skip(base)[t] == out@[base + t]);
                assert(out@.skip(base + 1)[t - 1] == out@[base + t]);
                assert(f[t - 1] == ls[t]);
            }
        }
    }
}

/// The full positional mapping: `(label, identifier)` pairs in depth-first
/// order, roots labelled `1`, `2`, ... and each child list `-1`, `-2`, ...
/// below its parent's label.
pub fn build_hierarchical_ids(book: &TemplateBook) -> (r: Vec<(String, NodeId)>)
    requires
        book@.wf(),
    ensures
        labels_match(r@, toc_labels(book@)),
{
    let ghost rk = book@.max_depth as nat + 1;
    let mut out: Vec<(String, NodeId)> = Vec::new();
    let roots = book.root_nodes();
    let n = roots.len();
    let mut i: usize = 0;
    while i < n
        invariant
            book@.wf(),
            n == book@.roots.len(),
            roots@ == book@.roots,
            i <= n,
            rk == book@.max_depth as nat + 1,
            labels_match(out@, forest_labels(book@, book@.roots.take(i as int), 0, None, rk)),
        decreases n - i,
    {
        let root = roots[i];
        proof {
            assert(book@.root_ok(book@.roots[i as int]));
            assert(book@.node_ok(root));
            assert(book@.rank(root) < rk);
            lemma_forest_labels_concat(book@, book@.roots.take(i as int), seq![root], 0, None, rk);
            lemma_forest_labels_single(book@, root, i as int, None, rk);
            assert(book@.roots.take(i as int + 1) =~= book@.roots.take(i as int) + seq![root]);
        }
        let num = format_u64((i as u64) + 1);
        proof {
            assert(num@ == child_label(None, i as int));
        }
        let ghost before = out@.len();
        subtree_labels_vec(book, root, num.as_str(), &mut out);
        proof {
            assert(labels_match(
                out@,
                forest_labels(book@, book@.roots.take(i as int + 1), 0, None, rk),
            )) by {
                assert(out@.skip(before as int) =~= out@.skip(before as int));
                assert forall|t: int|
                    0 <= t < out@.len() implies (#[trigger] out@[t]).0@ == forest_labels(
                    book@,
                    book@.roots.take(i as int + 1),
                    0,
                    None,
                    rk,
                )[t].0 && out@[t].1 == forest_labels(
                    book@,
                    book@.roots.take(i as int + 1),
                    0,
                    None,
                    rk,
                )[t].1 by {
                    if t >= before {
                        assert(out@.skip(before as int)[t - before] == out@[t]);
                    }
                }
            }
        }
        i = i + 1;
    }
    proof {
        assert(book@.roots.take(n as int) =~= book@.roots);
    }
    out
}

/// The positional label of `target`, if the aggregate reaches it.
#[verifier::loop_isolation(false)]
pub fn find_hierarchical_id(book: &TemplateBook, target: NodeId) -> (r: Option<String>)
    requires
        book@.wf(),
    ensures
        match r {
            Some(s) => lookup_label(toc_labels(book@), target) == Some(s@),
            None => lookup_label(toc_labels(book@), target) is None,
        },
{
    let mapping = build_hierarchical_ids(book);
    let ghost ls = toc_labels(book@);
    let n = mapping.len();
    let mut i: usize = 0;
    while i < n
        invariant
            n == mapping@.len(),
            labels_match(mapping@, ls),
            i <= n,
            lookup_label(ls, target) == lookup_label(ls.skip(i as int), target),
        decreases n - i,
    {
        proof {
            assert(ls.skip(i as int)[0] == ls[i as int]);
            assert(ls.skip(i as int).drop_first() =~= ls.skip(i as int + 1));
        }
        if mapping[i].1 == target {
            let label = String::from_str(mapping[i].0.as_str());
            proof {
                assert(mapping@[i as int].1 == ls[i as int].1);
                assert(mapping@[i as int].0@ == ls[i as int].0);
                assert(label@ == ls[i as int].0);
                assert(lookup_label(ls.skip(i as int), target) == Some(ls[i as int].0));
            }
            return Some(label);
        }
        proof {
            assert(mapping@[i as int].1 == ls[i as int].1);
        }
        i = i + 1;
    }
    proof {
        assert(ls.skip(n as int) =~= Seq::<(Seq<char>, NodeId)>::empty());
    }
    None
}

/// The header line of a table of contents.
pub open spec fn toc_header(v: BookView) -> Seq<char> {
    "# "@ + v.title + " ("@ + dec_rep(v.nodes.dom().len()) + " nodes)\n\n"@
}

/// One table-of-contents line: indentation by depth, the positional label
/// (or a question mark for a node the numbering does not reach), and the
/// title.
pub open spec fn toc_entry(v: BookView, x: NodeId) -> Seq<char> {
    let label = match lookup_label(toc_labels(v), x) {
        Some(l) => l,
        None => "?"@,
    };
    crate::eject::spaces((v.depths[x] - 1) as nat) + label + ". "@ + v.nodes[x].title + seq![
        '\n',
    ]
}

/// The listed lines of a table of contents.
pub open spec fn toc_body(v: BookView, xs: Seq<NodeId>) -> Seq<char>
    decreases xs.len(),
{
    if xs.len() == 0 {
        Seq::empty()
    } else {
        toc_entry(v, xs[0]) + toc_body(v, xs.drop_first())
    }
}

/// Format the given nodes of the aggregate as a table of contents with
/// positional labels.
#[verifier::loop_isolation(false)]
#[verifier::rlimit(50)]
pub fn format_toc(book: &TemplateBook, nodes: &Vec<&TemplateNode>) -> (r: String)
    requires
        book@.wf(),
        forall|i: int|
            0 <= i < nodes@.len() ==> book@.has((#[trigger] nodes@[i])@.id)
                && book@.nodes[nodes@[i]@.id] == nodes@[i]@,
    ensures
        r@ == toc_header(book@) + toc_body(
            book@,
            Seq::new(nodes@.len(), |i: int| nodes@[i]@.id),
        ),
{
    let ghost v = book@;
    let ghost xs = Seq::new(nodes@.len(), |i: int| nodes@[i]@.id);
    let mut out = String::from_str("# ");
    out.append(book.title());
    out.append(" (");
    let count = book.node_count();
    let num = format_u64(count as u64);
    out.append(num.as_str());
    out.append(" nodes)\n\n");
    proof {
        reveal_strlit("# ");
        reveal_strlit(" (");
        reveal_strlit(" nodes)\n\n");
        assert(out@ =~= toc_header(v));
    }
    let ghost header = out@;
    let n = nodes.len();
    let mut i: usize = 0;
    proof {
        assert(xs.take(0) =~= Seq::<NodeId>::empty());
        assert(header + toc_body(v, xs.take(0)) =~= header);
    }
    while i < n
        invariant
            n == nodes@.len(),
            i <= n,
            out@ == header + toc_body(v, xs.take(i as int)),
        decreases n - i,
    {
        let node = nodes[i];
        let id = node.id();
        let depth = book.depth_of(id);
        let indent = crate::eject::EjectService::spaces_exec((depth - 1) as usize);
        out.append(indent.as_str());
        match find_hierarchical_id(book, id) {
            Some(l) => {
                out.append(l.as_str());
            },
            None => {
                out.append("?");
            },
        }
        out.append(". ");
        out.append(node.title());
        crate::textutil::push_char(&mut out, '\n');
        proof {
            reveal_strlit("?");
            reveal_strlit(". ");
            assert(xs[i as int] == nodes@[i as int]@.id);
            assert(xs.take(i as int + 1) =~= xs.take(i as int) + seq![xs[i as int]]);
            lemma_toc_body_concat(v, xs.take(i as int), seq![xs[i as int]]);
            assert(seq![xs[i as int]].drop_first() =~= Seq::<NodeId>::empty());
            assert(toc_body(v, seq![xs[i as int]]) =~= toc_entry(v, xs[i as int]));
            assert(out@ =~= header + toc_body(v, xs.take(i as int + 1)));
        }
        i = i + 1;
    }
    proof {
        assert(xs.take(n as int) =~= xs);
    }
    out
}

/// The table-of-contents body splits over concatenation.
proof fn lemma_toc_body_concat(v: BookView, a: Seq<NodeId>, b: Seq<NodeId>)
    ensures
        toc_body(v, a + b) == toc_body(v, a) + toc_body(v, b),
    decreases a.len(),
{
    if a.len() == 0 {
        assert(a + b =~= b);
        assert(toc_body(v, a) + toc_body(v, b) =~= toc_body(v, b));
    } else {
        assert((a + b)[0] == a[0]);
        assert((a + b).drop_first() =~= a.drop_first() + b);
        lemma_toc_body_concat(v, a.drop_first(), b);
        assert(toc_body(v, a + b) =~= toc_body(v, a) + toc_body(v, b));
    }
}

} // verus!
