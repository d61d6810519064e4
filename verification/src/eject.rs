//! The tree codec: conversion between an aggregate (or one subtree) and the
//! recursive serializable tree shape, plus the markdown rendering of it.

use vstd::prelude::*;
use vstd::seq_lib::group_seq_properties;

use crate::book::{AddNodeRequest, BookView, TemplateBook};
use crate::errors::{DomainError, NodeId};
use crate::ids::{node_id_text, uuid_text};
use crate::node::{NodeType, NodeView};

verus! {

broadcast use group_seq_properties;

/// The two export renderings.
#[derive(Debug, PartialEq, Eq, Structural)]
pub enum EjectFormat {
    Markdown,
    Json,
}

/// One node of the serializable tree: identifier text, title, a type tag
/// from a small fixed vocabulary, the optional texts, and the children.
pub struct EjectTreeNode {
    pub id: String,
    pub title: String,
    pub node_type: String,
    pub body: Option<String>,
    pub placeholder: Option<String>,
    pub children: Vec<EjectTreeNode>,
}

/// The serializable tree: a title, the depth limit, and the root nodes.
pub struct EjectTree {
    pub title: String,
    pub max_depth: u8,
    pub nodes: Vec<EjectTreeNode>,
}

/// Failure of an import. Validation of a node happens before any of its
/// children are visited, so an error names the first offending node in
/// depth-first order.
#[derive(Debug, PartialEq, Eq)]
pub enum ImportError {
    /// A type tag outside the recognized vocabulary; carries the tag.
    InvalidType(String),
    /// Nesting beyond the fixed ceiling, independent of the declared
    /// maximum depth.
    RecursionLimit,
    /// The aggregate refused an insertion (its own depth limit).
    Domain(DomainError),
}

/// The nesting ceiling of the importer, independent of any aggregate's own
/// depth limit: a guard against adversarial or corrupt input trees.
pub const IMPORT_MAX_RECURSION: u8 = 32;

/// The tag under which a node type is exported.
pub open spec fn type_tag(t: NodeType) -> Seq<char> {
    match t {
        NodeType::Section => "section"@,
        NodeType::Content => "content"@,
    }
}

/// The node type a tag denotes on import: the current vocabulary plus the
/// retired tags, which all collapse to `Content`.
pub open spec fn tag_type(s: Seq<char>) -> Option<NodeType> {
    if s == "section"@ {
        Some(NodeType::Section)
    } else if s == "content"@ || s == "checklist"@ || s == "reference"@ || s == "runnable"@ {
        Some(NodeType::Content)
    } else {
        None
    }
}

/// The exported tree node `t` is a faithful image of the aggregate node
/// `id`: same texts, the type rendered as its tag, children in order.
pub open spec fn tree_node_matches(v: BookView, id: NodeId, t: EjectTreeNode) -> bool
    decreases t,
{
    &&& v.has(id)
    &&& t.id@ == uuid_text(id)
    &&& t.title@ == v.nodes[id].title
    &&& t.node_type@ == type_tag(v.nodes[id].node_type)
    &&& t.body.deep_view() == v.nodes[id].body
    &&& t.placeholder.deep_view() == v.nodes[id].placeholder
    &&& t.children@.len() == v.nodes[id].children.len()
    &&& (forall|i: int|
        0 <= i < t.children@.len() ==> tree_node_matches(
            v,
            v.nodes[id].children[i],
            #[trigger] t.children@[i],
        ))
}

/// The aggregate node `id` is a faithful import of the tree node `t`: same
/// texts, the tag mapped to its node type, children in order. Identifiers
/// are fresh, so they are not compared.
pub open spec fn imported_node_matches(v: BookView, id: NodeId, t: EjectTreeNode) -> bool
    decreases t,
{
    &&& v.has(id)
    &&& v.nodes[id].title == t.title@
    &&& tag_type(t.node_type@) == Some(v.nodes[id].node_type)
    &&& v.nodes[id].body == t.body.deep_view()
    &&& v.nodes[id].placeholder == t.placeholder.deep_view()
    &&& v.nodes[id].children.len() == t.children@.len()
    &&& (forall|i: int|
        0 <= i < t.children@.len() ==> imported_node_matches(
            v,
            v.nodes[id].children[i],
            #[trigger] t.children@[i],
        ))
}

/// The first problem an import of `t` at nesting depth `depth` runs into,
/// in validation order: the nesting ceiling, then the type tag, then the
/// aggregate's depth limit, then the children left to right.
pub open spec fn first_issue_node(t: EjectTreeNode, depth: int, max: int) -> Option<ImportIssue>
    decreases t, 0int,
{
    if depth >= IMPORT_MAX_RECURSION as int {
        Some(ImportIssue::RecursionLimit)
    } else if tag_type(t.node_type@) is None {
        Some(ImportIssue::InvalidType(t.node_type@))
    } else if depth + 1 > max {
        Some(ImportIssue::DepthExceeded)
    } else {
        first_issue_forest(t.children@, depth + 1, max)
    }
}

/// First problem across a list of sibling subtrees, left to right.
pub open spec fn first_issue_forest(ts: Seq<EjectTreeNode>, depth: int, max: int) -> Option<
    ImportIssue,
>
    decreases ts, 1int,
{
    if ts.len() == 0 {
        None
    } else {
        match first_issue_node(ts[0], depth, max) {
            Some(e) => Some(e),
            None => first_issue_forest(ts.drop_first(), depth, max),
        }
    }
}

/// Mathematical image of an `ImportError`, used to pin down which error an
/// import returns.
pub enum ImportIssue {
    InvalidType(Seq<char>),
    RecursionLimit,
    DepthExceeded,
}

/// The error `e` reports the issue `o`.
pub open spec fn issue_matches(e: ImportError, o: ImportIssue) -> bool {
    match o {
        ImportIssue::InvalidType(tag) => e matches ImportError::InvalidType(s) && s@ == tag,
        ImportIssue::RecursionLimit => e == ImportError::RecursionLimit,
        ImportIssue::DepthExceeded => e matches ImportError::Domain(d) && d matches
            DomainError::MaxDepthExceeded { node_id: _, max: _ },
    }
}

/// The faithful-import relation only examines nodes inside the subtree of
/// `id`, so it survives any change outside that subtree.
pub proof fn lemma_import_match_frame(
    v1: BookView,
    v2: BookView,
    id: NodeId,
    t: EjectTreeNode,
)
    requires
        v1.wf(),
        imported_node_matches(v1, id, t),
        forall|k: NodeId|
            v1.has(k) && v1.is_under(k, id) ==> v2.has(k) && v2.nodes[k] == v1.nodes[k],
    ensures
        imported_node_matches(v2, id, t),
    decreases t,
{
    assert(v1.is_under(id, id));
    assert(v1.node_ok(id));
    assert forall|i: int| 0 <= i < t.children@.len() implies imported_node_matches(
        v2,
        v1.nodes[id].children[i],
        #[trigger] t.children@[i],
    ) by {
        let c = v1.nodes[id].children[i];
        assert(v1.child_ok(id, c));
        assert(v1.node_ok(c));
        assert(v1.is_under(c, id)) by {
            assert(c != id);
        }
        assert(imported_node_matches(v1, c, t.children@[i]));
        assert forall|k: NodeId| v1.has(k) && v1.is_under(k, c) implies v2.has(k) && v2.nodes[k]
            == v1.nodes[k] by {
            crate::tree::lemma_is_under_trans(v1, k, c, id);
        }
        lemma_import_match_frame(v1, v2, c, t.children@[i]);
    }
    assert(v2.nodes[id] == v1.nodes[id]);
}

/// `post` extends `pre`: every old node is still there with the same value,
/// except that the attachment point may have grown its child list (or the
/// root list may have grown); depths of old nodes are untouched.
pub open spec fn book_extends(pre: BookView, post: BookView, parent: Option<NodeId>) -> bool {
    &&& (forall|k: NodeId| pre.has(k) ==> #[trigger] post.has(k))
    &&& (forall|k: NodeId|
        pre.has(k) && Some(k) != parent ==> #[trigger] post.nodes[k] == pre.nodes[k])
    &&& (parent matches Some(p) ==> pre.nodes[p].children.is_prefix_of(post.nodes[p].children)
        && post.nodes[p] == (NodeView { children: post.nodes[p].children, ..pre.nodes[p] }))
    &&& (match parent {
        Some(_) => post.roots == pre.roots,
        None => pre.roots.is_prefix_of(post.roots),
    })
    &&& (forall|k: NodeId| pre.has(k) ==> #[trigger] post.depths[k] == pre.depths[k])
    &&& post.title == pre.title
    &&& post.max_depth == pre.max_depth
    &&& post.id == pre.id
}

/// Extension composes.
proof fn lemma_extends_trans(a: BookView, b: BookView, c: BookView, parent: Option<NodeId>)
    requires
        book_extends(a, b, parent),
        book_extends(b, c, parent),
    ensures
        book_extends(a, c, parent),
{
    match parent {
        Some(p) => {
            assert(a.nodes[p].children.is_prefix_of(c.nodes[p].children)) by {
                assert(a.nodes[p].children.is_prefix_of(b.nodes[p].children));
                assert(b.nodes[p].children.is_prefix_of(c.nodes[p].children));
                assert(a.nodes[p].children =~= c.nodes[p].children.take(
                    a.nodes[p].children.len() as int,
                ));
            }
        },
        None => {
            assert(a.roots.is_prefix_of(c.roots)) by {
                assert(a.roots =~= c.roots.take(a.roots.len() as int));
            }
        },
    }
}

/// A sequence is a prefix of itself extended by one element.
proof fn lemma_prefix_push(s: Seq<NodeId>, x: NodeId)
    ensures
        s.is_prefix_of(s.push(x)),
        s.is_prefix_of(s),
{
    assert(s =~= s.push(x).subrange(0, s.len() as int));
    assert(s =~= s.subrange(0, s.len() as int));
}

/// Extension through a fresh insertion point: growing `pre` by the fresh
/// node `nid` and then extending below `nid` still only extends `pre` at
/// the original attachment point.
proof fn lemma_extends_through_add(
    pre: BookView,
    mid: BookView,
    post: BookView,
    parent: Option<NodeId>,
    nid: NodeId,
)
    requires
        book_extends(pre, mid, parent),
        book_extends(mid, post, Some(nid)),
        !pre.has(nid),
        mid.has(nid),
        (parent matches Some(p) ==> p != nid && pre.has(p)),
    ensures
        book_extends(pre, post, parent),
{
    assert forall|k: NodeId| pre.has(k) && Some(k) != parent implies #[trigger] post.nodes[k]
        == pre.nodes[k] by {
        assert(k != nid);
        assert(mid.has(k));
        assert(post.nodes[k] == mid.nodes[k]);
    }
    match parent {
        Some(p) => {
            assert(mid.has(p));
            assert(post.nodes[p] == mid.nodes[p]);
            assert(pre.nodes[p].children.is_prefix_of(post.nodes[p].children));
        },
        None => {
            assert(post.roots == mid.roots);
            assert(pre.roots.is_prefix_of(post.roots));
        },
    }
    assert forall|k: NodeId| pre.has(k) implies #[trigger] post.depths[k] == pre.depths[k] by {
        assert(mid.has(k));
    }
}

/// Skipping issue-free leading siblings does not change the first issue.
proof fn lemma_first_issue_skip(ts: Seq<EjectTreeNode>, i: int, depth: int, max: int)
    requires
        0 <= i <= ts.len(),
        forall|j: int| 0 <= j < i ==> first_issue_node(#[trigger] ts[j], depth, max) is None,
    ensures
        first_issue_forest(ts, depth, max) == first_issue_forest(ts.skip(i), depth, max),
    decreases i,
{
    if i > 0 {
        assert(first_issue_node(ts[0], depth, max) is None);
        assert(first_issue_forest(ts, depth, max) == first_issue_forest(
            ts.drop_first(),
            depth,
            max,
        ));
        assert(ts.drop_first() =~= ts.skip(1));
        lemma_first_issue_skip(ts.skip(1), i - 1, depth, max);
        assert forall|j: int| 0 <= j < i - 1 implies first_issue_node(
            #[trigger] ts.skip(1)[j],
            depth,
            max,
        ) is None by {
            assert(ts.skip(1)[j] == ts[j + 1]);
        }
        assert(ts.skip(1).skip(i - 1) =~= ts.skip(i));
    }
}

/// Copy an optional borrowed text.
fn clone_opt_str(o: Option<&str>) -> (r: Option<String>)
    ensures
        r.deep_view() == o.deep_view(),
{
    match o {
        Some(s) => Some(String::from_str(s)),
        None => None,
    }
}

/// Copy an optional owned text.
fn clone_opt_string(o: &Option<String>) -> (r: Option<String>)
    ensures
        r.deep_view() == o.deep_view(),
{
    match o {
        Some(s) => Some(String::from_str(s.as_str())),
        None => None,
    }
}

/// Two spaces per indent level.
pub open spec fn spaces(n: nat) -> Seq<char>
    decreases n,
{
    if n == 0 {
        Seq::empty()
    } else {
        seq![' ', ' '] + spaces((n - 1) as nat)
    }
}

/// A run of heading marks.
pub open spec fn hashes(n: nat) -> Seq<char>
    decreases n,
{
    if n == 0 {
        Seq::empty()
    } else {
        seq!['#'] + hashes((n - 1) as nat)
    }
}

/// The characters with the Unicode White_Space property, which leading
/// trimming removes.
pub open spec fn is_space(c: char) -> bool {
    ||| c == '\t'
    ||| c == '\n'
    ||| c == '\u{b}'
    ||| c == '\u{c}'
    ||| c == '\r'
    ||| c == ' '
    ||| c == '\u{85}'
    ||| c == '\u{a0}'
    ||| c == '\u{1680}'
    ||| ('\u{2000}' <= c && c <= '\u{200a}')
    ||| c == '\u{2028}'
    ||| c == '\u{2029}'
    ||| c == '\u{202f}'
    ||| c == '\u{205f}'
    ||| c == '\u{3000}'
}

fn is_space_exec(c: char) -> (r: bool)
    ensures
        r == is_space(c),
{
    c == '\t' || c == '\n' || c == '\u{b}' || c == '\u{c}' || c == '\r' || c == ' ' || c
        == '\u{85}' || c == '\u{a0}' || c == '\u{1680}' || ('\u{2000}' <= c && c <= '\u{200a}')
        || c == '\u{2028}' || c == '\u{2029}' || c == '\u{202f}' || c == '\u{205f}' || c
        == '\u{3000}'
}

/// Length of the leading whitespace run.
pub open spec fn lead_ws(s: Seq<char>) -> nat
    decreases s.len(),
{
    if s.len() > 0 && is_space(s[0]) {
        1 + lead_ws(s.drop_first())
    } else {
        0
    }
}

proof fn lemma_lead_ws(s: Seq<char>, k: int)
    requires
        0 <= k <= s.len(),
        forall|j: int| 0 <= j < k ==> is_space(#[trigger] s[j]),
        k == s.len() || !is_space(s[k]),
    ensures
        lead_ws(s) == k,
    decreases s.len(),
{
    if k > 0 {
        assert(is_space(s[0]));
        assert forall|j: int| 0 <= j < k - 1 implies is_space(#[trigger] s.drop_first()[j]) by {
            assert(s.drop_first()[j] == s[j + 1]);
        }
        if k - 1 < s.drop_first().len() {
            assert(s.drop_first()[k - 1] == s[k]);
        }
        lemma_lead_ws(s.drop_first(), k - 1);
    }
}

/// A list line (`- ` or `* ` after any leading whitespace) rewritten into
/// checkbox syntax, the leading whitespace kept; any other line unchanged.
pub open spec fn checkbox_line(line: Seq<char>) -> Seq<char> {
    let k = lead_ws(line) as int;
    let trimmed = line.skip(k);
    if crate::resolve::text_starts_with(trimmed, "- "@) || crate::resolve::text_starts_with(
        trimmed,
        "* "@,
    ) {
        line.take(k) + "- [ ] "@ + trimmed.skip(2)
    } else {
        line
    }
}

/// Index of the first newline, or the length if there is none.
pub open spec fn first_nl(s: Seq<char>) -> int
    decreases s.len(),
{
    if s.len() == 0 {
        0
    } else if s[0] == '\n' {
        0
    } else {
        1 + first_nl(s.drop_first())
    }
}

proof fn lemma_first_nl(s: Seq<char>, k: int)
    requires
        0 <= k <= s.len(),
        forall|j: int| 0 <= j < k ==> #[trigger] s[j] != '\n',
        k == s.len() || s[k] == '\n',
    ensures
        first_nl(s) == k,
    decreases s.len(),
{
    if k > 0 {
        assert(s[0] != '\n');
        assert forall|j: int| 0 <= j < k - 1 implies #[trigger] s.drop_first()[j] != '\n' by {
            assert(s.drop_first()[j] == s[j + 1]);
        }
        if k - 1 < s.drop_first().len() {
            assert(s.drop_first()[k - 1] == s[k]);
        }
        lemma_first_nl(s.drop_first(), k - 1);
    }
}

/// A line with at most one trailing carriage return removed.
pub open spec fn strip_cr(t: Seq<char>) -> Seq<char> {
    if t.len() > 0 && t[t.len() - 1] == '\r' {
        t.drop_last()
    } else {
        t
    }
}

/// The lines of a text: split at newlines, one trailing carriage return
/// stripped per line, no final empty line after a trailing newline.
pub open spec fn lines_of(s: Seq<char>) -> Seq<Seq<char>>
    decreases s.len(),
{
    if s.len() == 0 {
        Seq::empty()
    } else {
        let i = first_nl(s);
        if 0 <= i && i < s.len() {
            seq![strip_cr(s.take(i))] + lines_of(s.skip(i + 1))
        } else {
            seq![strip_cr(s)]
        }
    }
}

/// The rendering of a body text at one indent level: each line two spaces
/// deeper than the node's own line, list markers rewritten to checkboxes.
pub open spec fn body_block(ls: Seq<Seq<char>>, ind: nat) -> Seq<char>
    decreases ls.len(),
{
    if ls.len() == 0 {
        Seq::empty()
    } else {
        spaces(ind) + seq![' ', ' '] + checkbox_line(ls[0]) + seq!['\n'] + body_block(
            ls.drop_first(),
            ind,
        )
    }
}

/// The markdown rendering of one node and its subtree: a heading for a
/// section (level capped at four), a checkbox line for a content node, the
/// body lines, the optional placeholder hint, a separator before children.
/// A node's heading or checkbox line.
pub open spec fn head_text(v: BookView, id: NodeId, ind: nat) -> Seq<char> {
    let n = v.nodes[id];
    match n.node_type {
        NodeType::Section => hashes(
            if ind + 2 < 4 {
                ind + 2
            } else {
                4
            },
        ) + seq![' '] + n.title + seq!['\n', '\n'],
        NodeType::Content => spaces(ind) + "- [ ] "@ + n.title + seq!['\n'],
    }
}

/// A node's body rendering, if it has one.
pub open spec fn body_text(v: BookView, id: NodeId, ind: nat) -> Seq<char> {
    match v.nodes[id].body {
        Some(b) => body_block(lines_of(b), ind),
        None => Seq::empty(),
    }
}

/// A node's placeholder hint line, when hints are exported.
pub open spec fn placeholder_text(v: BookView, id: NodeId, ind: nat, ph: bool) -> Seq<char> {
    if ph && v.nodes[id].placeholder is Some {
        spaces(ind) + "  > "@ + v.nodes[id].placeholder->0 + ": ___\n"@
    } else {
        Seq::empty()
    }
}

/// The blank separator after a non-leaf node's own lines.
pub open spec fn sep_text(v: BookView, id: NodeId) -> Seq<char> {
    if v.nodes[id].children.len() > 0 {
        seq!['\n']
    } else {
        Seq::empty()
    }
}

/// The text a node contributes before its children: heading or checkbox
/// line, body lines, placeholder hint, and the separator before children.
pub open spec fn node_own_text(v: BookView, id: NodeId, ind: nat, ph: bool) -> Seq<char> {
    head_text(v, id, ind) + body_text(v, id, ind) + placeholder_text(v, id, ind, ph) + sep_text(
        v,
        id,
    )
}

pub open spec fn render_node_spec(v: BookView, id: NodeId, ind: nat, ph: bool) -> Seq<char>
    decreases v.rank(id) + 1, 0nat,
{
    if v.has(id) {
        node_own_text(v, id, ind, ph) + render_forest_spec(
            v,
            v.nodes[id].children,
            ind + 1,
            ph,
            v.rank(id),
        )
    } else {
        Seq::empty()
    }
}

/// The markdown rendering of a list of sibling subtrees.
pub open spec fn render_forest_spec(
    v: BookView,
    ids: Seq<NodeId>,
    ind: nat,
    ph: bool,
    r: nat,
) -> Seq<char>
    decreases r, ids.len(),
{
    if ids.len() == 0 {
        Seq::empty()
    } else if v.rank(ids[0]) < r {
        render_node_spec(v, ids[0], ind, ph) + render_forest_spec(v, ids.drop_first(), ind, ph, r)
    } else {
        render_forest_spec(v, ids.drop_first(), ind, ph, r)
    }
}

/// The markdown rendering of the aggregate, or of one subtree re-rooted
/// under its own title; an absent subtree root renders nothing.
pub open spec fn markdown_spec(v: BookView, ph: bool, subtree_root: Option<NodeId>) -> Seq<char> {
    match subtree_root {
        Some(root) => if v.has(root) {
            "# "@ + v.nodes[root].title + seq!['\n', '\n'] + render_forest_spec(
                v,
                v.nodes[root].children,
                0,
                ph,
                v.rank(root),
            )
        } else {
            Seq::empty()
        },
        None => "# "@ + v.title + seq!['\n', '\n'] + render_forest_spec(
            v,
            v.roots,
            0,
            ph,
            v.max_depth as nat + 1,
        ),
    }
}

/// Conversion between an aggregate and the serializable tree, and the
/// markdown rendering.
pub struct EjectService;

impl EjectService {
    /// Export one aggregate node with its whole subtree.
    fn build_tree_node(book: &TemplateBook, id: NodeId) -> (r: EjectTreeNode)
        requires
            book@.wf(),
            book@.has(id),
        ensures
            tree_node_matches(book@, id, r),
        decreases book@.rank(id) + 1,
    {
        let node = book.get_node(id).unwrap();
        let ghost kids = book@.nodes[id].children;
        proof {
            assert(book@.node_ok(id));
        }
        let n = node.children_len();
        let mut children: Vec<EjectTreeNode> = Vec::new();
        let mut i: usize = 0;
        while i < n
            invariant
                book@.wf(),
                book@.has(id),
                n == kids.len(),
                kids == book@.nodes[id].children,
                i <= n,
                children@.len() == i,
                forall|j: int|
                    0 <= j < i ==> tree_node_matches(book@, kids[j], #[trigger] children@[j]),
            decreases n - i,
        {
            let c = *book.child_at(id, i);
            proof {
                assert(book@.child_ok(id, kids[i as int]));
                assert(book@.node_ok(kids[i as int]));
                assert(book@.rank(c) < book@.rank(id));
            }
            children.push(Self::build_tree_node(book, c));
            i = i + 1;
        }
        let node_type = match node.node_type() {
            NodeType::Section => String::from_str("section"),
            NodeType::Content => String::from_str("content"),
        };
        let r = EjectTreeNode {
            id: node_id_text(id),
            title: String::from_str(node.title()),
            node_type,
            body: clone_opt_str(node.body()),
            placeholder: clone_opt_str(node.placeholder()),
            children,
        };
        r
    }

    /// Export the aggregate, or one subtree of it. A subtree export takes
    /// the chosen node's own title but represents only its children; an
    /// absent subtree root yields the aggregate's title and no nodes.
    pub fn build_tree(book: &TemplateBook, subtree_root: Option<NodeId>) -> (r: EjectTree)
        requires
            book@.wf(),
        ensures
            r.max_depth == book@.max_depth,
            r.title@ == (match subtree_root {
                Some(root) => if book@.has(root) {
                    book@.nodes[root].title
                } else {
                    book@.title
                },
                None => book@.title,
            }),
            ({
                let roots = match subtree_root {
                    Some(root) => if book@.has(root) {
                        book@.nodes[root].children
                    } else {
                        Seq::<NodeId>::empty()
                    },
                    None => book@.roots,
                };
                &&& r.nodes@.len() == roots.len()
                &&& (forall|i: int|
                    0 <= i < roots.len() ==> tree_node_matches(
                        book@,
                        roots[i],
                        #[trigger] r.nodes@[i],
                    ))
            }),
    {
        let mut root_ids: Vec<NodeId> = Vec::new();
        let mut title: String;
        match subtree_root {
            Some(root) => {
                match book.get_node(root) {
                    Some(node) => {
                        title = String::from_str(node.title());
                        let n = node.children_len();
                        let mut i: usize = 0;
                        while i < n
                            invariant
                                book@.wf(),
                                book@.has(root),
                                n == book@.nodes[root].children.len(),
                                i <= n,
                                root_ids@ == book@.nodes[root].children.take(i as int),
                            decreases n - i,
                        {
                            root_ids.push(*book.child_at(root, i));
                            proof {
                                assert(book@.nodes[root].children.take(i as int + 1)
                                    =~= book@.nodes[root].children.take(i as int).push(
                                    book@.nodes[root].children[i as int],
                                ));
                            }
                            i = i + 1;
                        }
                        proof {
                            assert(book@.nodes[root].children.take(n as int)
                                =~= book@.nodes[root].children);
                        }
                    },
                    None => {
                        title = String::from_str(book.title());
                    },
                }
            },
            None => {
                title = String::from_str(book.title());
                let roots = book.root_nodes();
                let n = roots.len();
                let mut i: usize = 0;
                while i < n
                    invariant
                        book@.wf(),
                        n == book@.roots.len(),
                        roots@ == book@.roots,
                        i <= n,
                        root_ids@ == book@.roots.take(i as int),
                    decreases n - i,
                {
                    root_ids.push(roots[i]);
                    proof {
                        assert(book@.roots.take(i as int + 1) =~= book@.roots.take(i as int).push(
                            book@.roots[i as int],
                        ));
                    }
                    i = i + 1;
                }
                proof {
                    assert(book@.roots.take(n as int) =~= book@.roots);
                }
            },
        }
        proof {
            assert forall|i: int| 0 <= i < root_ids@.len() implies book@.has(
                #[trigger] root_ids@[i],
            ) by {
                match subtree_root {
                    Some(root) => {
                        if book@.has(root) {
                            assert(book@.node_ok(root));
                            assert(book@.child_ok(root, book@.nodes[root].children[i]));
                        }
                    },
                    None => {
                        assert(book@.root_ok(book@.roots[i]));
                    },
                }
            }
        }
        let n = root_ids.len();
        let mut nodes: Vec<EjectTreeNode> = Vec::new();
        let mut i: usize = 0;
        while i < n
            invariant
                book@.wf(),
                n == root_ids@.len(),
                forall|j: int| 0 <= j < n ==> book@.has(#[trigger] root_ids@[j]),
                i <= n,
                nodes@.len() == i,
                forall|j: int|
                    0 <= j < i ==> tree_node_matches(book@, root_ids@[j], #[trigger] nodes@[j]),
            decreases n - i,
        {
            nodes.push(Self::build_tree_node(book, root_ids[i]));
            i = i + 1;
        }
        EjectTree { title, max_depth: book.max_depth(), nodes }
    }

    /// Import one tree node (with its subtree) under `parent`, appending it
    /// at the end of the new sibling list. `depth` is the recursion depth:
    /// 0 for roots, the parent's aggregate depth otherwise.
    #[verifier::loop_isolation(false)]
    fn import_tree_node(
        book: &mut TemplateBook,
        parent: Option<NodeId>,
        t: &EjectTreeNode,
        depth: u8,
    ) -> (r: Result<(), ImportError>)
        requires
            old(book)@.wf(),
            match parent {
                None => depth == 0,
                Some(p) => old(book)@.has(p) && old(book)@.depths[p] == depth as nat,
            },
        ensures
            final(book)@.wf(),
            book_extends(old(book)@, final(book)@, parent),
            match first_issue_node(*t, depth as int, old(book)@.max_depth as int) {
                None => r is Ok && (exists|nid: NodeId|
                    {
                        &&& #[trigger] imported_node_matches(final(book)@, nid, *t)
                        &&& !old(book)@.has(nid)
                        &&& final(book)@.depths[nid] == depth + 1
                        &&& match parent {
                            Some(p) => final(book)@.nodes[p].children == old(
                                book,
                            )@.nodes[p].children.push(nid),
                            None => final(book)@.roots == old(book)@.roots.push(nid),
                        }
                    }),
                Some(o) => r matches Err(e) && issue_matches(e, o),
            },
        decreases *t,
    {
        if depth >= IMPORT_MAX_RECURSION {
            return Err(ImportError::RecursionLimit);
        }
        let tag = t.node_type.as_str();
        let node_type: NodeType;
        if crate::textutil::str_eq(tag, "section") {
            node_type = NodeType::Section;
        } else if crate::textutil::str_eq(tag, "content") || crate::textutil::str_eq(
            tag,
            "checklist",
        ) || crate::textutil::str_eq(tag, "reference") || crate::textutil::str_eq(
            tag,
            "runnable",
        ) {
            node_type = NodeType::Content;
        } else {
            proof {
                assert(tag_type(t.node_type@) is None);
            }
            return Err(ImportError::InvalidType(String::from_str(tag)));
        }
        proof {
            assert(tag_type(t.node_type@) == Some(node_type));
        }
        let req = AddNodeRequest {
            parent,
            title: String::from_str(t.title.as_str()),
            node_type,
            body: clone_opt_string(&t.body),
            placeholder: clone_opt_string(&t.placeholder),
            position: usize::MAX,
        };
        let ghost pre = book@;
        let nid = match book.add_node(req) {
            Ok(id) => id,
            Err(e) => {
                proof {
                    assert(pre.depth_under(parent) == depth + 1);
                    assert(e matches DomainError::MaxDepthExceeded { node_id: _, max: _ });
                    assert(depth as int + 1 > pre.max_depth as int);
                }
                return Err(ImportError::Domain(e));
            },
        };
        proof {
            assert(pre.depth_under(parent) == depth + 1);
            assert(book@.depths[nid] == depth + 1);
            match parent {
                Some(p) => {
                    assert(pre.nodes[p].children.insert(
                        pre.nodes[p].children.len() as int,
                        nid,
                    ) =~= pre.nodes[p].children.push(nid));
                },
                None => {
                    assert(pre.roots.insert(pre.roots.len() as int, nid) =~= pre.roots.push(nid));
                },
            }
            assert(!pre.has(nid));
            assert forall|k: NodeId| pre.has(k) implies #[trigger] book@.has(k) by {
                assert(k != nid);
            }
            assert forall|k: NodeId| pre.has(k) && Some(k) != parent implies #[trigger] book@.nodes[k]
                == pre.nodes[k] by {
                assert(k != nid);
            }
            assert forall|k: NodeId| pre.has(k) implies #[trigger] book@.depths[k]
                == pre.depths[k] by {
                assert(k != nid);
            }
            match parent {
                Some(p) => {
                    lemma_prefix_push(pre.nodes[p].children, nid);
                    assert(book@.nodes[p].children == pre.nodes[p].children.push(nid));
                    assert(book@.nodes[p].children.is_prefix_of(book@.nodes[p].children)) by {
                        lemma_prefix_push(book@.nodes[p].children, nid);
                    }
                    assert(pre.nodes[p].children.is_prefix_of(book@.nodes[p].children));
                },
                None => {
                    lemma_prefix_push(pre.roots, nid);
                    assert(book@.roots == pre.roots.push(nid));
                    assert(pre.roots.is_prefix_of(book@.roots));
                },
            }
            assert(book_extends(pre, book@, parent));
        }
        let ghost mid = book@;
        let n = t.children.len();
        let mut i: usize = 0;
        while i < n
            invariant
                book@.wf(),
                n == t.children@.len(),
                i <= n,
                mid.has(nid),
                book@.has(nid),
                book@.depths[nid] == depth + 1,
                depth < IMPORT_MAX_RECURSION,
                depth as int + 1 <= mid.max_depth as int,
                book_extends(mid, book@, Some(nid)),
                book@.nodes[nid].children.len() == i,
                mid.nodes[nid].children.len() == 0,
                forall|j: int|
                    0 <= j < i ==> imported_node_matches(
                        book@,
                        book@.nodes[nid].children[j],
                        #[trigger] t.children@[j],
                    ),
                forall|j: int|
                    0 <= j < i ==> first_issue_node(
                        #[trigger] t.children@[j],
                        depth as int + 1,
                        mid.max_depth as int,
                    ) is None,
            decreases n - i,
        {
            let ghost prev = book@;
            let res = Self::import_tree_node(book, Some(nid), &t.children[i], depth + 1);
            match res {
                Ok(_) => {
                    proof {
                        let cid = choose|cid: NodeId|
                            {
                                &&& #[trigger] imported_node_matches(book@, cid, t.children@[i as int])
                                &&& !prev.has(cid)
                                &&& book@.depths[cid] == depth + 2
                                &&& book@.nodes[nid].children == prev.nodes[nid].children.push(
                                    cid,
                                )
                            };
                        assert(book@.nodes[nid].children.len() == i + 1);
                        lemma_extends_trans(mid, prev, book@, Some(nid));
                        assert forall|j: int| 0 <= j < i implies imported_node_matches(
                            book@,
                            book@.nodes[nid].children[j],
                            #[trigger] t.children@[j],
                        ) by {
                            let c = prev.nodes[nid].children[j];
                            assert(book@.nodes[nid].children[j] == c);
                            assert(imported_node_matches(prev, c, t.children@[j]));
                            assert forall|k: NodeId|
                                prev.has(k) && prev.is_under(k, c) implies book@.has(k)
                                && book@.nodes[k] == prev.nodes[k] by {
                                assert(k != nid) by {
                                    if k == nid {
                                        assert(prev.is_under(nid, c));
                                        crate::tree::lemma_is_under_depth(prev, nid, c);
                                        assert(prev.node_ok(c));
                                        assert(prev.child_ok(nid, c));
                                    }
                                }
                            }
                            lemma_import_match_frame(prev, book@, c, t.children@[j]);
                        }
                    }
                },
                Err(e) => {
                    proof {
                        lemma_first_issue_skip(
                            t.children@,
                            i as int,
                            depth as int + 1,
                            mid.max_depth as int,
                        );
                        assert(t.children@.skip(i as int)[0] == t.children@[i as int]);
                        assert(t.children@.skip(i as int).drop_first() =~= t.children@.skip(
                            i as int + 1,
                        ));
                        match parent {
                            Some(p) => {
                                assert(p != nid) by {
                                    assert(!pre.has(nid));
                                }
                            },
                            None => {},
                        }
                        lemma_extends_through_add(pre, mid, book@, parent, nid);
                    }
                    return Err(e);
                },
            }
            i = i + 1;
        }
        proof {
            assert(t.children@.skip(n as int) =~= Seq::<EjectTreeNode>::empty());
            lemma_first_issue_skip(t.children@, n as int, depth as int + 1, mid.max_depth as int);
            assert(first_issue_node(*t, depth as int, pre.max_depth as int) is None);
            assert(imported_node_matches(book@, nid, *t)) by {
                assert(book@.nodes[nid].title == t.title@);
            }
            match parent {
                Some(p) => {
                    assert(p != nid) by {
                        assert(!pre.has(nid));
                    }
                },
                None => {},
            }
            lemma_extends_through_add(pre, mid, book@, parent, nid);
            assert(match parent {
                Some(p) => book@.nodes[p].children == pre.nodes[p].children.push(nid),
                None => book@.roots == pre.roots.push(nid),
            }) by {
                match parent {
                    Some(p) => {
                        assert(p != nid);
                        assert(book@.nodes[p] == mid.nodes[p]);
                    },
                    None => {},
                }
            }
        }
        Ok(())
    }

    /// Rewrite a list line (`- ` or `* `) into checkbox syntax, keeping any
    /// leading whitespace; other lines pass through unchanged.
    pub fn list_to_checkbox(line: &str) -> (r: String)
        ensures
            r@ == checkbox_line(line@),
    {
        let cs = crate::textutil::chars_of(line);
        let n = cs.len();
        let mut k: usize = 0;
        loop
            invariant
                k <= n,
                n == cs@.len(),
                cs@ == line@,
                forall|j: int| 0 <= j < k ==> is_space(#[trigger] line@[j]),
            ensures
                k <= n,
                forall|j: int| 0 <= j < k ==> is_space(#[trigger] line@[j]),
                k == n || !is_space(line@[k as int]),
            decreases n - k,
        {
            if k >= n {
                break ;
            }
            if !is_space_exec(cs[k]) {
                break ;
            }
            k = k + 1;
        }
        proof {
            lemma_lead_ws(line@, k as int);
            reveal_strlit("- ");
            reveal_strlit("* ");
            assert("- "@.len() == 2 && "- "@[0] == '-' && "- "@[1] == ' ');
            assert("* "@.len() == 2 && "* "@[0] == '*' && "* "@[1] == ' ');
        }
        let ghost trimmed = line@.skip(k as int);
        let dash = k < n && cs[k] == '-' && k + 1 < n && cs[k + 1] == ' ';
        let star = k < n && cs[k] == '*' && k + 1 < n && cs[k + 1] == ' ';
        proof {
            if k + 1 < n {
                assert(trimmed[0] == line@[k as int]);
                assert(trimmed[1] == line@[k as int + 1]);
            }
            if dash {
                assert(trimmed.take(2) =~= "- "@);
            } else {
                if crate::resolve::text_starts_with(trimmed, "- "@) {
                    assert(trimmed.take(2)[0] == trimmed[0] && trimmed.take(2)[1] == trimmed[1]);
                    assert(trimmed[0] == '-' && trimmed[1] == ' ');
                    assert(k + 1 < n);
                    assert(false);
                }
            }
            if star {
                assert(trimmed.take(2) =~= "* "@);
            } else {
                if crate::resolve::text_starts_with(trimmed, "* "@) {
                    assert(trimmed.take(2)[0] == trimmed[0] && trimmed.take(2)[1] == trimmed[1]);
                    assert(trimmed[0] == '*' && trimmed[1] == ' ');
                    assert(k + 1 < n);
                    assert(false);
                }
            }
        }
        if dash || star {
            let mut out = String::new();
            let mut j: usize = 0;
            while j < k
                invariant
                    j <= k,
                    k + 1 < n,
                    n == cs@.len(),
                    cs@ == line@,
                    out@ == line@.take(j as int),
                decreases k - j,
            {
                crate::textutil::push_char(&mut out, cs[j]);
                proof {
                    assert(line@.take(j as int + 1) =~= line@.take(j as int).push(
                        line@[j as int],
                    ));
                }
                j = j + 1;
            }
            out.append("- [ ] ");
            let ghost mid_s = out@;
            proof {
                reveal_strlit("- [ ] ");
            }
            let mut j2: usize = k + 2;
            while j2 < n
                invariant
                    k + 2 <= j2 <= n,
                    n == cs@.len(),
                    cs@ == line@,
                    mid_s == line@.take(k as int) + "- [ ] "@,
                    out@ == mid_s + line@.subrange(k as int + 2, j2 as int),
                decreases n - j2,
            {
                crate::textutil::push_char(&mut out, cs[j2]);
                proof {
                    assert(line@.subrange(k as int + 2, j2 as int + 1) =~= line@.subrange(
                        k as int + 2,
                        j2 as int,
                    ).push(line@[j2 as int]));
                    assert(mid_s + line@.subrange(k as int + 2, j2 as int + 1) =~= (mid_s
                        + line@.subrange(k as int + 2, j2 as int)).push(line@[j2 as int]));
                }
                j2 = j2 + 1;
            }
            proof {
                assert(trimmed.skip(2) =~= line@.subrange(k as int + 2, n as int));
                assert(out@ =~= line@.take(k as int) + "- [ ] "@ + trimmed.skip(2));
            }
            out
        } else {
            String::from_str(line)
        }
    }

    /// One splitting step: the first line of the tail starting at `i` runs
    /// to the newline at `j` (or the end), minus a trailing carriage return.
    proof fn lemma_split_step(s: Seq<char>, i: int, j: int, end: int)
        requires
            0 <= i <= j <= s.len(),
            i < s.len(),
            forall|t: int| i <= t < j ==> #[trigger] s[t] != '\n',
            j == s.len() || s[j] == '\n',
            end == (if j > i && s[j - 1] == '\r' {
                j - 1
            } else {
                j
            }),
        ensures
            lines_of(s.skip(i)).len() == (if j < s.len() {
                (1 + lines_of(s.skip(j + 1)).len()) as nat
            } else {
                1nat
            }),
            lines_of(s.skip(i))[0] == s.subrange(i, end),
            j < s.len() ==> (forall|q: int|
                0 <= q < lines_of(s.skip(j + 1)).len() ==> #[trigger] lines_of(s.skip(j + 1))[q]
                    == lines_of(s.skip(i))[q + 1]),
    {
        let rest = s.skip(i);
        assert forall|t: int| 0 <= t < j - i implies #[trigger] rest[t] != '\n' by {
            assert(rest[t] == s[i + t]);
        }
        if j - i < rest.len() {
            assert(rest[j - i] == s[j]);
        }
        lemma_first_nl(rest, j - i);
        let raw = if j - i == rest.len() {
            rest
        } else {
            rest.take(j - i)
        };
        assert(raw =~= s.subrange(i, j));
        assert(strip_cr(raw) =~= s.subrange(i, end)) by {
            if j > i && s[j - 1] == '\r' {
                assert(raw.len() > 0 && raw[raw.len() - 1] == '\r');
                assert(raw.drop_last() =~= s.subrange(i, j - 1));
            } else {
                if raw.len() > 0 {
                    assert(raw[raw.len() - 1] == s[j - 1]);
                }
            }
        }
        if j == s.len() {
            assert(lines_of(rest) =~= seq![strip_cr(rest)]);
        } else {
            assert(lines_of(rest) =~= seq![strip_cr(rest.take(j - i))] + lines_of(
                rest.skip(j - i + 1),
            ));
            assert(rest.skip(j - i + 1) =~= s.skip(j + 1));
        }
    }

    /// The lines of a text, as `str::lines` yields them.
    fn split_lines(s: &str) -> (r: Vec<String>)
        ensures
            r@.len() == lines_of(s@).len(),
            forall|i: int| 0 <= i < r@.len() ==> (#[trigger] r@[i])@ == lines_of(s@)[i],
    {
        let cs = crate::textutil::chars_of(s);
        let n = cs.len();
        let mut out: Vec<String> = Vec::new();
        let mut i: usize = 0;
        let ghost full = lines_of(s@);
        loop
            invariant_except_break
                i <= n,
                n == cs@.len(),
                cs@ == s@,
                full == lines_of(s@),
                full.len() == out@.len() + lines_of(s@.skip(i as int)).len(),
                forall|j: int| 0 <= j < out@.len() ==> (#[trigger] out@[j])@ == full[j],
                forall|j: int|
                    0 <= j < lines_of(s@.skip(i as int)).len() ==> lines_of(s@.skip(i as int))[j]
                        == #[trigger] full[out@.len() + j],
            ensures
                full.len() == out@.len(),
                forall|j: int| 0 <= j < out@.len() ==> (#[trigger] out@[j])@ == full[j],
            decreases n - i,
        {
            if i >= n {
                proof {
                    assert(s@.skip(n as int) =~= Seq::<char>::empty());
                }
                break ;
            }
            let mut j: usize = i;
            loop
                invariant
                    i <= j <= n,
                    n == cs@.len(),
                    cs@ == s@,
                    forall|t: int| i <= t < j ==> #[trigger] s@[t] != '\n',
                ensures
                    i <= j <= n,
                    forall|t: int| i <= t < j ==> #[trigger] s@[t] != '\n',
                    j == n || s@[j as int] == '\n',
                decreases n - j,
            {
                if j >= n {
                    break ;
                }
                if cs[j] == '\n' {
                    break ;
                }
                j = j + 1;
            }
            let mut end = j;
            if end > i && cs[end - 1] == '\r' {
                end = end - 1;
            }
            proof {
                Self::lemma_split_step(s@, i as int, j as int, end as int);
            }
            let mut line = String::new();
            let mut t = i;
            while t < end
                invariant
                    i <= t <= end,
                    end <= n,
                    n == cs@.len(),
                    cs@ == s@,
                    line@ == s@.subrange(i as int, t as int),
                decreases end - t,
            {
                crate::textutil::push_char(&mut line, cs[t]);
                proof {
                    assert(s@.subrange(i as int, t as int + 1) =~= s@.subrange(
                        i as int,
                        t as int,
                    ).push(s@[t as int]));
                }
                t = t + 1;
            }
            let ghost old_out = out@;
            out.push(line);
            if j < n {
                proof {
                    let rem = lines_of(s@.skip(j as int + 1));
                    assert(lines_of(s@.skip(i as int))[0] == line@);
                    assert(full[old_out.len() as int + 0] == lines_of(s@.skip(i as int))[0]);
                    assert forall|q: int| 0 <= q < rem.len() implies #[trigger] rem[q]
                        == full[out@.len() + q] by {
                        assert(rem[q] == lines_of(s@.skip(i as int))[q + 1]);
                        assert(lines_of(s@.skip(i as int))[q + 1] == full[old_out.len() as int + (
                        q + 1)]);
                        assert(old_out.len() as int + (q + 1) == out@.len() + q);
                    }
                }
                i = j + 1;
            } else {
                proof {
                    assert(lines_of(s@.skip(i as int)).len() == 1);
                    assert(lines_of(s@.skip(i as int))[0] == line@);
                    assert(full[old_out.len() as int + 0] == lines_of(s@.skip(i as int))[0]);
                    assert forall|q: int| 0 <= q < out@.len() implies (#[trigger] out@[q])@
                        == full[q] by {
                        if q == old_out.len() {
                            assert(full[q] == full[old_out.len() as int + 0]);
                        }
                    }
                }
                break ;
            }
        }
        out
    }

    /// Appending one more indent level or heading mark.
    proof fn lemma_spaces_snoc(n: nat)
        ensures
            spaces(n + 1) == spaces(n) + seq![' ', ' '],
            hashes(n + 1) == hashes(n) + seq!['#'],
        decreases n,
    {
        if n == 0 {
            assert(spaces(1) =~= spaces(0) + seq![' ', ' ']);
            assert(hashes(1) =~= hashes(0) + seq!['#']);
        } else {
            Self::lemma_spaces_snoc((n - 1) as nat);
            assert(spaces(n + 1) =~= spaces(n) + seq![' ', ' ']);
            assert(hashes(n + 1) =~= hashes(n) + seq!['#']);
        }
    }

    /// The indent run for one level.
    pub(crate) fn spaces_exec(n: usize) -> (r: String)
        ensures
            r@ == spaces(n as nat),
    {
        let mut out = String::new();
        let mut i: usize = 0;
        proof {
            assert(out@ =~= spaces(0));
        }
        while i < n
            invariant
                i <= n,
                out@ == spaces(i as nat),
            decreases n - i,
        {
            out.append("  ");
            proof {
                reveal_strlit("  ");
                Self::lemma_spaces_snoc(i as nat);
                assert("  "@ =~= seq![' ', ' ']);
            }
            i = i + 1;
        }
        out
    }

    /// A run of heading marks.
    fn hashes_exec(n: usize) -> (r: String)
        ensures
            r@ == hashes(n as nat),
    {
        let mut out = String::new();
        let mut i: usize = 0;
        proof {
            assert(out@ =~= hashes(0));
        }
        while i < n
            invariant
                i <= n,
                out@ == hashes(i as nat),
            decreases n - i,
        {
            crate::textutil::push_char(&mut out, '#');
            proof {
                Self::lemma_spaces_snoc(i as nat);
                assert(hashes(i as nat) + seq!['#'] =~= hashes(i as nat).push('#'));
            }
            i = i + 1;
        }
        out
    }

    /// The body rendering splits over concatenation of the line lists.
    proof fn lemma_body_block_concat(a: Seq<Seq<char>>, b: Seq<Seq<char>>, ind: nat)
        ensures
            body_block(a + b, ind) == body_block(a, ind) + body_block(b, ind),
        decreases a.len(),
    {
        if a.len() == 0 {
            assert(a + b =~= b);
            assert(body_block(a, ind) + body_block(b, ind) =~= body_block(b, ind));
        } else {
            assert((a + b)[0] == a[0]);
            assert((a + b).drop_first() =~= a.drop_first() + b);
            Self::lemma_body_block_concat(a.drop_first(), b, ind);
            assert(body_block(a + b, ind) =~= body_block(a, ind) + body_block(b, ind));
        }
    }

    /// The forest rendering splits over concatenation of the sibling lists.
    proof fn lemma_render_forest_concat(
        v: BookView,
        a: Seq<NodeId>,
        b: Seq<NodeId>,
        ind: nat,
        ph: bool,
        r: nat,
    )
        ensures
            render_forest_spec(v, a + b, ind, ph, r) == render_forest_spec(v, a, ind, ph, r)
                + render_forest_spec(v, b, ind, ph, r),
        decreases a.len(),
    {
        if a.len() == 0 {
            assert(a + b =~= b);
            assert(render_forest_spec(v, a, ind, ph, r) + render_forest_spec(v, b, ind, ph, r)
                =~= render_forest_spec(v, b, ind, ph, r));
        } else {
            assert((a + b)[0] == a[0]);
            assert((a + b).drop_first() =~= a.drop_first() + b);
            Self::lemma_render_forest_concat(v, a.drop_first(), b, ind, ph, r);
            if v.rank(a[0]) < r {
                assert(render_forest_spec(v, a + b, ind, ph, r) =~= render_forest_spec(
                    v,
                    a,
                    ind,
                    ph,
                    r,
                ) + render_forest_spec(v, b, ind, ph, r));
            } else {
                assert(render_forest_spec(v, a + b, ind, ph, r) =~= render_forest_spec(
                    v,
                    a,
                    ind,
                    ph,
                    r,
                ) + render_forest_spec(v, b, ind, ph, r));
            }
        }
    }

    /// A one-element sibling list renders that sibling's subtree.
    proof fn lemma_render_forest_single(v: BookView, x: NodeId, ind: nat, ph: bool, r: nat)
        requires
            v.rank(x) < r,
        ensures
            render_forest_spec(v, seq![x], ind, ph, r) == render_node_spec(v, x, ind, ph),
    {
        assert(seq![x].drop_first() =~= Seq::<NodeId>::empty());
        assert(seq![x][0] == x);
        assert(render_forest_spec(v, Seq::<NodeId>::empty(), ind, ph, r) == Seq::<char>::empty());
        assert(render_node_spec(v, x, ind, ph) + Seq::<char>::empty() =~= render_node_spec(
            v,
            x,
            ind,
            ph,
        ));
    }

    /// Render a body text: each line two spaces deeper than the node's own
    /// line, list markers rewritten to checkboxes.
    #[verifier::loop_isolation(false)]
    #[verifier::rlimit(100)]
    fn render_body(b: &str, indent_level: usize, buf: &mut String)
        ensures
            final(buf)@ == old(buf)@ + body_block(lines_of(b@), indent_level as nat),
    {
        let ghost ind = indent_level as nat;
        let lines = Self::split_lines(b);
        let ghost ls = lines_of(b@);
        let sp = Self::spaces_exec(indent_level);
        let nl = lines.len();
        let mut li: usize = 0;
        proof {
            assert(ls.take(0) =~= Seq::<Seq<char>>::empty());
            assert(old(buf)@ + body_block(ls.take(0), ind) =~= old(buf)@);
        }
        while li < nl
            invariant
                nl == ls.len(),
                li <= nl,
                sp@ == spaces(ind),
                forall|q: int| 0 <= q < nl ==> (#[trigger] lines@[q])@ == ls[q],
                buf@ == old(buf)@ + body_block(ls.take(li as int), ind),
            decreases nl - li,
        {
            buf.append(sp.as_str());
            buf.append("  ");
            let cb = Self::list_to_checkbox(lines[li].as_str());
            buf.append(cb.as_str());
            crate::textutil::push_char(buf, '\n');
            proof {
                reveal_strlit("  ");
                assert("  "@ =~= seq![' ', ' ']);
                assert(ls.take(li as int + 1) =~= ls.take(li as int) + seq![ls[li as int]]);
                Self::lemma_body_block_concat(ls.take(li as int), seq![ls[li as int]], ind);
                assert(seq![ls[li as int]].drop_first() =~= Seq::<Seq<char>>::empty());
                assert(body_block(seq![ls[li as int]], ind) =~= spaces(ind) + seq![' ', ' ']
                    + checkbox_line(ls[li as int]) + seq!['\n']);
                assert(buf@ =~= old(buf)@ + body_block(ls.take(li as int + 1), ind));
            }
            li = li + 1;
        }
        proof {
            assert(ls.take(nl as int) =~= ls);
        }
    }

    /// Render the node's heading or checkbox line.
    #[verifier::rlimit(100)]
    fn render_head(
        book: &TemplateBook,
        id: NodeId,
        indent_level: usize,
        buf: &mut String,
    )
        requires
            book@.has(id),
            indent_level + 2 <= usize::MAX,
        ensures
            final(buf)@ == old(buf)@ + head_text(book@, id, indent_level as nat),
    {
        let ghost v = book@;
        let ghost ind = indent_level as nat;
        let node = book.get_node(id).unwrap();
        match node.node_type() {
            NodeType::Section => {
                let lvl = if indent_level + 2 < 4 {
                    indent_level + 2
                } else {
                    4
                };
                let h = Self::hashes_exec(lvl);
                buf.append(h.as_str());
                crate::textutil::push_char(buf, ' ');
                buf.append(node.title());
                buf.append("\n\n");
                proof {
                    reveal_strlit("\n\n");
                    assert("\n\n"@ =~= seq!['\n', '\n']);
                    assert(buf@ =~= old(buf)@ + head_text(v, id, ind));
                }
            },
            NodeType::Content => {
                let sp = Self::spaces_exec(indent_level);
                buf.append(sp.as_str());
                buf.append("- [ ] ");
                buf.append(node.title());
                crate::textutil::push_char(buf, '\n');
                proof {
                    reveal_strlit("- [ ] ");
                    assert(buf@ =~= old(buf)@ + head_text(v, id, ind));
                }
            },
        }
    }

    /// Render the node's own text: heading or checkbox line, body,
    /// placeholder hint, and the separator before children.
    #[verifier::rlimit(100)]
    fn render_own(
        book: &TemplateBook,
        id: NodeId,
        indent_level: usize,
        include_placeholders: bool,
        buf: &mut String,
    )
        requires
            book@.wf(),
            book@.has(id),
            indent_level + 2 <= usize::MAX,
        ensures
            final(buf)@ == old(buf)@ + node_own_text(
                book@,
                id,
                indent_level as nat,
                include_placeholders,
            ),
    {
        let ghost v = book@;
        let ghost ind = indent_level as nat;
        let node = book.get_node(id).unwrap();
        Self::render_head(book, id, indent_level, buf);
        let ghost after_head = buf@;
        match node.body() {
            Some(b) => {
                Self::render_body(b, indent_level, buf);
            },
            None => {},
        }
        let ghost after_body = buf@;
        proof {
            assert(after_body == after_head + body_text(v, id, ind)) by {
                if v.nodes[id].body is None {
                    assert(after_head + Seq::<char>::empty() =~= after_head);
                }
            }
        }
        if include_placeholders {
            match node.placeholder() {
                Some(p) => {
                    let sp = Self::spaces_exec(indent_level);
                    buf.append(sp.as_str());
                    buf.append("  > ");
                    buf.append(p);
                    buf.append(": ___\n");
                    proof {
                        reveal_strlit("  > ");
                        reveal_strlit(": ___\n");
                        assert(buf@ =~= after_body + placeholder_text(
                            v,
                            id,
                            ind,
                            include_placeholders,
                        ));
                    }
                },
                None => {},
            }
        }
        let ghost after_ph = buf@;
        proof {
            assert(after_ph == after_body + placeholder_text(v, id, ind, include_placeholders))
                by {
                if !(include_placeholders && v.nodes[id].placeholder is Some) {
                    assert(after_body + Seq::<char>::empty() =~= after_body);
                }
            }
        }
        if !node.is_leaf() {
            crate::textutil::push_char(buf, '\n');
        }
        proof {
            assert(buf@ == after_ph + sep_text(v, id)) by {
                if v.nodes[id].children.len() == 0 {
                    assert(after_ph + Seq::<char>::empty() =~= after_ph);
                } else {
                    assert(after_ph.push('\n') =~= after_ph + seq!['\n']);
                }
            }
            assert(buf@ =~= old(buf)@ + node_own_text(v, id, ind, include_placeholders));
        }
    }

    /// Render one node and its subtree into `buf`.
    #[verifier::loop_isolation(false)]
    #[verifier::rlimit(100)]
    fn render_node(
        book: &TemplateBook,
        id: NodeId,
        indent_level: usize,
        include_placeholders: bool,
        buf: &mut String,
    )
        requires
            book@.wf(),
            book@.has(id),
            indent_level + book@.rank(id) + 2 <= usize::MAX,
        ensures
            final(buf)@ == old(buf)@ + render_node_spec(
                book@,
                id,
                indent_level as nat,
                include_placeholders,
            ),
        decreases book@.rank(id) + 1,
    {
        let ghost v = book@;
        let ghost ind = indent_level as nat;
        Self::render_own(book, id, indent_level, include_placeholders, buf);
        let ghost after_own = buf@;
        let node = book.get_node(id).unwrap();
        proof {
            assert(v.node_ok(id));
        }
        let ghost kids = v.nodes[id].children;
        let ghost rk = v.rank(id);
        let n = node.children_len();
        let mut i: usize = 0;
        proof {
            assert(kids.take(0) =~= Seq::<NodeId>::empty());
            assert(after_own + render_forest_spec(
                v,
                kids.take(0),
                ind + 1,
                include_placeholders,
                rk,
            ) =~= after_own);
        }
        while i < n
            invariant
                n == kids.len(),
                i <= n,
                buf@ == after_own + render_forest_spec(
                    v,
                    kids.take(i as int),
                    ind + 1,
                    include_placeholders,
                    rk,
                ),
            decreases n - i,
        {
            let c = *book.child_at(id, i);
            proof {
                assert(v.child_ok(id, kids[i as int]));
                assert(v.node_ok(kids[i as int]));
                assert(v.rank(c) < rk);
                Self::lemma_render_forest_concat(
                    v,
                    kids.take(i as int),
                    seq![c],
                    ind + 1,
                    include_placeholders,
                    rk,
                );
                Self::lemma_render_forest_single(v, c, ind + 1, include_placeholders, rk);
                assert(kids.take(i as int + 1) =~= kids.take(i as int) + seq![c]);
            }
            Self::render_node(book, c, indent_level + 1, include_placeholders, buf);
            i = i + 1;
        }
        proof {
            assert(kids.take(n as int) =~= kids);
            assert(buf@ =~= old(buf)@ + render_node_spec(v, id, ind, include_placeholders));
        }
    }

    /// Render the aggregate (or one subtree, re-rooted under its own title)
    /// as markdown.
    #[verifier::loop_isolation(false)]
    pub fn render_markdown(
        book: &TemplateBook,
        include_placeholders: bool,
        subtree_root: Option<NodeId>,
    ) -> (r: String)
        requires
            book@.wf(),
        ensures
            r@ == markdown_spec(book@, include_placeholders, subtree_root),
    {
        let ghost v = book@;
        let mut buf = String::new();
        match subtree_root {
            Some(root) => {
                match book.get_node(root) {
                    Some(node) => {
                        proof {
                            assert(v.node_ok(root));
                        }
                        buf.append("# ");
                        buf.append(node.title());
                        buf.append("\n\n");
                        let ghost head = "# "@ + v.nodes[root].title + seq!['\n', '\n'];
                        proof {
                            reveal_strlit("# ");
                            reveal_strlit("\n\n");
                            assert("\n\n"@ =~= seq!['\n', '\n']);
                            assert(buf@ =~= head);
                        }
                        let ghost kids = v.nodes[root].children;
                        let ghost rk = v.rank(root);
                        let n = node.children_len();
                        let mut i: usize = 0;
                        proof {
                            assert(kids.take(0) =~= Seq::<NodeId>::empty());
                            assert(head + render_forest_spec(
                                v,
                                kids.take(0),
                                0,
                                include_placeholders,
                                rk,
                            ) =~= head);
                        }
                        while i < n
                            invariant
                                n == kids.len(),
                                i <= n,
                                buf@ == head + render_forest_spec(
                                    v,
                                    kids.take(i as int),
                                    0,
                                    include_placeholders,
                                    rk,
                                ),
                            decreases n - i,
                        {
                            let c = *book.child_at(root, i);
                            proof {
                                assert(v.child_ok(root, kids[i as int]));
                                assert(v.node_ok(kids[i as int]));
                                assert(v.rank(c) < rk);
                                Self::lemma_render_forest_concat(
                                    v,
                                    kids.take(i as int),
                                    seq![c],
                                    0,
                                    include_placeholders,
                                    rk,
                                );
                                Self::lemma_render_forest_single(
                                    v,
                                    c,
                                    0,
                                    include_placeholders,
                                    rk,
                                );
                                assert(kids.take(i as int + 1) =~= kids.take(i as int) + seq![c]);
                            }
                            Self::render_node(book, c, 0, include_placeholders, &mut buf);
                            i = i + 1;
                        }
                        proof {
                            assert(kids.take(n as int) =~= kids);
                        }
                    },
                    None => {},
                }
            },
            None => {
                buf.append("# ");
                buf.append(book.title());
                buf.append("\n\n");
                let ghost head = "# "@ + v.title + seq!['\n', '\n'];
                proof {
                    reveal_strlit("# ");
                    reveal_strlit("\n\n");
                    assert("\n\n"@ =~= seq!['\n', '\n']);
                    assert(buf@ =~= head);
                }
                let ghost rk = v.max_depth as nat + 1;
                let roots = book.root_nodes();
                let n = roots.len();
                let mut i: usize = 0;
                proof {
                    assert(v.roots.take(0) =~= Seq::<NodeId>::empty());
                    assert(head + render_forest_spec(
                        v,
                        v.roots.take(0),
                        0,
                        include_placeholders,
                        rk,
                    ) =~= head);
                }
                while i < n
                    invariant
                        n == v.roots.len(),
                        roots@ == v.roots,
                        i <= n,
                        buf@ == head + render_forest_spec(
                            v,
                            v.roots.take(i as int),
                            0,
                            include_placeholders,
                            rk,
                        ),
                    decreases n - i,
                {
                    let c = roots[i];
                    proof {
                        assert(v.root_ok(v.roots[i as int]));
                        assert(v.node_ok(c));
                        assert(v.rank(c) < rk);
                        Self::lemma_render_forest_concat(
                            v,
                            v.roots.take(i as int),
                            seq![c],
                            0,
                            include_placeholders,
                            rk,
                        );
                        Self::lemma_render_forest_single(v, c, 0, include_placeholders, rk);
                        assert(v.roots.take(i as int + 1) =~= v.roots.take(i as int) + seq![c]);
                    }
                    Self::render_node(book, c, 0, include_placeholders, &mut buf);
                    i = i + 1;
                }
                proof {
                    assert(v.roots.take(n as int) =~= v.roots);
                }
            },
        }
        buf
    }

    /// Rebuild an aggregate from a serializable tree: fresh identifiers,
    /// depth-first insertion preserving order, legacy type tags normalized,
    /// nesting capped independently of the declared maximum depth.
    #[verifier::loop_isolation(false)]
    pub fn import_tree(tree: &EjectTree) -> (r: Result<TemplateBook, ImportError>)
        ensures
            match r {
                Ok(b) => {
                    &&& b@.wf()
                    &&& b@.title == tree.title@
                    &&& b@.max_depth == tree.max_depth
                    &&& first_issue_forest(tree.nodes@, 0, tree.max_depth as int) is None
                    &&& b@.roots.len() == tree.nodes@.len()
                    &&& (forall|i: int|
                        0 <= i < tree.nodes@.len() ==> imported_node_matches(
                            b@,
                            b@.roots[i],
                            #[trigger] tree.nodes@[i],
                        ))
                },
                Err(e) => first_issue_forest(tree.nodes@, 0, tree.max_depth as int) matches Some(
                    o,
                ) && issue_matches(e, o),
            },
    {
        let mut book = TemplateBook::new(String::from_str(tree.title.as_str()), tree.max_depth);
        let ghost start = book@;
        let n = tree.nodes.len();
        let mut i: usize = 0;
        while i < n
            invariant
                book@.wf(),
                n == tree.nodes@.len(),
                i <= n,
                book@.title == tree.title@,
                book@.max_depth == tree.max_depth,
                start.roots.len() == 0,
                book_extends(start, book@, None),
                book@.roots.len() == i,
                forall|j: int|
                    0 <= j < i ==> imported_node_matches(
                        book@,
                        book@.roots[j],
                        #[trigger] tree.nodes@[j],
                    ),
                forall|j: int|
                    0 <= j < i ==> first_issue_node(
                        #[trigger] tree.nodes@[j],
                        0,
                        tree.max_depth as int,
                    ) is None,
            decreases n - i,
        {
            let ghost prev = book@;
            let res = Self::import_tree_node(&mut book, None, &tree.nodes[i], 0);
            match res {
                Ok(_) => {
                    proof {
                        let cid = choose|cid: NodeId|
                            {
                                &&& #[trigger] imported_node_matches(book@, cid, tree.nodes@[i as int])
                                &&& !prev.has(cid)
                                &&& book@.depths[cid] == 1
                                &&& book@.roots == prev.roots.push(cid)
                            };
                        lemma_extends_trans(start, prev, book@, None);
                        assert forall|j: int| 0 <= j < i implies imported_node_matches(
                            book@,
                            book@.roots[j],
                            #[trigger] tree.nodes@[j],
                        ) by {
                            let c = prev.roots[j];
                            assert(book@.roots[j] == c);
                            assert(imported_node_matches(prev, c, tree.nodes@[j]));
                            assert(prev.has(c));
                            assert forall|k: NodeId|
                                prev.has(k) && prev.is_under(k, c) implies book@.has(k)
                                && book@.nodes[k] == prev.nodes[k] by {}
                            lemma_import_match_frame(prev, book@, c, tree.nodes@[j]);
                        }
                    }
                },
                Err(e) => {
                    proof {
                        lemma_first_issue_skip(tree.nodes@, i as int, 0, tree.max_depth as int);
                        assert(tree.nodes@.skip(i as int)[0] == tree.nodes@[i as int]);
                        assert(tree.nodes@.skip(i as int).drop_first() =~= tree.nodes@.skip(
                            i as int + 1,
                        ));
                    }
                    return Err(e);
                },
            }
            i = i + 1;
        }
        proof {
            assert(tree.nodes@.skip(n as int) =~= Seq::<EjectTreeNode>::empty());
            lemma_first_issue_skip(tree.nodes@, n as int, 0, tree.max_depth as int);
        }
        Ok(book)
    }
}

/// The default export filename: for a whole-aggregate export the sanitized
/// title, for a subtree export the subtree's positional label, an
/// underscore and its sanitized title; plus the format's extension.
pub open spec fn default_filename(
    v: BookView,
    subtree_root: Option<NodeId>,
    format: EjectFormat,
) -> Seq<char> {
    let ext = match format {
        EjectFormat::Markdown => "md"@,
        EjectFormat::Json => "json"@,
    };
    match subtree_root {
        Some(root) => {
            let hier = match crate::numbering::lookup_label(
                crate::numbering::toc_labels(v),
                root,
            ) {
                Some(l) => l,
                None => "0"@,
            };
            let stem = if v.has(root) {
                crate::textutil::sanitized(v.nodes[root].title)
            } else {
                "unknown"@
            };
            hier + seq!['_'] + stem + seq!['.'] + ext
        },
        None => crate::textutil::sanitized(v.title) + seq!['.'] + ext,
    }
}

/// Derive the default export filename for a checklist export.
pub fn export_filename(
    book: &TemplateBook,
    subtree_root: Option<NodeId>,
    format: &EjectFormat,
) -> (r: String)
    requires
        book@.wf(),
    ensures
        r@ == default_filename(book@, subtree_root, *format),
{
    let ghost v = book@;
    let ext: &str = match format {
        EjectFormat::Markdown => "md",
        EjectFormat::Json => "json",
    };
    match subtree_root {
        Some(root) => {
            let mut out = match crate::numbering::find_hierarchical_id(book, root) {
                Some(l) => l,
                None => String::from_str("0"),
            };
            crate::textutil::push_char(&mut out, '_');
            let stem = match book.get_node(root) {
                Some(node) => crate::textutil::sanitize_for_filename(node.title()),
                None => String::from_str("unknown"),
            };
            out.append(stem.as_str());
            crate::textutil::push_char(&mut out, '.');
            out.append(ext);
            proof {
                assert(out@ =~= default_filename(v, subtree_root, *format));
            }
            out
        },
        None => {
            let mut out = crate::textutil::sanitize_for_filename(book.title());
            crate::textutil::push_char(&mut out, '.');
            out.append(ext);
            proof {
                assert(out@ =~= default_filename(v, subtree_root, *format));
            }
            out
        },
    }
}

} // verus!
