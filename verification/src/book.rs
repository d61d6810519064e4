//! The tree aggregate: owns every node, enforces the structural invariants,
//! and is the only component that mutates nodes.

use std::collections::HashMap;

use vstd::prelude::*;
use vstd::seq_lib::group_seq_properties;

use crate::errors::{BookId, DomainError, NodeId};
use crate::ids::random_id_bits;
use crate::node::{NodeType, NodeView, TemplateNode};

verus! {

broadcast use
    vstd::std_specs::hash::group_hash_axioms,
    group_seq_properties,
    vstd::prelude::Seq::lemma_to_set_insert_commutes;

/// Request to insert one node. `position` is the 0-based slot among the new
/// siblings; any value at or beyond the current sibling count appends at the
/// end (`usize::MAX` is the conventional "append" sentinel).
pub struct AddNodeRequest {
    pub parent: Option<NodeId>,
    pub title: String,
    pub node_type: NodeType,
    pub body: Option<String>,
    pub placeholder: Option<String>,
    pub position: usize,
}

/// Mathematical image of an aggregate.
pub struct BookView {
    pub id: BookId,
    pub title: Seq<char>,
    pub max_depth: u8,
    pub nodes: Map<NodeId, NodeView>,
    pub roots: Seq<NodeId>,
    /// Depth of every node (a root has depth 1, a child its parent's depth
    /// plus one). Keeping the depths in the model both specifies `depth_of`
    /// and witnesses that the graph is a forest: a node among its own proper
    /// ancestors would force `d == d + k` with `k > 0`.
    pub depths: Map<NodeId, nat>,
}

impl BookView {
    pub open spec fn has(self, id: NodeId) -> bool {
        self.nodes.dom().contains(id)
    }

    pub open spec fn depth(self, id: NodeId) -> nat {
        self.depths[id]
    }

    /// The child `c` is correctly linked back to its parent `k`.
    pub open spec fn child_ok(self, k: NodeId, c: NodeId) -> bool {
        &&& self.has(c)
        &&& self.nodes[c].parent == Some(k)
    }

    /// Consistency of one node with its surroundings; see `wf`.
    pub open spec fn node_ok(self, k: NodeId) -> bool {
        let n = self.nodes[k];
        &&& n.id == k
        &&& n.children.no_duplicates()
        &&& (forall|i: int|
            0 <= i < n.children.len() ==> self.child_ok(k, #[trigger] n.children[i]))
        &&& 1 <= self.depths[k] <= self.max_depth as nat
        &&& match n.parent {
            None => self.roots.contains(k) && self.depths[k] == 1,
            Some(p) => {
                &&& self.has(p)
                &&& self.nodes[p].children.contains(k)
                &&& self.depths[k] == self.depths[p] + 1
            },
        }
    }

    /// Structural invariant of the aggregate: parent and child references
    /// agree, the root list holds exactly the parentless nodes, every depth
    /// is within the configured maximum, and the graph is a forest.
    pub open spec fn wf(self) -> bool {
        &&& self.nodes.dom().finite()
        &&& self.depths.dom() == self.nodes.dom()
        &&& (forall|k: NodeId| #[trigger] self.nodes.dom().contains(k) ==> self.node_ok(k))
        &&& self.roots.no_duplicates()
        &&& (forall|i: int|
            0 <= i < self.roots.len() ==> self.root_ok(#[trigger] self.roots[i]))
    }

    /// The root-list entry `r` is a parentless node of the aggregate.
    pub open spec fn root_ok(self, r: NodeId) -> bool {
        &&& self.has(r)
        &&& self.nodes[r].parent is None
    }

    /// The depth a node inserted under `parent` would get.
    pub open spec fn depth_under(self, parent: Option<NodeId>) -> nat {
        match parent {
            Some(p) => self.depths[p] + 1,
            None => 1,
        }
    }

    /// Re-attaching the subtree of `id` under `new_parent` keeps every node
    /// of that subtree within the configured maximum depth.
    pub open spec fn move_depth_ok(self, id: NodeId, new_parent: Option<NodeId>) -> bool {
        forall|x: NodeId|
            self.has(x) && #[trigger] self.is_under(x, id) ==> self.depths[x] + self.depth_under(
                new_parent,
            ) <= self.max_depth as nat + self.depths[id]
    }

    /// `r` is `x` itself or one of `x`'s ancestors: the parent chain from `x`
    /// reaches `r`. Equivalently, `x` lies in the subtree rooted at `r`.
    /// The depth guard keeps the recursion well-founded on arbitrary views;
    /// under `wf` it always holds.
    pub open spec fn is_under(self, x: NodeId, r: NodeId) -> bool
        decreases self.depths[x],
    {
        if x == r {
            true
        } else if self.has(x) {
            match self.nodes[x].parent {
                None => false,
                Some(p) => if self.depths[p] < self.depths[x] {
                    self.is_under(p, r)
                } else {
                    false
                },
            }
        } else {
            false
        }
    }

    /// The nodes of the subtree rooted at `id`, including `id`.
    pub open spec fn subtree_set(self, id: NodeId) -> Set<NodeId> {
        Set::new(|x: NodeId| self.has(x) && self.is_under(x, id))
    }

    /// Bounded number of levels below a node; drives the recursion that
    /// walks a subtree top-down. Under `wf`, a child's rank is strictly
    /// smaller than its parent's.
    pub open spec fn rank(self, id: NodeId) -> nat {
        if self.depths.dom().contains(id) && 1 <= self.depths[id] <= self.max_depth as nat {
            (self.max_depth as nat - self.depths[id]) as nat
        } else {
            0
        }
    }

    /// Depth-first enumeration of the subtree rooted at `id`: the node, then
    /// each child's subtree in child-list order.
    pub open spec fn subtree_ids(self, id: NodeId) -> Seq<NodeId>
        decreases self.rank(id) + 1, 0nat,
    {
        if self.has(id) {
            seq![id] + self.forest_ids(self.nodes[id].children, self.rank(id))
        } else {
            Seq::empty()
        }
    }

    /// Depth-first enumeration of a list of subtrees. The rank bound `r`
    /// keeps the recursion well-founded; under `wf` the guard always passes.
    pub open spec fn forest_ids(self, ids: Seq<NodeId>, r: nat) -> Seq<NodeId>
        decreases r, ids.len(),
    {
        if ids.len() == 0 {
            Seq::empty()
        } else if self.rank(ids[0]) < r {
            self.subtree_ids(ids[0]) + self.forest_ids(ids.drop_first(), r)
        } else {
            self.forest_ids(ids.drop_first(), r)
        }
    }

    /// Depth-first enumeration of the whole aggregate: root-list order, then
    /// each node's children in list order.
    pub open spec fn dfs(self) -> Seq<NodeId> {
        self.forest_ids(self.roots, self.max_depth as nat + 1)
    }
}

/// A successful insertion: `post` is `pre` with exactly the fresh node `id`
/// linked in at the clamped position among its new siblings.
pub open spec fn added_ok(
    pre: BookView,
    post: BookView,
    id: NodeId,
    parent: Option<NodeId>,
    title: Seq<char>,
    node_type: NodeType,
    body: Option<Seq<char>>,
    placeholder: Option<Seq<char>>,
    position: int,
) -> bool {
    let nv = NodeView {
        id,
        parent,
        children: Seq::empty(),
        title,
        body,
        node_type,
        placeholder,
    };
    &&& !pre.has(id)
    &&& pre.depth_under(parent) <= pre.max_depth as nat
    &&& post.id == pre.id
    &&& post.title == pre.title
    &&& post.max_depth == pre.max_depth
    &&& post.depths == pre.depths.insert(id, pre.depth_under(parent))
    &&& match parent {
        None => {
            let pos = if position > pre.roots.len() {
                pre.roots.len() as int
            } else {
                position
            };
            &&& post.nodes == pre.nodes.insert(id, nv)
            &&& post.roots == pre.roots.insert(pos, id)
        },
        Some(p) => {
            let kids = pre.nodes[p].children;
            let pos = if position > kids.len() {
                kids.len() as int
            } else {
                position
            };
            &&& pre.has(p)
            &&& post.nodes == pre.nodes.insert(id, nv).insert(
                p,
                (NodeView { children: kids.insert(pos, id), ..pre.nodes[p] }),
            )
            &&& post.roots == pre.roots
        },
    }
}

/// Request to edit one node. An outer `None` leaves the field untouched; for
/// the two clearable texts, `Some(None)` clears the attribute while
/// `Some(Some(v))` replaces it — "don't touch" and "clear" are distinct.
pub struct UpdateNodeRequest {
    pub title: Option<String>,
    pub body: Option<Option<String>>,
    pub node_type: Option<NodeType>,
    pub placeholder: Option<Option<String>>,
}

/// A successful edit: `post` is `pre` with exactly the requested fields of
/// node `id` replaced; the shape of the tree is untouched.
pub open spec fn updated_ok(
    pre: BookView,
    post: BookView,
    id: NodeId,
    title: Option<Seq<char>>,
    body: Option<Option<Seq<char>>>,
    node_type: Option<NodeType>,
    placeholder: Option<Option<Seq<char>>>,
) -> bool {
    let n = pre.nodes[id];
    let n2 = NodeView {
        title: match title {
            Some(t) => t,
            None => n.title,
        },
        body: match body {
            Some(b) => b,
            None => n.body,
        },
        node_type: match node_type {
            Some(t) => t,
            None => n.node_type,
        },
        placeholder: match placeholder {
            Some(p) => p,
            None => n.placeholder,
        },
        ..n
    };
    &&& pre.has(id)
    &&& post.nodes == pre.nodes.insert(id, n2)
    &&& post.roots == pre.roots
    &&& post.depths == pre.depths
    &&& post.id == pre.id
    &&& post.title == pre.title
    &&& post.max_depth == pre.max_depth
}

/// A successful removal: `post` is `pre` with the whole subtree of `id`
/// deleted and `id` detached from its former parent or the root list.
pub open spec fn removed_ok(pre: BookView, post: BookView, id: NodeId) -> bool {
    let sub = pre.subtree_set(id);
    &&& pre.has(id)
    &&& post.nodes.dom() == pre.nodes.dom().difference(sub)
    &&& post.depths == pre.depths.remove_keys(sub)
    &&& match pre.nodes[id].parent {
        None => {
            &&& post.roots == pre.roots.remove_value(id)
            &&& (forall|k: NodeId|
                #[trigger] post.nodes.dom().contains(k) ==> post.nodes[k] == pre.nodes[k])
        },
        Some(op) => {
            &&& post.roots == pre.roots
            &&& post.nodes[op] == (NodeView {
                children: pre.nodes[op].children.remove_value(id),
                ..pre.nodes[op]
            })
            &&& (forall|k: NodeId|
                #[trigger] post.nodes.dom().contains(k) && k != op ==> post.nodes[k]
                    == pre.nodes[k])
        },
    }
    &&& post.id == pre.id
    &&& post.title == pre.title
    &&& post.max_depth == pre.max_depth
}

/// The node map and root list after `id` has been unhooked from its former
/// parent's child list or from the root list. The node itself still sits in
/// the map, still carrying its old parent reference.
pub open spec fn detached(pre: BookView, id: NodeId) -> (Map<NodeId, NodeView>, Seq<NodeId>) {
    match pre.nodes[id].parent {
        Some(op) => (
            pre.nodes.insert(
                op,
                (NodeView { children: pre.nodes[op].children.remove_value(id), ..pre.nodes[op] }),
            ),
            pre.roots,
        ),
        None => (pre.nodes, pre.roots.remove_value(id)),
    }
}

/// A successful move: `post` is `pre` with the subtree of `id` unhooked and
/// re-attached under `new_parent` (or the root list) at the clamped position;
/// every node of that subtree is deeper or shallower by the same amount.
pub open spec fn moved_ok(
    pre: BookView,
    post: BookView,
    id: NodeId,
    new_parent: Option<NodeId>,
    position: int,
) -> bool {
    let mid_nodes = detached(pre, id).0;
    let mid_roots = detached(pre, id).1;
    let moved = NodeView { parent: new_parent, ..pre.nodes[id] };
    &&& pre.has(id)
    &&& (new_parent matches Some(np) ==> pre.has(np) && !pre.is_under(np, id))
    &&& pre.move_depth_ok(id, new_parent)
    &&& post.depths == Map::new(
        |x: NodeId| pre.depths.dom().contains(x),
        |x: NodeId|
            if pre.has(x) && pre.is_under(x, id) {
                ((pre.depths[x] + pre.depth_under(new_parent)) - pre.depths[id]) as nat
            } else {
                pre.depths[x]
            },
    )
    &&& match new_parent {
        Some(np) => {
            let kids = mid_nodes[np].children;
            let pos = if position > kids.len() {
                kids.len() as int
            } else {
                position
            };
            &&& post.nodes == mid_nodes.insert(id, moved).insert(
                np,
                (NodeView { children: kids.insert(pos, id), ..mid_nodes[np] }),
            )
            &&& post.roots == mid_roots
        },
        None => {
            let pos = if position > mid_roots.len() {
                mid_roots.len() as int
            } else {
                position
            };
            &&& post.nodes == mid_nodes.insert(id, moved)
            &&& post.roots == mid_roots.insert(pos, id)
        },
    }
    &&& post.id == pre.id
    &&& post.title == pre.title
    &&& post.max_depth == pre.max_depth
}

/// The full contract of `move_node`: which result comes back on which
/// input, and how the tree changed on success.
pub open spec fn move_contract(
    pre: BookView,
    post: BookView,
    id: NodeId,
    new_parent: Option<NodeId>,
    position: int,
    r: Result<(), DomainError>,
) -> bool {
    &&& post.wf()
    &&& match r {
        Ok(_) => moved_ok(pre, post, id, new_parent, position),
        Err(e) => post == pre && match e {
            DomainError::NodeNotFound(x) => (x == id && !pre.has(id)) || (pre.has(id)
                && new_parent == Some(x) && !pre.has(x)),
            DomainError::CyclicMove(x) => {
                &&& x == id
                &&& pre.has(id)
                &&& (new_parent matches Some(np) && pre.has(np) && pre.is_under(np, id))
            },
            DomainError::MaxDepthExceeded { node_id, max } => {
                &&& node_id == id
                &&& max == pre.max_depth
                &&& pre.has(id)
                &&& (new_parent matches Some(np) ==> pre.has(np) && !pre.is_under(np, id))
                &&& !pre.move_depth_ok(id, new_parent)
            },
        },
    }
    &&& (r is Ok <==> (pre.has(id) && (match new_parent {
        Some(np) => pre.has(np) && !pre.is_under(np, id),
        None => true,
    }) && pre.move_depth_ok(id, new_parent)))
}

/// Inserting a fresh value into a duplicate-free sequence keeps it
/// duplicate-free and grows its membership by exactly that value.
pub(crate) proof fn lemma_insert_seq(s: Seq<NodeId>, pos: int, v: NodeId)
    requires
        0 <= pos <= s.len(),
        s.no_duplicates(),
        !s.contains(v),
    ensures
        s.insert(pos, v).no_duplicates(),
        s.insert(pos, v).len() == s.len() + 1,
        forall|x: NodeId| #[trigger] s.insert(pos, v).contains(x) <==> s.contains(x) || x == v,
{
    let t = s.insert(pos, v);
    s.insert_ensures(pos, v);
    assert forall|x: NodeId| #[trigger] t.contains(x) implies s.contains(x) || x == v by {
        let i = choose|i: int| 0 <= i < t.len() && t[i] == x;
        if i < pos {
            assert(s[i] == x);
        } else if i > pos {
            assert(s[i - 1] == x);
        }
    }
    assert forall|x: NodeId| s.contains(x) || x == v implies #[trigger] t.contains(x) by {
        if x == v {
            assert(t[pos] == x);
        } else {
            let i = choose|i: int| 0 <= i < s.len() && s[i] == x;
            if i < pos {
                assert(t[i] == x);
            } else {
                assert(t[i + 1] == x);
            }
        }
    }
    assert forall|i: int, j: int| 0 <= i < j < t.len() implies t[i] != t[j] by {
        let si = if i < pos { s[i] } else if i == pos { v } else { s[i - 1] };
        let sj = if j < pos { s[j] } else if j == pos { v } else { s[j - 1] };
        assert(t[i] == si);
        assert(t[j] == sj);
        if i != pos && j != pos {
            let ii = if i < pos { i } else { i - 1 };
            let jj = if j < pos { j } else { j - 1 };
            assert(s[ii] == si && s[jj] == sj && ii != jj);
        } else if i == pos {
            assert(sj == s[j - 1] && s.contains(s[j - 1]));
        } else {
            assert(si == s[i] && s.contains(s[i]));
        }
    }
}

/// The set of 128-bit values below `b` has exactly `b` elements.
pub(crate) proof fn lemma_u128_below_card(b: u128)
    ensures
        Set::new(|x: u128| x < b).finite(),
        Set::new(|x: u128| x < b).len() == b,
    decreases b,
{
    if b == 0 {
        assert(Set::new(|x: u128| x < 0u128) =~= Set::<u128>::empty());
    } else {
        lemma_u128_below_card((b - 1) as u128);
        assert(Set::new(|x: u128| x < b) =~= Set::new(|x: u128| x < (b - 1) as u128).insert(
            (b - 1) as u128,
        ));
    }
}

/// The tree aggregate. All structural state lives here; nodes are reachable
/// only through it, so the invariant `self@.wf()` is established by the
/// constructor and preserved by every operation.
pub struct TemplateBook {
    id: BookId,
    title: String,
    max_depth: u8,
    nodes: HashMap<NodeId, TemplateNode>,
    root_nodes: Vec<NodeId>,
    depths: Ghost<Map<NodeId, nat>>,
}

impl View for TemplateBook {
    type V = BookView;

    closed spec fn view(&self) -> BookView {
        BookView {
            id: self.id,
            title: self.title@,
            max_depth: self.max_depth,
            nodes: Map::new(
                |k: NodeId| self.nodes@.dom().contains(k),
                |k: NodeId| self.nodes@[k]@,
            ),
            roots: self.root_nodes@,
            depths: self.depths@,
        }
    }
}

impl TemplateBook {
    /// A fresh, empty aggregate with the given title and depth limit.
    pub fn new(title: String, max_depth: u8) -> (r: TemplateBook)
        ensures
            r@.wf(),
            r@.title == title@,
            r@.max_depth == max_depth,
            r@.nodes == Map::<NodeId, NodeView>::empty(),
            r@.roots == Seq::<NodeId>::empty(),
            r@.depths == Map::<NodeId, nat>::empty(),
    {
        let r = TemplateBook {
            id: random_id_bits(),
            title,
            max_depth,
            nodes: HashMap::new(),
            root_nodes: Vec::new(),
            depths: Ghost(Map::empty()),
        };
        proof {
            assert(r@.nodes =~= Map::<NodeId, NodeView>::empty());
            assert(r@.depths.dom() =~= r@.nodes.dom());
        }
        r
    }

    pub fn id(&self) -> (r: BookId)
        ensures
            r == self@.id,
    {
        self.id
    }

    pub fn title(&self) -> (r: &str)
        ensures
            r@ == self@.title,
    {
        self.title.as_str()
    }

    pub fn max_depth(&self) -> (r: u8)
        ensures
            r == self@.max_depth,
    {
        self.max_depth
    }

    pub fn root_nodes(&self) -> (r: &[NodeId])
        ensures
            r@ == self@.roots,
    {
        self.root_nodes.as_slice()
    }

    pub fn get_node(&self, id: NodeId) -> (r: Option<&TemplateNode>)
        ensures
            match r {
                Some(n) => self@.has(id) && n@ == self@.nodes[id],
                None => !self@.has(id),
            },
    {
        self.nodes.get(&id)
    }

    pub fn node_count(&self) -> (r: usize)
        ensures
            r == self@.nodes.dom().len(),
    {
        proof {
            assert(self@.nodes.dom() =~= self.nodes@.dom());
        }
        self.nodes.len()
    }

    /// An identifier that is certainly unused: a random draw, falling back to
    /// the smallest unused value in the astronomically unlikely collision.
    fn fresh_id(&self) -> (r: NodeId)
        ensures
            !self@.has(r),
    {
        let cand = random_id_bits();
        if !self.nodes.contains_key(&cand) {
            return cand;
        }
        let n = self.nodes.len();
        let mut i: u128 = 0;
        while i <= n as u128
            invariant
                i <= n as u128 + 1,
                n == self.nodes@.dom().len(),
                forall|j: u128| j < i ==> self.nodes@.dom().contains(j),
            decreases n as u128 + 1 - i,
        {
            if !self.nodes.contains_key(&i) {
                return i;
            }
            i = i + 1;
        }
        proof {
            let below = Set::new(|x: u128| x < i);
            lemma_u128_below_card(i);
            assert(below.subset_of(self.nodes@.dom()));
            vstd::set_lib::lemma_len_subset(below, self.nodes@.dom());
            assert(false);
        }
        0
    }

    /// Depth of a node: 1 for a root, one more than its parent otherwise.
    /// Nodes absent from the aggregate report depth 1.
    pub fn depth_of(&self, id: NodeId) -> (r: u8)
        requires
            self@.wf(),
        ensures
            self@.has(id) ==> r as nat == self@.depths[id],
            !self@.has(id) ==> r == 1,
            1 <= r,
    {
        let mut depth: u8 = 1;
        let mut current: NodeId = id;
        loop
            invariant
                self@.wf(),
                1 <= depth,
                self@.has(id) ==> {
                    &&& self@.has(current)
                    &&& self@.depths[id] == self@.depths[current] + depth - 1
                },
                !self@.has(id) ==> current == id && depth == 1,
            decreases (if self@.depths.dom().contains(current) {
                self@.depths[current]
            } else {
                0nat
            }),
        {
            let step = match self.nodes.get(&current) {
                Some(node) => node.parent(),
                None => None,
            };
            match step {
                Some(parent) => {
                    depth = depth + 1;
                    current = parent;
                },
                None => {
                    return depth;
                },
            }
        }
    }

    /// Insert a new node. Validation (parent exists, depth fits) happens
    /// before any mutation; on failure the aggregate is unchanged.
    pub fn add_node(&mut self, req: AddNodeRequest) -> (r: Result<NodeId, DomainError>)
        requires
            old(self)@.wf(),
        ensures
            final(self)@.wf(),
            match r {
                Ok(id) => added_ok(
                    old(self)@,
                    final(self)@,
                    id,
                    req.parent,
                    req.title@,
                    req.node_type,
                    req.body.deep_view(),
                    req.placeholder.deep_view(),
                    req.position as int,
                ),
                Err(e) => final(self)@ == old(self)@ && match e {
                    DomainError::NodeNotFound(p) => req.parent == Some(p) && !old(self)@.has(p),
                    DomainError::MaxDepthExceeded { node_id: _, max } => {
                        &&& max == old(self)@.max_depth
                        &&& (req.parent matches Some(p) ==> old(self)@.has(p))
                        &&& old(self)@.depth_under(req.parent) > old(self)@.max_depth as nat
                    },
                    DomainError::CyclicMove(_) => false,
                },
            },
            r is Ok <==> (match req.parent {
                Some(p) => old(self)@.has(p) && old(self)@.depths[p] + 1
                    <= old(self)@.max_depth as nat,
                None => old(self)@.max_depth >= 1,
            }),
            (match r {
                Ok(id) => req.position == usize::MAX ==> (match req.parent {
                    Some(p) => final(self)@.nodes[p].children == old(
                        self,
                    )@.nodes[p].children.push(id),
                    None => final(self)@.roots == old(self)@.roots.push(id),
                }),
                Err(_) => true,
            }),
    {
        if let Some(pid) = req.parent {
            if !self.nodes.contains_key(&pid) {
                return Err(DomainError::NodeNotFound(pid));
            }
        }
        let node_id = self.fresh_id();
        match req.parent {
            Some(pid) => {
                let pd = self.depth_of(pid);
                if pd >= self.max_depth {
                    return Err(DomainError::MaxDepthExceeded { node_id, max: self.max_depth });
                }
            },
            None => {
                if self.max_depth < 1 {
                    return Err(DomainError::MaxDepthExceeded { node_id, max: self.max_depth });
                }
            },
        }
        let ghost pre = self@;
        let ghost new_depth = pre.depth_under(req.parent);

        let mut node = TemplateNode::new(node_id, req.parent, req.title, req.node_type);
        node.set_body(req.body);
        node.set_placeholder(req.placeholder);
        let ghost nv = node@;
        self.nodes.insert(node_id, node);
        self.depths = Ghost(self.depths@.insert(node_id, new_depth));
        proof {
            assert(self@.nodes =~= pre.nodes.insert(node_id, nv));
        }
        match req.parent {
            Some(pid) => {
                proof {
                    assert(pre.has(pid));
                    assert(pid != node_id);
                    assert(self@.nodes[pid] == pre.nodes[pid]);
                }
                let mut pnode = self.nodes.remove(&pid).unwrap();
                proof {
                    assert(pnode@ == pre.nodes[pid]);
                }
                let plen = pnode.children_len();
                let ghost pos: int = if req.position as int > pnode@.children.len() {
                    pnode@.children.len() as int
                } else {
                    req.position as int
                };
                proof {
                    assert(plen == pnode@.children.len());
                    if req.position == usize::MAX {
                        assert(pos == pnode@.children.len());
                        assert(pnode@.children.insert(pos, node_id) =~= pnode@.children.push(
                            node_id,
                        ));
                    }
                }
                pnode.add_child(node_id, req.position);
                let ghost pv = pnode@;
                self.nodes.insert(pid, pnode);
                proof {
                    assert(pv == (NodeView {
                        children: pre.nodes[pid].children.insert(pos, node_id),
                        ..pre.nodes[pid]
                    }));
                    assert(self@.nodes =~= pre.nodes.insert(node_id, nv).insert(pid, pv));
                    assert(self@.roots == pre.roots);
                    self.lemma_added_wf(pre, node_id, nv, req.parent, pos);
                }
            },
            None => {
                let len = self.root_nodes.len();
                let pos = if req.position < len {
                    req.position
                } else {
                    len
                };
                self.root_nodes.insert(pos, node_id);
                proof {
                    assert(self@.nodes =~= pre.nodes.insert(node_id, nv));
                    assert(self@.roots == pre.roots.insert(pos as int, node_id));
                    if req.position == usize::MAX {
                        assert(pos == len);
                        assert(pre.roots.insert(pos as int, node_id) =~= pre.roots.push(node_id));
                    }
                    self.lemma_added_wf(pre, node_id, nv, req.parent, pos as int);
                }
            },
        }
        Ok(node_id)
    }

    /// Edit one node's title, body, type or placeholder. The tree's shape is
    /// never touched; an absent node is the only failure.
    pub fn update_node(&mut self, id: NodeId, req: UpdateNodeRequest) -> (r: Result<
        (),
        DomainError,
    >)
        requires
            old(self)@.wf(),
        ensures
            final(self)@.wf(),
            r is Ok <==> old(self)@.has(id),
            match r {
                Ok(_) => updated_ok(
                    old(self)@,
                    final(self)@,
                    id,
                    req.title.deep_view(),
                    req.body.deep_view(),
                    req.node_type,
                    req.placeholder.deep_view(),
                ),
                Err(e) => final(self)@ == old(self)@ && e == DomainError::NodeNotFound(id),
            },
    {
        if !self.nodes.contains_key(&id) {
            return Err(DomainError::NodeNotFound(id));
        }
        let ghost pre = self@;
        let mut node = self.nodes.remove(&id).unwrap();
        proof {
            assert(node@ == pre.nodes[id]);
        }
        if let Some(title) = req.title {
            node.set_title(title);
        }
        if let Some(body) = req.body {
            node.set_body(body);
        }
        if let Some(node_type) = req.node_type {
            node.set_node_type(node_type);
        }
        if let Some(placeholder) = req.placeholder {
            node.set_placeholder(placeholder);
        }
        let ghost nv = node@;
        self.nodes.insert(id, node);
        proof {
            assert(self@.nodes =~= pre.nodes.insert(id, nv));
            assert(self@.depths =~= pre.depths);
            self.lemma_updated_wf(pre, id, nv);
        }
        Ok(())
    }

    /// An edit that changes no structural field preserves the invariant.
    proof fn lemma_updated_wf(&self, pre: BookView, id: NodeId, nv: NodeView)
        requires
            pre.wf(),
            pre.has(id),
            nv.id == pre.nodes[id].id,
            nv.parent == pre.nodes[id].parent,
            nv.children == pre.nodes[id].children,
            self@.nodes == pre.nodes.insert(id, nv),
            self@.roots == pre.roots,
            self@.depths == pre.depths,
            self@.max_depth == pre.max_depth,
        ensures
            self@.wf(),
    {
        let post = self@;
        assert(post.depths.dom() =~= post.nodes.dom());
        assert forall|k: NodeId| #[trigger] post.nodes.dom().contains(k) implies post.node_ok(
            k,
        ) by {
            assert(pre.node_ok(k));
            assert forall|i: int| 0 <= i < post.nodes[k].children.len() implies post.child_ok(
                k,
                #[trigger] post.nodes[k].children[i],
            ) by {
                assert(pre.child_ok(k, pre.nodes[k].children[i]));
            }
        }
    }

    /// True when `ancestor` is a proper ancestor of `node`: the parent chain
    /// from `node` passes through `ancestor` in at least one step.
    pub fn is_descendant_of(&self, node: NodeId, ancestor: NodeId) -> (r: bool)
        requires
            self@.wf(),
            self@.has(node),
        ensures
            r == (node != ancestor && self@.is_under(node, ancestor)),
    {
        let mut current: NodeId = node;
        loop
            invariant
                self@.wf(),
                self@.has(current),
                (node != ancestor && self@.is_under(node, ancestor)) == (current != ancestor
                    && self@.is_under(current, ancestor)),
            decreases self@.depths[current],
        {
            proof {
                assert(self@.node_ok(current));
            }
            let step = match self.nodes.get(&current) {
                Some(n) => n.parent(),
                None => None,
            };
            match step {
                Some(parent) => {
                    proof {
                        if current == ancestor {
                            if self@.is_under(parent, ancestor) {
                                crate::tree::lemma_is_under_depth(self@, parent, ancestor);
                            }
                        } else if parent == ancestor {
                            assert(self@.is_under(ancestor, ancestor));
                            assert(self@.is_under(current, ancestor));
                        }
                    }
                    if parent == ancestor {
                        return true;
                    }
                    current = parent;
                },
                None => {
                    return false;
                },
            }
        }
    }

    /// Append the depth-first enumeration of `id`'s subtree to `out`.
    fn subtree_ids_vec(&self, id: NodeId, out: &mut Vec<NodeId>)
        requires
            self@.wf(),
        ensures
            final(out)@ == old(out)@ + self@.subtree_ids(id),
        decreases self@.rank(id) + 1, 0nat,
    {
        let node = match self.nodes.get(&id) {
            Some(n) => n,
            None => {
                proof {
                    assert(old(out)@ + self@.subtree_ids(id) =~= old(out)@);
                }
                return ;
            },
        };
        out.push(id);
        let ghost kids = node@.children;
        let ghost r = self@.rank(id);
        proof {
            assert(self@.node_ok(id));
            assert(old(out)@.push(id) =~= old(out)@ + seq![id]);
        }
        let n = node.children_len();
        let mut i: usize = 0;
        while i < n
            invariant
                self@.wf(),
                self@.has(id),
                n == kids.len(),
                kids == self@.nodes[id].children,
                r == self@.rank(id),
                i <= n,
                out@ == old(out)@ + seq![id] + self@.forest_ids(kids.take(i as int), r),
            decreases n - i,
        {
            let child = *self.child_at(id, i);
            proof {
                assert(self@.child_ok(id, kids[i as int]));
                assert(self@.node_ok(kids[i as int]));
                assert(self@.rank(child) < r);
                crate::tree::lemma_forest_concat(
                    self@,
                    kids.take(i as int),
                    seq![child],
                    r,
                );
                crate::tree::lemma_forest_single(self@, child, r);
                assert(kids.take(i as int + 1) =~= kids.take(i as int) + seq![child]);
            }
            self.subtree_ids_vec(child, out);
            i = i + 1;
        }
        proof {
            assert(kids.take(n as int) =~= kids);
        }
    }

    /// The `i`-th child of the node `id`, which must exist.
    pub(crate) fn child_at(&self, id: NodeId, i: usize) -> (r: &NodeId)
        requires
            self@.has(id),
            i < self@.nodes[id].children.len(),
        ensures
            *r == self@.nodes[id].children[i as int],
    {
        match self.nodes.get(&id) {
            Some(n) => n.child(i),
            None => &0,
        }
    }

    /// The depth-first order of all identifiers: root-list order, children
    /// in list order. Visits every node of the aggregate exactly once.
    fn dfs_ids(&self) -> (r: Vec<NodeId>)
        requires
            self@.wf(),
        ensures
            r@ == self@.dfs(),
    {
        let ghost rk = self@.max_depth as nat + 1;
        let mut out: Vec<NodeId> = Vec::new();
        let n = self.root_nodes.len();
        let mut i: usize = 0;
        while i < n
            invariant
                self@.wf(),
                n == self@.roots.len(),
                i <= n,
                out@ == self@.forest_ids(self@.roots.take(i as int), rk),
                rk == self@.max_depth as nat + 1,
            decreases n - i,
        {
            let root = self.root_nodes[i];
            proof {
                assert(self@.root_ok(self@.roots[i as int]));
                assert(self@.node_ok(root));
                assert(self@.rank(root) < rk);
                crate::tree::lemma_forest_concat(
                    self@,
                    self@.roots.take(i as int),
                    seq![root],
                    rk,
                );
                crate::tree::lemma_forest_single(self@, root, rk);
                assert(self@.roots.take(i as int + 1) =~= self@.roots.take(i as int) + seq![
                    root,
                ]);
            }
            self.subtree_ids_vec(root, &mut out);
            i = i + 1;
        }
        proof {
            assert(self@.roots.take(n as int) =~= self@.roots);
        }
        out
    }

    /// All identifiers of the aggregate, in depth-first order.
    pub fn all_node_ids(&self) -> (r: Vec<NodeId>)
        requires
            self@.wf(),
        ensures
            r@ == self@.dfs(),
            r@.no_duplicates(),
            forall|x: NodeId| #[trigger] r@.contains(x) <==> self@.has(x),
            r@.len() == self@.nodes.dom().len(),
    {
        proof {
            crate::tree::lemma_dfs_props(self@);
        }
        self.dfs_ids()
    }

    /// All nodes in depth-first order: roots in list order, each followed by
    /// its subtree. Yields exactly `node_count()` nodes.
    pub fn all_nodes_dfs(&self) -> (r: Vec<&TemplateNode>)
        requires
            self@.wf(),
        ensures
            r@.len() == self@.dfs().len(),
            r@.len() == self@.nodes.dom().len(),
            forall|i: int|
                0 <= i < r@.len() ==> self@.has(#[trigger] self@.dfs()[i]) && r@[i]@
                    == self@.nodes[self@.dfs()[i]],
    {
        proof {
            crate::tree::lemma_dfs_props(self@);
        }
        let ids = self.dfs_ids();
        proof {
            assert forall|i: int| 0 <= i < ids@.len() implies self@.has(#[trigger] ids@[i]) by {
                assert(ids@.contains(ids@[i]));
            }
        }
        self.nodes_of(&ids)
    }

    /// The nodes of the subtree rooted at `root`, in depth-first order,
    /// `root` first. Empty when `root` is absent.
    pub fn subtree_nodes(&self, root: NodeId) -> (r: Vec<&TemplateNode>)
        requires
            self@.wf(),
        ensures
            r@.len() == self@.subtree_ids(root).len(),
            forall|i: int|
                0 <= i < r@.len() ==> self@.has(#[trigger] self@.subtree_ids(root)[i]) && r@[i]@
                    == self@.nodes[self@.subtree_ids(root)[i]],
    {
        let mut ids: Vec<NodeId> = Vec::new();
        self.subtree_ids_vec(root, &mut ids);
        proof {
            if self@.has(root) {
                crate::tree::lemma_subtree_props(self@, root);
                assert forall|i: int| 0 <= i < ids@.len() implies self@.has(
                    #[trigger] ids@[i],
                ) by {
                    assert(ids@.contains(ids@[i]));
                }
            }
        }
        self.nodes_of(&ids)
    }

    /// Look up each identifier, which must all be present.
    fn nodes_of(&self, ids: &Vec<NodeId>) -> (r: Vec<&TemplateNode>)
        requires
            forall|i: int| 0 <= i < ids@.len() ==> self@.has(#[trigger] ids@[i]),
        ensures
            r@.len() == ids@.len(),
            forall|i: int| 0 <= i < r@.len() ==> r@[i]@ == self@.nodes[ids@[i]],
    {
        let mut result: Vec<&TemplateNode> = Vec::new();
        let n = ids.len();
        let mut i: usize = 0;
        while i < n
            invariant
                n == ids@.len(),
                i <= n,
                result@.len() == i,
                forall|j: int| 0 <= j < i ==> result@[j]@ == self@.nodes[ids@[j]],
                forall|j: int| 0 <= j < n ==> self@.has(#[trigger] ids@[j]),
            decreases n - i,
        {
            let node = self.nodes.get(&ids[i]).unwrap();
            result.push(node);
            i = i + 1;
        }
        result
    }

    /// Remove the first occurrence of `id` from the root list; everything
    /// else is untouched.
    fn remove_root_entry(&mut self, id: NodeId)
        ensures
            final(self)@ == (BookView { roots: old(self)@.roots.remove_value(id), ..old(self)@ }),
    {
        let n = self.root_nodes.len();
        let mut i: usize = 0;
        while i < n
            invariant
                i <= n,
                n == self.root_nodes@.len(),
                *self == *old(self),
                forall|j: int| 0 <= j < i ==> self@.roots[j] != id,
            decreases n - i,
        {
            if self.root_nodes[i] == id {
                proof {
                    let roots = old(self)@.roots;
                    roots.index_of_first_ensures(id);
                    assert(roots.contains(id)) by {
                        assert(roots[i as int] == id);
                    }
                    assert(roots.index_of_first(id) == Some(i as int));
                }
                self.root_nodes.remove(i);
                return ;
            }
            i = i + 1;
        }
        proof {
            let roots = old(self)@.roots;
            roots.index_of_first_ensures(id);
            assert(!roots.contains(id));
        }
    }

    /// Delete `id` and its whole subtree, detaching it from its former
    /// parent or the root list. Validation happens before any mutation.
    pub fn remove_node(&mut self, id: NodeId) -> (r: Result<(), DomainError>)
        requires
            old(self)@.wf(),
        ensures
            final(self)@.wf(),
            r is Ok <==> old(self)@.has(id),
            match r {
                Ok(_) => removed_ok(old(self)@, final(self)@, id),
                Err(e) => final(self)@ == old(self)@ && e == DomainError::NodeNotFound(id),
            },
    {
        if !self.nodes.contains_key(&id) {
            return Err(DomainError::NodeNotFound(id));
        }
        let ghost pre = self@;
        let ghost sub = pre.subtree_set(id);
        let mut subtree: Vec<NodeId> = Vec::new();
        self.subtree_ids_vec(id, &mut subtree);
        proof {
            crate::tree::lemma_subtree_props(pre, id);
            assert(subtree@ =~= pre.subtree_ids(id));
        }
        let parent = match self.nodes.get(&id) {
            Some(n) => n.parent(),
            None => None,
        };
        match parent {
            Some(op) => {
                proof {
                    assert(pre.node_ok(id));
                }
                let mut pnode = self.nodes.remove(&op).unwrap();
                proof {
                    assert(pnode@ == pre.nodes[op]);
                }
                pnode.remove_child(id);
                let ghost pv = pnode@;
                self.nodes.insert(op, pnode);
                proof {
                    assert(self@.nodes =~= pre.nodes.insert(op, pv));
                }
            },
            None => {
                self.remove_root_entry(id);
            },
        }
        let ghost mid = self@;
        let n = subtree.len();
        let mut i: usize = 0;
        while i < n
            invariant
                i <= n,
                n == subtree@.len(),
                self@.nodes == mid.nodes.remove_keys(subtree@.take(i as int).to_set()),
                self@.roots == mid.roots,
                self@.depths == mid.depths,
                self@.id == mid.id,
                self@.title == mid.title,
                self@.max_depth == mid.max_depth,
            decreases n - i,
        {
            let ghost prev = self@.nodes;
            self.nodes.remove(&subtree[i]);
            proof {
                assert(self@.nodes =~= prev.remove(subtree@[i as int]));
                assert(subtree@.take(i as int + 1) =~= subtree@.take(i as int) + seq![
                    subtree@[i as int],
                ]);
                assert(subtree@.take(i as int + 1).to_set() =~= subtree@.take(
                    i as int,
                ).to_set().insert(subtree@[i as int]));
                assert(self@.nodes =~= mid.nodes.remove_keys(
                    subtree@.take(i as int + 1).to_set(),
                ));
            }
            i = i + 1;
        }
        self.depths = Ghost(pre.depths.remove_keys(sub));
        proof {
            assert(subtree@.take(n as int) =~= subtree@);
            assert(subtree@.to_set() =~= sub);
            self.lemma_removed_wf(pre, id);
        }
        Ok(())
    }

    /// After the deletion steps of `remove_node`, the invariant holds again
    /// and the result matches `removed_ok`.
    proof fn lemma_removed_wf(&self, pre: BookView, id: NodeId)
        requires
            pre.wf(),
            pre.has(id),
            self@.depths == pre.depths.remove_keys(pre.subtree_set(id)),
            self@.roots == (match pre.nodes[id].parent {
                None => pre.roots.remove_value(id),
                Some(_) => pre.roots,
            }),
            self@.nodes == (match pre.nodes[id].parent {
                None => pre.nodes,
                Some(op) => pre.nodes.insert(
                    op,
                    (NodeView {
                        children: pre.nodes[op].children.remove_value(id),
                        ..pre.nodes[op]
                    }),
                ),
            }).remove_keys(pre.subtree_set(id)),
            self@.id == pre.id,
            self@.title == pre.title,
            self@.max_depth == pre.max_depth,
        ensures
            self@.wf(),
            removed_ok(pre, self@, id),
    {
        let post = self@;
        let sub = pre.subtree_set(id);
        assert(pre.is_under(id, id));
        assert(post.nodes.dom() =~= pre.nodes.dom().difference(sub));
        assert(post.depths.dom() =~= post.nodes.dom());
        let op_opt = pre.nodes[id].parent;
        match op_opt {
            Some(op) => {
                assert(pre.node_ok(id));
                assert(!sub.contains(op)) by {
                    if pre.is_under(op, id) {
                        crate::tree::lemma_is_under_depth(pre, op, id);
                    }
                }
                crate::tree::lemma_remove_value_props(pre.nodes[op].children, id);
                assert(pre.node_ok(op));
            },
            None => {
                crate::tree::lemma_remove_value_props(pre.roots, id);
            },
        }
        assert forall|k: NodeId| #[trigger] post.nodes.dom().contains(k) implies post.node_ok(
            k,
        ) by {
            assert(pre.node_ok(k));
            assert(!pre.is_under(k, id));
            assert(k != id);
            assert forall|j: int| 0 <= j < post.nodes[k].children.len() implies post.child_ok(
                k,
                #[trigger] post.nodes[k].children[j],
            ) by {
                let c = post.nodes[k].children[j];
                if op_opt matches Some(op) && k == op {
                    assert(post.nodes[k].children.contains(c));
                    assert(pre.nodes[k].children.contains(c) && c != id);
                } else {
                    assert(pre.nodes[k].children.contains(c));
                }
                assert(pre.child_ok(k, c));
                assert(c != id) by {
                    if c == id {
                        assert(pre.nodes[id].parent == Some(k));
                    }
                }
                assert(!pre.is_under(c, id)) by {
                    assert(pre.node_ok(c));
                }
            }
            match pre.nodes[k].parent {
                Some(p) => {
                    assert(!pre.is_under(p, id)) by {
                        if pre.is_under(p, id) {
                            assert(pre.is_under(k, id));
                        }
                    }
                    assert(post.nodes.dom().contains(p));
                    if op_opt matches Some(op) && p == op {
                        assert(post.nodes[p].children.contains(k)) by {
                            assert(k != id);
                        }
                    }
                },
                None => {
                    if op_opt is None {
                        assert(post.roots.contains(k)) by {
                            assert(k != id);
                        }
                    }
                },
            }
        }
        assert(post.roots.no_duplicates());
        assert forall|i: int| 0 <= i < post.roots.len() implies post.root_ok(
            #[trigger] post.roots[i],
        ) by {
            let x = post.roots[i];
            assert(post.roots.contains(x));
            assert(pre.roots.contains(x));
            let jj = choose|jj: int| 0 <= jj < pre.roots.len() && pre.roots[jj] == x;
            assert(pre.root_ok(pre.roots[jj]));
            assert(pre.node_ok(x));
            assert(x != id) by {
                if op_opt is None {
                    assert(post.roots.contains(x) ==> x != id);
                } else {
                    assert(pre.nodes[id].parent is Some);
                }
            }
            assert(!pre.is_under(x, id)) by {
                if pre.is_under(x, id) {
                    crate::tree::lemma_is_under_depth(pre, x, id);
                    assert(pre.depths[x] == 1);
                    assert(pre.node_ok(id));
                }
            }
        }
    }

    /// The deepest depth reached inside the subtree of `root` (at least the
    /// depth of `root` itself).
    fn subtree_max_depth(&self, root: NodeId) -> (r: u8)
        requires
            self@.wf(),
            self@.has(root),
        ensures
            forall|x: NodeId|
                self@.has(x) && #[trigger] self@.is_under(x, root) ==> self@.depths[x]
                    <= r as nat,
            exists|x: NodeId|
                self@.has(x) && #[trigger] self@.is_under(x, root) && self@.depths[x] == r as nat,
    {
        proof {
            crate::tree::lemma_subtree_props(self@, root);
        }
        let mut ids: Vec<NodeId> = Vec::new();
        self.subtree_ids_vec(root, &mut ids);
        let ghost s = self@.subtree_ids(root);
        proof {
            assert(s.contains(root)) by {
                assert(self@.is_under(root, root));
            }
            assert(s[0] == root);
        }
        let n = ids.len();
        let mut best: u8 = self.depth_of(root);
        let mut i: usize = 1;
        while i < n
            invariant
                self@.wf(),
                self@.has(root),
                n == s.len(),
                ids@ == s,
                1 <= i <= n,
                forall|j: int| 0 <= j < i ==> self@.depths[#[trigger] s[j]] <= best as nat,
                exists|j: int| 0 <= j < i && self@.depths[#[trigger] s[j]] == best as nat,
                forall|x: NodeId|
                    #[trigger] s.contains(x) <==> (self@.has(x) && self@.is_under(x, root)),
            decreases n - i,
        {
            proof {
                assert(s.contains(s[i as int]));
            }
            let d = self.depth_of(ids[i]);
            if d > best {
                best = d;
            }
            i = i + 1;
        }
        proof {
            assert forall|x: NodeId|
                self@.has(x) && #[trigger] self@.is_under(x, root) implies self@.depths[x]
                <= best as nat by {
                assert(s.contains(x));
                let j = choose|j: int| 0 <= j < s.len() && s[j] == x;
                assert(self@.depths[s[j]] <= best as nat);
            }
            let j = choose|j: int| 0 <= j < i && self@.depths[#[trigger] s[j]] == best as nat;
            assert(s.contains(s[j]));
        }
        best
    }

    /// Unhook `id` from its former parent's child list or from the root
    /// list; the node itself stays in the map.
    fn detach_from_parent(&mut self, id: NodeId)
        requires
            old(self)@.wf(),
            old(self)@.has(id),
        ensures
            final(self)@.nodes == detached(old(self)@, id).0,
            final(self)@.roots == detached(old(self)@, id).1,
            final(self)@.depths == old(self)@.depths,
            final(self)@.id == old(self)@.id,
            final(self)@.title == old(self)@.title,
            final(self)@.max_depth == old(self)@.max_depth,
    {
        let ghost pre = self@;
        let parent = match self.nodes.get(&id) {
            Some(n) => n.parent(),
            None => None,
        };
        match parent {
            Some(op) => {
                proof {
                    assert(pre.node_ok(id));
                }
                let mut pnode = self.nodes.remove(&op).unwrap();
                proof {
                    assert(pnode@ == pre.nodes[op]);
                }
                pnode.remove_child(id);
                let ghost pv = pnode@;
                self.nodes.insert(op, pnode);
                proof {
                    assert(self@.nodes =~= pre.nodes.insert(op, pv));
                }
            },
            None => {
                self.remove_root_entry(id);
            },
        }
    }

    /// Hook `id` (already in the map) under `new_parent` or into the root
    /// list, at `position` clamped to the new sibling count.
    fn attach_to_parent(&mut self, id: NodeId, new_parent: Option<NodeId>, position: usize)
        requires
            old(self)@.has(id),
            (new_parent matches Some(np) ==> old(self)@.has(np) && np != id),
        ensures
            final(self)@.nodes == (match new_parent {
                Some(np) => {
                    let kids = old(self)@.nodes[np].children;
                    let pos = if position as int > kids.len() {
                        kids.len() as int
                    } else {
                        position as int
                    };
                    old(self)@.nodes.insert(
                        id,
                        (NodeView { parent: new_parent, ..old(self)@.nodes[id] }),
                    ).insert(np, (NodeView { children: kids.insert(pos, id), ..old(self)@.nodes[np] }))
                },
                None => old(self)@.nodes.insert(
                    id,
                    (NodeView { parent: None, ..old(self)@.nodes[id] }),
                ),
            }),
            final(self)@.roots == (match new_parent {
                Some(_) => old(self)@.roots,
                None => {
                    let pos = if position as int > old(self)@.roots.len() {
                        old(self)@.roots.len() as int
                    } else {
                        position as int
                    };
                    old(self)@.roots.insert(pos, id)
                },
            }),
            final(self)@.depths == old(self)@.depths,
            final(self)@.id == old(self)@.id,
            final(self)@.title == old(self)@.title,
            final(self)@.max_depth == old(self)@.max_depth,
    {
        let ghost pre = self@;
        let mut node = self.nodes.remove(&id).unwrap();
        proof {
            assert(node@ == pre.nodes[id]);
        }
        node.set_parent(new_parent);
        let ghost nv = node@;
        self.nodes.insert(id, node);
        proof {
            assert(self@.nodes =~= pre.nodes.insert(id, nv));
        }
        match new_parent {
            Some(np) => {
                let mut pnode = self.nodes.remove(&np).unwrap();
                proof {
                    assert(pnode@ == pre.nodes[np]);
                }
                pnode.add_child(id, position);
                let ghost pv = pnode@;
                self.nodes.insert(np, pnode);
                proof {
                    assert(self@.nodes =~= pre.nodes.insert(id, nv).insert(np, pv));
                }
            },
            None => {
                let len = self.root_nodes.len();
                let pos = if position < len {
                    position
                } else {
                    len
                };
                self.root_nodes.insert(pos, id);
            },
        }
    }

    /// Relocate `id` (with its whole subtree) under `new_parent`, or to the
    /// root list. Rejects moves under the node's own subtree and moves that
    /// would push any node of the subtree beyond the maximum depth; all
    /// validation happens before any mutation.
    pub fn move_node(&mut self, id: NodeId, new_parent: Option<NodeId>, position: usize) -> (r:
        Result<(), DomainError>)
        requires
            old(self)@.wf(),
        ensures
            final(self)@.wf(),
            move_contract(old(self)@, final(self)@, id, new_parent, position as int, r),
    {
        if !self.nodes.contains_key(&id) {
            return Err(DomainError::NodeNotFound(id));
        }
        if let Some(np) = new_parent {
            if !self.nodes.contains_key(&np) {
                return Err(DomainError::NodeNotFound(np));
            }
            if np == id || self.is_descendant_of(np, id) {
                return Err(DomainError::CyclicMove(id));
            }
        }
        let sub_max = self.subtree_max_depth(id);
        let base: u32 = match new_parent {
            Some(np) => self.depth_of(np) as u32 + 1,
            None => 1,
        };
        let d_id = self.depth_of(id);
        if sub_max as u32 + base > self.max_depth as u32 + d_id as u32 {
            proof {
                let w = choose|x: NodeId|
                    self@.has(x) && #[trigger] self@.is_under(x, id) && self@.depths[x]
                        == sub_max as nat;
                assert(!self@.move_depth_ok(id, new_parent));
            }
            return Err(DomainError::MaxDepthExceeded { node_id: id, max: self.max_depth });
        }
        proof {
            assert forall|x: NodeId|
                self@.has(x) && #[trigger] self@.is_under(x, id) implies self@.depths[x]
                + self@.depth_under(new_parent) <= self@.max_depth as nat + self@.depths[id] by {
                assert(self@.depths[x] <= sub_max as nat);
            }
        }
        let ghost pre = self@;
        self.detach_from_parent(id);
        proof {
            match new_parent {
                Some(np) => {
                    assert(self@.has(np));
                },
                None => {},
            }
            assert(self@.has(id));
        }
        let ghost mid = self@;
        self.attach_to_parent(id, new_parent, position);
        self.depths = Ghost(
            Map::new(
                |x: NodeId| pre.depths.dom().contains(x),
                |x: NodeId|
                    if pre.has(x) && pre.is_under(x, id) {
                        ((pre.depths[x] + pre.depth_under(new_parent)) - pre.depths[id]) as nat
                    } else {
                        pre.depths[x]
                    },
            ),
        );
        proof {
            assert(mid.nodes == detached(pre, id).0);
            self.lemma_moved_wf(pre, id, new_parent, position as int);
        }
        Ok(())
    }

    /// After detach, re-attach and the depth re-witnessing of `move_node`,
    /// the invariant holds again.
    proof fn lemma_moved_wf(&self, pre: BookView, id: NodeId, new_parent: Option<NodeId>, position: int)
        requires
            position >= 0,
            pre.wf(),
            pre.has(id),
            (new_parent matches Some(np) ==> pre.has(np) && !pre.is_under(np, id)),
            pre.move_depth_ok(id, new_parent),
            moved_ok(pre, self@, id, new_parent, position),
        ensures
            self@.wf(),
    {
        let post = self@;
        let v = pre;
        let nb = pre.depth_under(new_parent);
        let mid_nodes = detached(pre, id).0;
        let mid_roots = detached(pre, id).1;
        assert(v.node_ok(id));
        let op_opt = v.nodes[id].parent;
        // the old and new parents are outside the moved subtree
        match op_opt {
            Some(op) => {
                assert(!v.is_under(op, id)) by {
                    if v.is_under(op, id) {
                        crate::tree::lemma_is_under_depth(v, op, id);
                    }
                }
                crate::tree::lemma_remove_value_props(v.nodes[op].children, id);
                assert(v.node_ok(op));
                assert(!v.roots.contains(id)) by {
                    if v.roots.contains(id) {
                        let j = choose|j: int| 0 <= j < v.roots.len() && v.roots[j] == id;
                        assert(v.root_ok(v.roots[j]));
                    }
                }
            },
            None => {
                crate::tree::lemma_remove_value_props(v.roots, id);
            },
        }
        assert(post.nodes.dom() =~= v.nodes.dom());
        assert(post.depths.dom() =~= post.nodes.dom());
        // depth shift facts
        assert forall|x: NodeId| #[trigger] post.depths.dom().contains(x) implies {
            &&& (v.has(x) && v.is_under(x, id) ==> post.depths[x] == (v.depths[x] + nb
                - v.depths[id]) as nat)
            &&& (!(v.has(x) && v.is_under(x, id)) ==> post.depths[x] == v.depths[x])
        } by {}
        assert(nb <= v.max_depth as nat) by {
            assert(v.is_under(id, id));
            assert(v.depths[id] + nb <= v.max_depth as nat + v.depths[id]);
        }
        // membership of id in its new sibling list
        match new_parent {
            Some(np) => {
                let kids = mid_nodes[np].children;
                assert(kids.no_duplicates() && !kids.contains(id)) by {
                    match op_opt {
                        Some(op) => {
                            if op == np {
                            } else {
                                assert(v.node_ok(np));
                                if v.nodes[np].children.contains(id) {
                                    let j = choose|j: int|
                                        0 <= j < v.nodes[np].children.len() && v.nodes[np].children[j]
                                            == id;
                                    assert(v.child_ok(np, v.nodes[np].children[j]));
                                }
                            }
                        },
                        None => {
                            assert(v.node_ok(np));
                            if v.nodes[np].children.contains(id) {
                                let j = choose|j: int|
                                    0 <= j < v.nodes[np].children.len() && v.nodes[np].children[j]
                                        == id;
                                assert(v.child_ok(np, v.nodes[np].children[j]));
                            }
                        },
                    }
                }
                let pos = if position > kids.len() {
                    kids.len() as int
                } else {
                    position
                };
                lemma_insert_seq(kids, pos, id);
            },
            None => {
                assert(mid_roots.no_duplicates() && !mid_roots.contains(id)) by {
                    match op_opt {
                        Some(_) => {
                            if v.roots.contains(id) {
                                let j = choose|j: int| 0 <= j < v.roots.len() && v.roots[j] == id;
                                assert(v.root_ok(v.roots[j]));
                            }
                        },
                        None => {},
                    }
                }
                let pos = if position > mid_roots.len() {
                    mid_roots.len() as int
                } else {
                    position
                };
                lemma_insert_seq(mid_roots, pos, id);
            },
        }
        // every node is consistent again
        assert forall|k: NodeId| #[trigger] post.nodes.dom().contains(k) implies post.node_ok(
            k,
        ) by {
            assert(v.node_ok(k));
            if v.is_under(k, id) {
                // k moves with the subtree
                assert(v.depths[k] + nb <= v.max_depth as nat + v.depths[id]);
                crate::tree::lemma_is_under_depth(v, k, id);
                if k == id {
                    match new_parent {
                        Some(np) => {
                            assert(post.nodes[np].children.contains(id));
                            assert(!v.is_under(np, id));
                            assert(post.depths[np] == v.depths[np]);
                            assert(post.depths[id] == nb);
                        },
                        None => {
                            assert(post.roots.contains(id));
                            assert(post.depths[id] == 1);
                        },
                    }
                } else {
                    let p = v.nodes[k].parent->0;
                    assert(v.nodes[k].parent is Some);
                    assert(v.is_under(p, id));
                    assert(match op_opt {
                        Some(op) => p != op,
                        None => true,
                    }) by {
                        match op_opt {
                            Some(op) => {
                                if p == op {
                                    assert(v.is_under(op, id));
                                }
                            },
                            None => {},
                        }
                    }
                    assert(match new_parent {
                        Some(np) => p != np,
                        None => true,
                    }) by {
                        match new_parent {
                            Some(np) => {
                                if p == np {
                                    assert(v.is_under(np, id));
                                }
                            },
                            None => {},
                        }
                    }
                    assert(post.nodes[k] == v.nodes[k] || k == id);
                    assert(post.depths[k] == (v.depths[k] + nb - v.depths[id]) as nat);
                    assert(post.depths[p] == (v.depths[p] + nb - v.depths[id]) as nat);
                }
                // children of k stay in the subtree
                assert forall|j: int|
                    0 <= j < post.nodes[k].children.len() implies post.child_ok(
                    k,
                    #[trigger] post.nodes[k].children[j],
                ) by {
                    let c = post.nodes[k].children[j];
                    assert(post.nodes[k].children == v.nodes[k].children);
                    assert(v.child_ok(k, c));
                    assert(c != id) by {
                        if c == id {
                            assert(v.nodes[id].parent == Some(k));
                            assert(v.is_under(k, id));
                            crate::tree::lemma_is_under_depth(v, k, id);
                            assert(v.node_ok(c));
                        }
                    }
                    assert(v.is_under(c, id)) by {
                        assert(v.node_ok(c));
                    }
                }
            } else {
                // k stays in place
                assert(k != id) by {
                    assert(v.is_under(id, id));
                }
                assert(post.depths[k] == v.depths[k]);
                assert forall|j: int|
                    0 <= j < post.nodes[k].children.len() implies post.child_ok(
                    k,
                    #[trigger] post.nodes[k].children[j],
                ) by {
                    let c = post.nodes[k].children[j];
                    if c == id {
                        assert(new_parent == Some(k)) by {
                            let not_new = match new_parent {
                                Some(np) => k != np,
                                None => true,
                            };
                            if not_new {
                                assert(post.nodes[k].children.contains(id)) by {
                                    assert(post.nodes[k].children[j] == id);
                                }
                                match op_opt {
                                    Some(op) => {
                                        if k == op {
                                            assert(post.nodes[k].children
                                                == v.nodes[op].children.remove_value(id));
                                            assert(!post.nodes[k].children.contains(id));
                                        } else {
                                            assert(post.nodes[k].children == v.nodes[k].children);
                                            let jj = choose|jj: int|
                                                0 <= jj < v.nodes[k].children.len()
                                                    && v.nodes[k].children[jj] == id;
                                            assert(v.child_ok(k, v.nodes[k].children[jj]));
                                            assert(v.nodes[id].parent == Some(k));
                                        }
                                    },
                                    None => {
                                        assert(post.nodes[k].children == v.nodes[k].children);
                                        let jj = choose|jj: int|
                                            0 <= jj < v.nodes[k].children.len()
                                                && v.nodes[k].children[jj] == id;
                                        assert(v.child_ok(k, v.nodes[k].children[jj]));
                                        assert(v.nodes[id].parent == Some(k));
                                    },
                                }
                                assert(false);
                            }
                        }
                        assert(post.nodes[id].parent == Some(k));
                        assert(post.depths[id] == nb);
                        assert(post.depths[k] == v.depths[k]);
                    } else {
                        assert(v.nodes[k].children.contains(c)) by {
                            let pkids = post.nodes[k].children;
                            assert(pkids.contains(c)) by {
                                assert(pkids[j] == c);
                            }
                            match new_parent {
                                Some(np) => {
                                    if k == np {
                                        let kids0 = mid_nodes[np].children;
                                        assert(kids0.contains(c));
                                        match op_opt {
                                            Some(op) => {
                                                if np == op {
                                                    assert(v.nodes[op].children.contains(c));
                                                } else {
                                                    assert(kids0 == v.nodes[np].children);
                                                }
                                            },
                                            None => {
                                                assert(kids0 == v.nodes[np].children);
                                            },
                                        }
                                    } else {
                                        match op_opt {
                                            Some(op) => {
                                                if k == op {
                                                    assert(v.nodes[op].children.contains(c));
                                                }
                                            },
                                            None => {},
                                        }
                                    }
                                },
                                None => {
                                    match op_opt {
                                        Some(op) => {
                                            if k == op {
                                                assert(v.nodes[op].children.contains(c));
                                            }
                                        },
                                        None => {},
                                    }
                                },
                            }
                        }
                        assert(v.child_ok(k, c));
                        assert(!v.is_under(c, id)) by {
                            if v.is_under(c, id) {
                                assert(v.node_ok(c));
                                assert(v.is_under(k, id));
                            }
                        }
                        assert(post.nodes[c].parent == v.nodes[c].parent);
                        assert(post.depths[c] == v.depths[c]);
                    }
                }
                match v.nodes[k].parent {
                    Some(p) => {
                        assert(!v.is_under(p, id)) by {
                            if v.is_under(p, id) {
                                assert(v.is_under(k, id));
                            }
                        }
                        assert(post.depths[p] == v.depths[p]);
                        assert(post.nodes[p].children.contains(k)) by {
                            assert(k != id);
                            match op_opt {
                                Some(op) => {
                                    if p == op {
                                    }
                                },
                                None => {},
                            }
                            match new_parent {
                                Some(np) => {
                                    if p == np {
                                    }
                                },
                                None => {},
                            }
                        }
                    },
                    None => {
                        assert(post.roots.contains(k)) by {
                            assert(k != id);
                            match op_opt {
                                None => {},
                                Some(_) => {},
                            }
                        }
                    },
                }
            }
        }
        // the root list is consistent again
        assert(post.roots.no_duplicates()) by {
            match new_parent {
                Some(_) => {},
                None => {},
            }
        }
        assert forall|i: int| 0 <= i < post.roots.len() implies post.root_ok(
            #[trigger] post.roots[i],
        ) by {
            let x = post.roots[i];
            assert(post.roots.contains(x));
            if x == id {
                assert(new_parent is None);
                assert(post.nodes[id].parent is None);
            } else {
                assert(v.roots.contains(x)) by {
                    match new_parent {
                        Some(_) => {},
                        None => {},
                    }
                }
                let j = choose|j: int| 0 <= j < v.roots.len() && v.roots[j] == x;
                assert(v.root_ok(v.roots[j]));
                assert(post.nodes[x].parent == v.nodes[x].parent) by {
                    match op_opt {
                        Some(op) => {
                            if x == op {
                            }
                        },
                        None => {},
                    }
                    match new_parent {
                        Some(np) => {
                            if x == np {
                            }
                        },
                        None => {},
                    }
                }
            }
        }
    }

    /// After the insertion steps of `add_node`, the invariant holds again.
    proof fn lemma_added_wf(
        &self,
        pre: BookView,
        id: NodeId,
        nv: NodeView,
        parent: Option<NodeId>,
        pos: int,
    )
        requires
            pre.wf(),
            !pre.has(id),
            nv.id == id,
            nv.parent == parent,
            nv.children == Seq::<NodeId>::empty(),
            pre.depth_under(parent) >= 1,
            pre.depth_under(parent) <= pre.max_depth as nat,
            self@.id == pre.id,
            self@.title == pre.title,
            self@.max_depth == pre.max_depth,
            self@.depths == pre.depths.insert(id, pre.depth_under(parent)),
            match parent {
                Some(p) => {
                    &&& pre.has(p)
                    &&& 0 <= pos <= pre.nodes[p].children.len()
                    &&& self@.nodes == pre.nodes.insert(id, nv).insert(
                        p,
                        (NodeView {
                            children: pre.nodes[p].children.insert(pos, id),
                            ..pre.nodes[p]
                        }),
                    )
                    &&& self@.roots == pre.roots
                },
                None => {
                    &&& 0 <= pos <= pre.roots.len()
                    &&& self@.nodes == pre.nodes.insert(id, nv)
                    &&& self@.roots == pre.roots.insert(pos, id)
                },
            },
        ensures
            self@.wf(),
    {
        let post = self@;
        assert(post.depths.dom() =~= post.nodes.dom());
        match parent {
            Some(p) => {
                lemma_insert_seq(pre.nodes[p].children, pos, id);
                assert(pre.node_ok(p));
                // the new node's parent link is consistent
                assert(post.nodes[p].children.contains(id));
                assert forall|k: NodeId| #[trigger] post.nodes.dom().contains(k) implies post.node_ok(
                    k,
                ) by {
                    if k == id {
                        assert(post.depths[p] == pre.depths[p]);
                    } else {
                        assert(pre.node_ok(k));
                        if k == p {
                            assert forall|i: int|
                                0 <= i < post.nodes[k].children.len() implies post.child_ok(
                                k,
                                #[trigger] post.nodes[k].children[i],
                            ) by {
                                let c = post.nodes[k].children[i];
                                assert(c == id || pre.nodes[p].children.contains(c));
                                if c != id {
                                    assert(pre.child_ok(p, c));
                                    if c == p {
                                        assert(pre.nodes[p].parent == Some(p));
                                        assert(pre.depths[p] == pre.depths[p] + 1);
                                    }
                                }
                            }
                        } else {
                            assert forall|i: int|
                                0 <= i < post.nodes[k].children.len() implies post.child_ok(
                                k,
                                #[trigger] post.nodes[k].children[i],
                            ) by {
                                let c = post.nodes[k].children[i];
                                assert(pre.child_ok(k, c));
                                assert(c != id);
                                if c == p {
                                    assert(pre.nodes[p].parent == Some(k));
                                }
                            }
                            match pre.nodes[k].parent {
                                None => {},
                                Some(q) => {
                                    assert(pre.child_ok(q, k) || pre.nodes[q].children.contains(
                                        k,
                                    ));
                                    if q == p {
                                        lemma_insert_seq(pre.nodes[p].children, pos, id);
                                    }
                                },
                            }
                        }
                    }
                }
            },
            None => {
                lemma_insert_seq(pre.roots, pos, id);
                assert forall|k: NodeId| #[trigger] post.nodes.dom().contains(k) implies post.node_ok(
                    k,
                ) by {
                    if k == id {
                        assert(post.roots.contains(id));
                    } else {
                        assert(pre.node_ok(k));
                        assert forall|i: int|
                            0 <= i < post.nodes[k].children.len() implies post.child_ok(
                            k,
                            #[trigger] post.nodes[k].children[i],
                        ) by {
                            let c = post.nodes[k].children[i];
                            assert(pre.child_ok(k, c));
                        }
                        match pre.nodes[k].parent {
                            None => {
                                assert(post.roots.contains(k));
                            },
                            Some(_) => {},
                        }
                    }
                }
                assert forall|i: int| 0 <= i < post.roots.len() implies post.root_ok(
                    #[trigger] post.roots[i],
                ) by {
                    let x = post.roots[i];
                    assert(pre.roots.contains(x) || x == id);
                    if x != id {
                        let j = choose|j: int| 0 <= j < pre.roots.len() && pre.roots[j] == x;
                        assert(pre.root_ok(pre.roots[j]));
                    }
                }
            },
        }
    }
}

} // verus!
