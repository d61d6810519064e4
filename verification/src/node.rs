//! A single outline node. Nodes are owned by a `TemplateBook` and are only
//! ever created or mutated through the book's operations.

use vstd::prelude::*;

use crate::errors::NodeId;

verus! {

/// The node kind: sections organize, content nodes carry one item each.
#[derive(Debug, Clone, Copy, PartialEq, Eq, Structural)]
pub enum NodeType {
    Section,
    Content,
}

/// One element of the tree: a title, optional texts, a type tag, the ordered
/// child list, and the back-reference to the parent (`None` for a root).
pub struct TemplateNode {
    pub(crate) id: NodeId,
    pub(crate) parent: Option<NodeId>,
    pub(crate) children: Vec<NodeId>,
    pub(crate) title: String,
    pub(crate) body: Option<String>,
    pub(crate) node_type: NodeType,
    pub(crate) placeholder: Option<String>,
}

/// Mathematical image of a node: identifiers and character sequences only.
pub struct NodeView {
    pub id: NodeId,
    pub parent: Option<NodeId>,
    pub children: Seq<NodeId>,
    pub title: Seq<char>,
    pub body: Option<Seq<char>>,
    pub node_type: NodeType,
    pub placeholder: Option<Seq<char>>,
}

impl View for TemplateNode {
    type V = NodeView;

    closed spec fn view(&self) -> NodeView {
        NodeView {
            id: self.id,
            parent: self.parent,
            children: self.children@,
            title: self.title@,
            body: self.body.deep_view(),
            node_type: self.node_type,
            placeholder: self.placeholder.deep_view(),
        }
    }
}

impl TemplateNode {
    pub(crate) fn new(
        id: NodeId,
        parent: Option<NodeId>,
        title: String,
        node_type: NodeType,
    ) -> (r: TemplateNode)
        ensures
            r@.id == id,
            r@.parent == parent,
            r@.children == Seq::<NodeId>::empty(),
            r@.title == title@,
            r@.body is None,
            r@.node_type == node_type,
            r@.placeholder is None,
    {
        TemplateNode {
            id,
            parent,
            children: Vec::new(),
            title,
            body: None,
            node_type,
            placeholder: None,
        }
    }

    pub fn id(&self) -> (r: NodeId)
        ensures
            r == self@.id,
    {
        self.id
    }

    pub fn parent(&self) -> (r: Option<NodeId>)
        ensures
            r == self@.parent,
    {
        self.parent
    }

    pub fn children(&self) -> (r: &[NodeId])
        ensures
            r@ == self@.children,
    {
        self.children.as_slice()
    }

    pub fn title(&self) -> (r: &str)
        ensures
            r@ == self@.title,
    {
        self.title.as_str()
    }

    pub fn body(&self) -> (r: Option<&str>)
        ensures
            r.deep_view() == self@.body,
    {
        match &self.body {
            Some(s) => Some(s.as_str()),
            None => None,
        }
    }

    pub fn node_type(&self) -> (r: &NodeType)
        ensures
            *r == self@.node_type,
    {
        &self.node_type
    }

    pub fn placeholder(&self) -> (r: Option<&str>)
        ensures
            r.deep_view() == self@.placeholder,
    {
        match &self.placeholder {
            Some(s) => Some(s.as_str()),
            None => None,
        }
    }

    pub fn children_len(&self) -> (r: usize)
        ensures
            r == self@.children.len(),
    {
        self.children.len()
    }

    pub(crate) fn child(&self, i: usize) -> (r: &NodeId)
        requires
            i < self@.children.len(),
        ensures
            *r == self@.children[i as int],
    {
        &self.children[i]
    }

    pub fn is_leaf(&self) -> (r: bool)
        ensures
            r == (self@.children.len() == 0),
    {
        self.children.is_empty()
    }

    pub(crate) fn set_title(&mut self, title: String)
        ensures
            final(self)@ == (NodeView { title: title@, ..old(self)@ }),
    {
        self.title = title;
    }

    pub(crate) fn set_body(&mut self, body: Option<String>)
        ensures
            final(self)@ == (NodeView { body: body.deep_view(), ..old(self)@ }),
    {
        self.body = body;
    }

    pub(crate) fn set_node_type(&mut self, node_type: NodeType)
        ensures
            final(self)@ == (NodeView { node_type, ..old(self)@ }),
    {
        self.node_type = node_type;
    }

    pub(crate) fn set_placeholder(&mut self, placeholder: Option<String>)
        ensures
            final(self)@ == (NodeView { placeholder: placeholder.deep_view(), ..old(self)@ }),
    {
        self.placeholder = placeholder;
    }

    pub(crate) fn set_parent(&mut self, parent: Option<NodeId>)
        ensures
            final(self)@ == (NodeView { parent, ..old(self)@ }),
    {
        self.parent = parent;
    }

    /// Insert a child at `position`, clamped to the current child count.
    pub(crate) fn add_child(&mut self, child_id: NodeId, position: usize)
        ensures
            final(self)@ == (NodeView {
                children: old(self)@.children.insert(
                    if position as int > old(self)@.children.len() {
                        old(self)@.children.len() as int
                    } else {
                        position as int
                    },
                    child_id,
                ),
                ..old(self)@
            }),
    {
        let len = self.children.len();
        let pos = if position < len {
            position
        } else {
            len
        };
        self.children.insert(pos, child_id);
    }

    /// Remove the first occurrence of `child_id` from the child list (its
    /// only occurrence, under the aggregate's invariant).
    pub(crate) fn remove_child(&mut self, child_id: NodeId)
        ensures
            final(self)@ == (NodeView {
                children: old(self)@.children.remove_value(child_id),
                ..old(self)@
            }),
    {
        let n = self.children.len();
        let mut i: usize = 0;
        while i < n
            invariant
                i <= n,
                n == self.children.len(),
                *self == *old(self),
                forall|j: int| 0 <= j < i ==> self@.children[j] != child_id,
            decreases n - i,
        {
            if self.children[i] == child_id {
                proof {
                    let kids = old(self)@.children;
                    kids.index_of_first_ensures(child_id);
                    assert(kids.contains(child_id)) by {
                        assert(kids[i as int] == child_id);
                    }
                    assert(kids.index_of_first(child_id) == Some(i as int));
                }
                self.children.remove(i);
                return ;
            }
            i = i + 1;
        }
        proof {
            let kids = old(self)@.children;
            kids.index_of_first_ensures(child_id);
            assert(!kids.contains(child_id));
        }
    }
}

} // verus!
