use outline_mcp::book::{AddNodeRequest, TemplateBook, UpdateNodeRequest};
use outline_mcp::errors::{DomainError, NodeId};
use outline_mcp::node::NodeType;

fn make_book() -> TemplateBook {
    TemplateBook::new("Test Book".into(), 4)
}

fn add(
    book: &mut TemplateBook,
    parent: Option<NodeId>,
    title: &str,
    node_type: NodeType,
    body: Option<&str>,
    placeholder: Option<&str>,
) -> NodeId {
    book.add_node(AddNodeRequest {
        parent,
        title: title.into(),
        node_type,
        body: body.map(|s| s.into()),
        placeholder: placeholder.map(|s| s.into()),
        position: usize::MAX,
    })
    .unwrap()
}

#[test]
fn add_root_node() {
    let mut book = make_book();
    let id = add(&mut book, None, "Design", NodeType::Section, None, None);

    assert_eq!(book.root_nodes().len(), 1);
    assert_eq!(book.get_node(id).unwrap().title(), "Design");
}

#[test]
fn add_child_to_section() {
    let mut book = make_book();
    let parent = add(&mut book, None, "Phase 1", NodeType::Section, None, None);
    let child = add(
        &mut book,
        Some(parent),
        "Write tests",
        NodeType::Content,
        None,
        Some("list test cases here"),
    );

    let parent_node = book.get_node(parent).unwrap();
    assert_eq!(parent_node.children().len(), 1);
    assert_eq!(parent_node.children()[0], child);
}

#[test]
fn reject_exceeding_max_depth() {
    let mut book = TemplateBook::new("Shallow".into(), 2);
    let l1 = add(&mut book, None, "L1", NodeType::Section, None, None);
    let l2 = add(&mut book, Some(l1), "L2", NodeType::Content, None, None);

    let result = book.add_node(AddNodeRequest {
        parent: Some(l2),
        title: "L3 - too deep".into(),
        node_type: NodeType::Content,
        body: None,
        placeholder: None,
        position: usize::MAX,
    });

    assert!(matches!(
        result,
        Err(DomainError::MaxDepthExceeded { max: 2, .. })
    ));
}

#[test]
fn move_node_between_parents() {
    let mut book = make_book();
    let a = add(&mut book, None, "A", NodeType::Section, None, None);
    let b = add(&mut book, None, "B", NodeType::Section, None, None);
    let child = add(&mut book, Some(a), "Task", NodeType::Content, None, None);

    book.move_node(child, Some(b), 0).unwrap();

    assert!(book.get_node(a).unwrap().children().is_empty());
    assert_eq!(book.get_node(b).unwrap().children(), &[child]);
    assert_eq!(book.get_node(child).unwrap().parent(), Some(b));
}

#[test]
fn reject_cyclic_move() {
    let mut book = make_book();
    let parent = add(&mut book, None, "Parent", NodeType::Section, None, None);
    let child = add(&mut book, Some(parent), "Child", NodeType::Section, None, None);

    let result = book.move_node(parent, Some(child), 0);
    assert!(matches!(result, Err(DomainError::CyclicMove(_))));
}

#[test]
fn reject_move_under_itself() {
    let mut book = make_book();
    let a = add(&mut book, None, "A", NodeType::Section, None, None);

    let result = book.move_node(a, Some(a), 0);
    assert!(matches!(result, Err(DomainError::CyclicMove(_))));
}

#[test]
fn remove_node_with_descendants() {
    let mut book = make_book();
    let root = add(&mut book, None, "Root", NodeType::Section, None, None);
    let child = add(&mut book, Some(root), "Child", NodeType::Section, None, None);
    let _grandchild = add(&mut book, Some(child), "Grandchild", NodeType::Content, None, None);

    assert_eq!(book.node_count(), 3);
    book.remove_node(root).unwrap();
    assert_eq!(book.node_count(), 0);
    assert!(book.root_nodes().is_empty());
}

#[test]
fn update_node_title_and_type() {
    let mut book = make_book();
    let id = add(&mut book, None, "Old", NodeType::Section, None, None);

    book.update_node(
        id,
        UpdateNodeRequest {
            title: Some("New".into()),
            body: Some(Some("description".into())),
            node_type: Some(NodeType::Content),
            placeholder: None,
        },
    )
    .unwrap();

    let node = book.get_node(id).unwrap();
    assert_eq!(node.title(), "New");
    assert_eq!(node.body(), Some("description"));
    assert_eq!(*node.node_type(), NodeType::Content);
}

#[test]
fn update_clears_only_explicitly() {
    let mut book = make_book();
    let id = add(&mut book, None, "T", NodeType::Content, Some("body"), Some("hint"));

    // omitted fields are untouched
    book.update_node(
        id,
        UpdateNodeRequest { title: None, body: None, node_type: None, placeholder: None },
    )
    .unwrap();
    let node = book.get_node(id).unwrap();
    assert_eq!(node.body(), Some("body"));
    assert_eq!(node.placeholder(), Some("hint"));

    // an explicitly absent value clears the attribute
    book.update_node(
        id,
        UpdateNodeRequest {
            title: None,
            body: Some(None),
            node_type: None,
            placeholder: Some(None),
        },
    )
    .unwrap();
    let node = book.get_node(id).unwrap();
    assert_eq!(node.body(), None);
    assert_eq!(node.placeholder(), None);
}

#[test]
fn update_missing_node_fails() {
    let mut book = make_book();
    let id = add(&mut book, None, "A", NodeType::Section, None, None);
    book.remove_node(id).unwrap();
    let result = book.update_node(
        id,
        UpdateNodeRequest { title: None, body: None, node_type: None, placeholder: None },
    );
    assert!(matches!(result, Err(DomainError::NodeNotFound(_))));
}

#[test]
fn add_at_position_inserts_before_siblings() {
    let mut book = make_book();
    let a = add(&mut book, None, "A", NodeType::Section, None, None);
    let b = book
        .add_node(AddNodeRequest {
            parent: None,
            title: "B".into(),
            node_type: NodeType::Section,
            body: None,
            placeholder: None,
            position: 0,
        })
        .unwrap();
    assert_eq!(book.root_nodes(), &[b, a]);
}

#[test]
fn add_then_remove_restores_count() {
    let mut book = make_book();
    let root = add(&mut book, None, "Root", NodeType::Section, None, None);
    let before = book.node_count();
    let id = add(&mut book, Some(root), "Extra", NodeType::Content, None, None);
    book.remove_node(id).unwrap();
    assert_eq!(book.node_count(), before);
}

#[test]
fn dfs_order() {
    let mut book = make_book();
    let a = add(&mut book, None, "A", NodeType::Section, None, None);
    let a1 = add(&mut book, Some(a), "A-1", NodeType::Content, None, None);
    let a2 = add(&mut book, Some(a), "A-2", NodeType::Content, None, None);
    let b = add(&mut book, None, "B", NodeType::Content, None, None);

    let all = book.all_nodes_dfs();
    let ids: Vec<NodeId> = all.iter().map(|n| n.id()).collect();
    assert_eq!(ids, vec![a, a1, a2, b]);
}

#[test]
fn depth_of_reports_levels() {
    let mut book = make_book();
    let a = add(&mut book, None, "A", NodeType::Section, None, None);
    let b = add(&mut book, Some(a), "B", NodeType::Section, None, None);
    let c = add(&mut book, Some(b), "C", NodeType::Content, None, None);
    assert_eq!(book.depth_of(a), 1);
    assert_eq!(book.depth_of(b), 2);
    assert_eq!(book.depth_of(c), 3);
}

#[test]
fn move_deep_subtree_rejected_by_depth() {
    let mut book = TemplateBook::new("Limits".into(), 3);
    let a = add(&mut book, None, "A", NodeType::Section, None, None);
    let b = add(&mut book, Some(a), "B", NodeType::Section, None, None);
    let _c = add(&mut book, Some(b), "C", NodeType::Content, None, None);
    let other = add(&mut book, None, "Other", NodeType::Section, None, None);

    // attaching A's subtree (three levels) under Other would need depth 4
    let result = book.move_node(a, Some(other), 0);
    assert!(matches!(
        result,
        Err(DomainError::MaxDepthExceeded { max: 3, .. })
    ));
    // the aggregate is unchanged
    assert_eq!(book.get_node(a).unwrap().parent(), None);
}

#[test]
fn fresh_identifiers_are_distinct() {
    let mut book = make_book();
    let a = add(&mut book, None, "A", NodeType::Section, None, None);
    let b = add(&mut book, None, "B", NodeType::Section, None, None);
    assert_ne!(a, b);
}
