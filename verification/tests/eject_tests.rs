use outline_mcp::book::{AddNodeRequest, TemplateBook};
use outline_mcp::eject::{export_filename, EjectFormat, EjectService, EjectTree, EjectTreeNode, ImportError};
use outline_mcp::errors::{DomainError, NodeId};
use outline_mcp::node::NodeType;

fn make_test_book() -> (TemplateBook, NodeId, NodeId) {
    let mut book = TemplateBook::new("Dev Runbook".into(), 3);

    let design = book
        .add_node(AddNodeRequest {
            parent: None,
            title: "Design".into(),
            node_type: NodeType::Section,
            body: None,
            placeholder: None,
            position: usize::MAX,
        })
        .unwrap();

    let req_id = book
        .add_node(AddNodeRequest {
            parent: Some(design),
            title: "Define requirements".into(),
            node_type: NodeType::Content,
            body: None,
            placeholder: Some("requirements list".into()),
            position: usize::MAX,
        })
        .unwrap();

    book.add_node(AddNodeRequest {
        parent: Some(design),
        title: "API design".into(),
        node_type: NodeType::Content,
        body: Some("REST endpoints".into()),
        placeholder: None,
        position: usize::MAX,
    })
    .unwrap();

    (book, design, req_id)
}

#[test]
fn render_markdown_full() {
    let (book, _, _) = make_test_book();
    let md = EjectService::render_markdown(&book, true, None);

    assert!(md.contains("# Dev Runbook"));
    assert!(md.contains("## Design"));
    assert!(md.contains("- [ ] Define requirements"));
    assert!(md.contains("> requirements list: ___"));
    assert!(md.contains("- [ ] API design"));
    assert!(md.contains("REST endpoints"));
}

#[test]
fn render_markdown_without_placeholders() {
    let (book, _, _) = make_test_book();
    let md = EjectService::render_markdown(&book, false, None);
    assert!(!md.contains("> requirements list"));
}

#[test]
fn render_markdown_subtree() {
    let (book, design, _) = make_test_book();
    let md = EjectService::render_markdown(&book, true, Some(design));

    assert!(md.contains("# Design"));
    assert!(md.contains("- [ ] Define requirements"));
    assert!(!md.contains("# Dev Runbook"));
}

#[test]
fn render_markdown_exact_text() {
    let mut book = TemplateBook::new("Guide".into(), 3);
    let s = book
        .add_node(AddNodeRequest {
            parent: None,
            title: "Steps".into(),
            node_type: NodeType::Section,
            body: None,
            placeholder: None,
            position: usize::MAX,
        })
        .unwrap();
    book.add_node(AddNodeRequest {
        parent: Some(s),
        title: "Run it".into(),
        node_type: NodeType::Content,
        body: Some("- build\n- test".into()),
        placeholder: None,
        position: usize::MAX,
    })
    .unwrap();

    let md = EjectService::render_markdown(&book, true, None);
    assert_eq!(
        md,
        "# Guide\n\n## Steps\n\n\n  - [ ] Run it\n    - [ ] build\n    - [ ] test\n"
    );
}

#[test]
fn import_tree_roundtrip() {
    let (book, _, _) = make_test_book();
    let tree = EjectService::build_tree(&book, None);
    let imported = EjectService::import_tree(&tree).unwrap();

    assert_eq!(imported.title(), "Dev Runbook");
    assert_eq!(imported.node_count(), 3);
    assert_eq!(imported.root_nodes().len(), 1);

    let root = imported.get_node(imported.root_nodes()[0]).unwrap();
    assert_eq!(root.title(), "Design");
    assert_eq!(root.children().len(), 2);

    let child0 = imported.get_node(root.children()[0]).unwrap();
    assert_eq!(child0.title(), "Define requirements");
    assert_eq!(child0.placeholder(), Some("requirements list"));

    let child1 = imported.get_node(root.children()[1]).unwrap();
    assert_eq!(child1.title(), "API design");
    assert_eq!(child1.body(), Some("REST endpoints"));
}

#[test]
fn import_tree_invalid_type() {
    let tree = EjectTree {
        title: "Bad".into(),
        max_depth: 4,
        nodes: vec![EjectTreeNode {
            id: "dummy".into(),
            title: "Node".into(),
            node_type: "unknown_type".into(),
            body: None,
            placeholder: None,
            children: vec![],
        }],
    };

    let result = EjectService::import_tree(&tree);
    assert!(result.is_err());
    assert!(matches!(result, Err(ImportError::InvalidType(tag)) if tag == "unknown_type"));
}

#[test]
fn import_accepts_legacy_tags() {
    let tree = EjectTree {
        title: "Legacy".into(),
        max_depth: 4,
        nodes: vec![EjectTreeNode {
            id: "x".into(),
            title: "Old item".into(),
            node_type: "checklist".into(),
            body: None,
            placeholder: None,
            children: vec![],
        }],
    };

    let imported = EjectService::import_tree(&tree).unwrap();
    let root = imported.get_node(imported.root_nodes()[0]).unwrap();
    assert_eq!(*root.node_type(), NodeType::Content);
}

#[test]
fn import_rejects_deep_nesting() {
    // a chain of 40 section levels with a content leaf, ceiling 32
    let mut node = EjectTreeNode {
        id: "leaf".into(),
        title: "Leaf".into(),
        node_type: "content".into(),
        body: None,
        placeholder: None,
        children: vec![],
    };
    for i in (0..40).rev() {
        node = EjectTreeNode {
            id: format!("level-{i}"),
            title: format!("Level {i}"),
            node_type: "section".into(),
            body: None,
            placeholder: None,
            children: vec![node],
        };
    }
    let tree = EjectTree { title: "Deep".into(), max_depth: 50, nodes: vec![node] };

    let result = EjectService::import_tree(&tree);
    assert!(matches!(result, Err(ImportError::RecursionLimit)));
}

#[test]
fn list_to_checkbox_dash() {
    assert_eq!(
        EjectService::list_to_checkbox("- cargo test"),
        "- [ ] cargo test"
    );
}

#[test]
fn list_to_checkbox_asterisk() {
    assert_eq!(
        EjectService::list_to_checkbox("* cargo test"),
        "- [ ] cargo test"
    );
}

#[test]
fn list_to_checkbox_indented() {
    assert_eq!(
        EjectService::list_to_checkbox("  - nested item"),
        "  - [ ] nested item"
    );
}

#[test]
fn list_to_checkbox_non_list() {
    assert_eq!(EjectService::list_to_checkbox("plain text"), "plain text");
}

#[test]
fn export_filename_defaults() {
    let (book, design, _) = make_test_book();
    assert_eq!(
        export_filename(&book, None, &EjectFormat::Markdown),
        "Dev_Runbook.md"
    );
    assert_eq!(
        export_filename(&book, None, &EjectFormat::Json),
        "Dev_Runbook.json"
    );
    assert_eq!(
        export_filename(&book, Some(design), &EjectFormat::Markdown),
        "1_Design.md"
    );
}

#[test]
fn build_tree_carries_fields() {
    let (book, _, _) = make_test_book();
    let tree = EjectService::build_tree(&book, None);
    assert_eq!(tree.title, "Dev Runbook");
    assert_eq!(tree.max_depth, 3);
    assert_eq!(tree.nodes.len(), 1);
    assert_eq!(tree.nodes[0].title, "Design");
    assert_eq!(tree.nodes[0].node_type, "section");
    assert_eq!(tree.nodes[0].children.len(), 2);
    assert_eq!(tree.nodes[0].children[0].node_type, "content");
    assert_eq!(
        tree.nodes[0].children[0].placeholder,
        Some("requirements list".to_string())
    );
}

#[test]
fn depth_limit_scenario() {
    let mut book = TemplateBook::new("Two levels".into(), 2);
    let l1 = book
        .add_node(AddNodeRequest {
            parent: None,
            title: "L1".into(),
            node_type: NodeType::Section,
            body: None,
            placeholder: None,
            position: usize::MAX,
        })
        .unwrap();
    let l2 = book
        .add_node(AddNodeRequest {
            parent: Some(l1),
            title: "L2".into(),
            node_type: NodeType::Content,
            body: None,
            placeholder: None,
            position: usize::MAX,
        })
        .unwrap();
    assert_eq!(book.depth_of(l2), 2);
    let result = book.add_node(AddNodeRequest {
        parent: Some(l2),
        title: "L3".into(),
        node_type: NodeType::Content,
        body: None,
        placeholder: None,
        position: usize::MAX,
    });
    assert!(matches!(
        result,
        Err(DomainError::MaxDepthExceeded { max: 2, .. })
    ));
}

#[test]
fn import_rejects_tree_beyond_declared_depth() {
    let leaf = EjectTreeNode {
        id: "b".into(),
        title: "Too deep".into(),
        node_type: "content".into(),
        body: None,
        placeholder: None,
        children: vec![],
    };
    let root = EjectTreeNode {
        id: "a".into(),
        title: "Top".into(),
        node_type: "section".into(),
        body: None,
        placeholder: None,
        children: vec![leaf],
    };
    let tree = EjectTree { title: "Shallow".into(), max_depth: 1, nodes: vec![root] };

    let result = EjectService::import_tree(&tree);
    assert!(matches!(
        result,
        Err(ImportError::Domain(DomainError::MaxDepthExceeded { max: 1, .. }))
    ));
}

#[test]
fn body_lines_with_carriage_returns() {
    let mut book = TemplateBook::new("CR".into(), 2);
    book.add_node(AddNodeRequest {
        parent: None,
        title: "Item".into(),
        node_type: NodeType::Content,
        body: Some("one\r\ntwo".into()),
        placeholder: None,
        position: usize::MAX,
    })
    .unwrap();
    let md = EjectService::render_markdown(&book, true, None);
    assert_eq!(md, "# CR\n\n- [ ] Item\n  one\n  two\n");
}

#[test]
fn subtree_nodes_lists_only_that_subtree() {
    let (book, design, _) = make_test_book();
    let sub = book.subtree_nodes(design);
    assert_eq!(sub.len(), 3);
    assert_eq!(sub[0].title(), "Design");
    let everything = book.all_nodes_dfs();
    assert_eq!(everything.len(), book.node_count());
}
