use outline_mcp::book::{AddNodeRequest, TemplateBook};
use outline_mcp::errors::NodeId;
use outline_mcp::node::NodeType;
use outline_mcp::numbering::{build_hierarchical_ids, find_hierarchical_id, format_toc};

fn add_root(book: &mut TemplateBook, title: &str, node_type: NodeType) -> NodeId {
    book.add_node(AddNodeRequest {
        parent: None,
        title: title.into(),
        node_type,
        body: None,
        placeholder: None,
        position: usize::MAX,
    })
    .unwrap()
}

fn add_child(book: &mut TemplateBook, parent: NodeId, title: &str, node_type: NodeType) -> NodeId {
    book.add_node(AddNodeRequest {
        parent: Some(parent),
        title: title.into(),
        node_type,
        body: None,
        placeholder: None,
        position: usize::MAX,
    })
    .unwrap()
}

#[test]
fn build_hierarchical_ids_flat() {
    let mut book = TemplateBook::new("Test".into(), 4);
    let a = add_root(&mut book, "A", NodeType::Section);
    let b = add_root(&mut book, "B", NodeType::Section);

    let ids = build_hierarchical_ids(&book);
    assert_eq!(ids.len(), 2);
    assert_eq!(ids[0], ("1".to_string(), a));
    assert_eq!(ids[1], ("2".to_string(), b));
}

#[test]
fn build_hierarchical_ids_nested() {
    let mut book = TemplateBook::new("Test".into(), 4);
    let sec = add_root(&mut book, "Section", NodeType::Section);
    let c1 = add_child(&mut book, sec, "Child 1", NodeType::Content);
    let c2 = add_child(&mut book, sec, "Child 2", NodeType::Content);

    let ids = build_hierarchical_ids(&book);
    assert_eq!(ids.len(), 3);
    assert_eq!(ids[0], ("1".to_string(), sec));
    assert_eq!(ids[1], ("1-1".to_string(), c1));
    assert_eq!(ids[2], ("1-2".to_string(), c2));
}

#[test]
fn find_hierarchical_id_lookup() {
    let mut book = TemplateBook::new("Test".into(), 4);
    let _a = add_root(&mut book, "A", NodeType::Section);
    let b = add_root(&mut book, "B", NodeType::Section);

    assert_eq!(find_hierarchical_id(&book, b), Some("2".to_string()));
}

#[test]
fn numbering_two_sections_two_children_each() {
    let mut book = TemplateBook::new("Test".into(), 4);
    let s1 = add_root(&mut book, "S1", NodeType::Section);
    add_child(&mut book, s1, "a", NodeType::Content);
    add_child(&mut book, s1, "b", NodeType::Content);
    let s2 = add_root(&mut book, "S2", NodeType::Section);
    add_child(&mut book, s2, "c", NodeType::Content);
    add_child(&mut book, s2, "d", NodeType::Content);

    let labels: Vec<String> = build_hierarchical_ids(&book)
        .into_iter()
        .map(|(l, _)| l)
        .collect();
    assert_eq!(labels, vec!["1", "1-1", "1-2", "2", "2-1", "2-2"]);
}

#[test]
fn numbering_follows_dfs_order() {
    let mut book = TemplateBook::new("Test".into(), 4);
    let s1 = add_root(&mut book, "S1", NodeType::Section);
    add_child(&mut book, s1, "a", NodeType::Content);
    add_root(&mut book, "S2", NodeType::Section);

    let mapping = build_hierarchical_ids(&book);
    let dfs: Vec<NodeId> = book.all_nodes_dfs().iter().map(|n| n.id()).collect();
    let mapped: Vec<NodeId> = mapping.into_iter().map(|(_, id)| id).collect();
    assert_eq!(mapped, dfs);
}

#[test]
fn toc_lists_every_node_with_label() {
    let mut book = TemplateBook::new("Guide".into(), 4);
    let s = add_root(&mut book, "Setup", NodeType::Section);
    add_child(&mut book, s, "Install", NodeType::Content);

    let nodes = book.all_nodes_dfs();
    let toc = format_toc(&book, &nodes);
    assert_eq!(toc, "# Guide (2 nodes)\n\n1. Setup\n  1-1. Install\n");
}
