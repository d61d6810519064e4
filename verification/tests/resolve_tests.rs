use outline_mcp::book::{AddNodeRequest, TemplateBook};
use outline_mcp::errors::NodeId;
use outline_mcp::ids::{node_id_short, node_id_text, parse_node_id};
use outline_mcp::node::NodeType;
use outline_mcp::resolve::{parse_node_type, resolve_book_ref, resolve_node_ref, ResolveError};
use outline_mcp::store::{book_path, JsonBookRepository};
use outline_mcp::textutil::parse_usize;

fn add(book: &mut TemplateBook, parent: Option<NodeId>, title: &str) -> NodeId {
    book.add_node(AddNodeRequest {
        parent,
        title: title.into(),
        node_type: NodeType::Content,
        body: None,
        placeholder: None,
        position: usize::MAX,
    })
    .unwrap()
}

#[test]
fn parse_node_type_valid() {
    assert_eq!(parse_node_type("section").unwrap(), NodeType::Section);
    assert_eq!(parse_node_type("content").unwrap(), NodeType::Content);
}

#[test]
fn parse_node_type_invalid() {
    assert!(parse_node_type("unknown").is_err());
}

#[test]
fn id_text_round_trips() {
    let text = node_id_text(0x0123_4567_89ab_cdef_0011_2233_4455_6677u128);
    assert_eq!(text, "01234567-89ab-cdef-0011-223344556677");
    assert_eq!(parse_node_id(&text), Some(0x0123_4567_89ab_cdef_0011_2233_4455_6677u128));
    assert_eq!(
        parse_node_id("01234567-89AB-CDEF-0011-223344556677"),
        Some(0x0123_4567_89ab_cdef_0011_2233_4455_6677u128)
    );
    assert_eq!(parse_node_id("not-an-id"), None);
    assert_eq!(node_id_short(0x0123_4567_89ab_cdef_0011_2233_4455_6677u128), "01234567");
}

#[test]
fn resolve_by_positional_number() {
    let mut book = TemplateBook::new("T".into(), 4);
    let s1 = add(&mut book, None, "First");
    let s2 = add(&mut book, None, "Second");
    for t in ["x", "y", "z"] {
        add(&mut book, Some(s2), t);
    }
    let _ = s1;

    let third_child = book.get_node(s2).unwrap().children()[2];
    assert_eq!(resolve_node_ref(&book, "2-3"), Ok(third_child));
    assert_eq!(resolve_node_ref(&book, "2"), Ok(s2));
    assert!(matches!(
        resolve_node_ref(&book, "9-9"),
        Err(ResolveError::NotFound)
    ));
}

#[test]
fn resolve_by_full_identifier_text() {
    let mut book = TemplateBook::new("T".into(), 4);
    let a = add(&mut book, None, "Alpha");
    let text = node_id_text(a);
    assert_eq!(text.len(), 36);
    assert_eq!(resolve_node_ref(&book, &text), Ok(a));
}

#[test]
fn resolve_by_identifier_prefix() {
    let mut book = TemplateBook::new("T".into(), 4);
    let a = add(&mut book, None, "Alpha");
    let b = add(&mut book, None, "Beta");
    let prefix = node_id_short(a);
    // an eight-character prefix matching exactly one node resolves to it;
    // an all-digit prefix would read as a positional number instead
    let positional = prefix.chars().all(|c| c.is_ascii_digit());
    if !positional && !node_id_text(b).starts_with(&prefix) {
        assert_eq!(resolve_node_ref(&book, &prefix), Ok(a));
    }
}

#[test]
fn resolve_by_title_substring_case_insensitive() {
    let mut book = TemplateBook::new("T".into(), 4);
    let _a = add(&mut book, None, "Install Rust");
    let b = add(&mut book, None, "Write the PARSER");

    assert_eq!(resolve_node_ref(&book, "parser"), Ok(b));
}

#[test]
fn resolve_ambiguous_title_lists_candidates() {
    let mut book = TemplateBook::new("T".into(), 4);
    let a = add(&mut book, None, "Review code");
    let b = add(&mut book, None, "Review docs");

    match resolve_node_ref(&book, "review") {
        Err(ResolveError::Ambiguous(candidates)) => {
            assert_eq!(candidates, vec![a, b]);
        }
        other => panic!("expected an ambiguous result, got {other:?}"),
    }
}

#[test]
fn resolve_nothing_matches() {
    let mut book = TemplateBook::new("T".into(), 4);
    add(&mut book, None, "Only node");
    assert!(matches!(
        resolve_node_ref(&book, "zz-top"),
        Err(ResolveError::NotFound)
    ));
}

#[test]
fn book_path_joins_parts() {
    assert_eq!(book_path("/tmp/shelf", "rust"), "/tmp/shelf/rust.json");
}

#[test]
fn resolve_book_ref_by_number_or_slug() {
    let slugs = vec!["alpha".to_string(), "beta".to_string()];
    assert_eq!(resolve_book_ref(&slugs, "1"), Some("alpha".to_string()));
    assert_eq!(resolve_book_ref(&slugs, "2"), Some("beta".to_string()));
    assert_eq!(resolve_book_ref(&slugs, "0"), None);
    assert_eq!(resolve_book_ref(&slugs, "3"), None);
    assert_eq!(resolve_book_ref(&slugs, "gamma"), Some("gamma".to_string()));
}

#[test]
fn parse_usize_accepts_plain_numbers() {
    assert_eq!(parse_usize("0"), Some(0));
    assert_eq!(parse_usize("42"), Some(42));
    assert_eq!(parse_usize("+7"), Some(7));
    assert_eq!(parse_usize(""), None);
    assert_eq!(parse_usize("+"), None);
    assert_eq!(parse_usize("12a"), None);
    assert_eq!(parse_usize("99999999999999999999999999999999999999999"), None);
}

#[test]
fn all_digit_identifier_text_reads_as_positional() {
    // an identifier whose text happens to be all digits matches the
    // positional syntax, so positional lookup wins and fails here
    let mut book = TemplateBook::new("T".into(), 4);
    add(&mut book, None, "Solo");
    let r = resolve_node_ref(&book, "00000000-0000-0000-0000-000000000001");
    assert!(matches!(r, Err(ResolveError::NotFound)));
}

#[test]
fn parse_node_id_rejects_misplaced_hyphens() {
    assert_eq!(parse_node_id("0123456789ab-cdef-0011-223344556677aaaa"), None);
    assert_eq!(parse_node_id("01234567-89ab-cdef-0011-2233445566zz"), None);
}

#[test]
fn repository_holds_its_path() {
    let repo = JsonBookRepository::new("/tmp/shelf/rust.json".to_string());
    assert_eq!(repo.path(), "/tmp/shelf/rust.json");
}
