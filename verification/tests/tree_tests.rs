use rag::chunk::ChunkError;
use rag::declarations::chunk_rust_tree;
use rag::syntax::SyntaxNode;

fn node(kind: &str, field: Option<&str>, depth: u32, bytes: (usize, usize), rows: (usize, usize)) -> SyntaxNode {
    SyntaxNode::new(kind, field, depth, bytes.0, bytes.1, rows.0, rows.1)
}

#[test]
fn a_given_tree_is_chunked_by_its_top_level_nodes() {
    let source = "fn ab() {}\nmod é;\n";
    let nodes = vec![
        node("source_file", None, 0, (0, 19), (0, 2)),
        node("function_item", None, 1, (0, 10), (0, 0)),
        node("fn", None, 2, (0, 2), (0, 0)),
        node("identifier", Some("name"), 2, (3, 5), (0, 0)),
        node("mod_item", None, 1, (11, 18), (1, 1)),
        node("identifier", Some("name"), 2, (15, 17), (1, 1)),
        node("line_comment", None, 1, (18, 18), (1, 1)),
    ];
    let chunks = chunk_rust_tree("t.rs", source, &nodes).unwrap();
    assert_eq!(chunks.len(), 2);
    assert_eq!(chunks[0].item_name, "ab");
    assert_eq!(chunks[0].text, "fn ab() {}");
    assert_eq!((chunks[0].start_line, chunks[0].end_line), (1, 1));
    assert_eq!(chunks[1].item_name, "é");
    assert_eq!(chunks[1].text, "mod é;");
    assert_eq!((chunks[1].start_line, chunks[1].end_line), (2, 2));
}

#[test]
fn ranges_off_character_boundaries_give_empty_text() {
    let source = "mod é;\n";
    let nodes = vec![
        node("source_file", None, 0, (0, 8), (0, 1)),
        node("mod_item", None, 1, (0, 8), (0, 0)),
        node("identifier", Some("name"), 2, (4, 5), (0, 0)),
    ];
    let chunks = chunk_rust_tree("u.rs", source, &nodes).unwrap();
    assert_eq!(chunks.len(), 1);
    assert_eq!(chunks[0].item_name, "");
    assert_eq!(chunks[0].text, "mod é;\n");
}

#[test]
fn rows_without_room_for_line_numbers_are_refused() {
    let nodes = vec![node("source_file", None, 0, (0, 0), (0, usize::MAX))];
    assert!(matches!(chunk_rust_tree("v.rs", "", &nodes), Err(ChunkError::MalformedSyntaxTree)));
}

#[test]
fn an_empty_tree_leaves_only_the_preamble() {
    let chunks = chunk_rust_tree("w.rs", "use a;\n", &Vec::new()).unwrap();
    assert_eq!(chunks.len(), 1);
    assert_eq!(chunks[0].item_name, "preamble");
    assert_eq!(chunks[0].text, "use a;");
}
