use rag::chunk::chunk_file;

#[test]
fn should_chunk_simple_rust_file() {
    let source = r#"use std::io;

fn hello() {
    println!("hello");
}

struct Foo {
    bar: i32,
}
"#;
    let chunks = chunk_file("test.rs", source).unwrap();
    assert!(chunks.len() >= 2); // hello fn + Foo struct (+ maybe preamble)

    let fn_chunk = chunks.iter().find(|c| c.item_name == "hello").unwrap();
    assert_eq!(fn_chunk.language, "rust");
    assert!(fn_chunk.text.contains("fn hello()"));

    let struct_chunk = chunks.iter().find(|c| c.item_name == "Foo").unwrap();
    assert!(struct_chunk.text.contains("struct Foo"));
}

#[test]
fn should_chunk_markdown_by_headings() {
    let source = "# Title\nSome intro text.\n## Section A\nContent A.\n## Section B\nContent B.\n";
    let chunks = chunk_file("readme.md", source).unwrap();
    assert_eq!(chunks.len(), 3);
    assert_eq!(chunks[0].item_name, "Title");
    assert_eq!(chunks[1].item_name, "Section A");
    assert_eq!(chunks[2].item_name, "Section B");
}

#[test]
fn should_handle_markdown_without_headings() {
    let source = "Just some text\nwithout headings.\n";
    let chunks = chunk_file("notes.md", source).unwrap();
    assert_eq!(chunks.len(), 1);
    assert_eq!(chunks[0].item_name, "notes.md");
}
