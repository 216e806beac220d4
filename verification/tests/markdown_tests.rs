use rag::chunk::{chunk_file, chunk_markdown, is_heading};

#[test]
fn headings_of_levels_one_to_three_only() {
    assert!(is_heading("# A"));
    assert!(is_heading("## A"));
    assert!(is_heading("### A"));
    assert!(is_heading("   ## indented"));
    assert!(!is_heading("#### A"));
    assert!(!is_heading("#A"));
    assert!(!is_heading("#"));
    assert!(!is_heading("text # not"));
}

#[test]
fn markdown_sections_cover_all_lines_in_order() {
    let source = "intro\n# One\na\nb\n## Two\nc\n";
    let chunks = chunk_markdown("doc.md", source);
    assert_eq!(chunks.len(), 3);
    assert_eq!(chunks[0].item_name, "doc.md");
    assert_eq!((chunks[0].start_line, chunks[0].end_line), (1, 1));
    assert_eq!(chunks[0].text, "intro");
    assert_eq!(chunks[1].item_name, "One");
    assert_eq!((chunks[1].start_line, chunks[1].end_line), (2, 4));
    assert_eq!(chunks[1].text, "# One\na\nb");
    assert_eq!(chunks[2].item_name, "Two");
    assert_eq!((chunks[2].start_line, chunks[2].end_line), (5, 6));
    assert_eq!(chunks[2].text, "## Two\nc");
    assert!(chunks.iter().all(|c| c.language == "markdown"));
    let joined: Vec<&str> = chunks.iter().map(|c| c.text.as_str()).collect();
    assert_eq!(joined.join("\n"), source.lines().collect::<Vec<_>>().join("\n"));
}

#[test]
fn empty_heading_title_names_the_file() {
    let chunks = chunk_markdown("x.md", "#  \nbody\n");
    assert_eq!(chunks.len(), 1);
    assert_eq!(chunks[0].item_name, "x.md");
    assert_eq!(chunks[0].text, "#  \nbody");
}

#[test]
fn crlf_lines_lose_their_carriage_returns() {
    let chunks = chunk_markdown("x.md", "# T\r\nline\r\n");
    assert_eq!(chunks.len(), 1);
    assert_eq!(chunks[0].item_name, "T");
    assert_eq!(chunks[0].text, "# T\nline");
    assert_eq!(chunks[0].end_line, 2);
}

#[test]
fn empty_markdown_gives_no_chunks() {
    assert!(chunk_markdown("e.md", "").is_empty());
    assert!(chunk_file("e.md", "").unwrap().is_empty());
}

#[test]
fn blank_sections_are_dropped_by_chunk_file() {
    let chunks = chunk_file("b.md", "   \n# H\ntext\n").unwrap();
    assert_eq!(chunks.len(), 1);
    assert_eq!(chunks[0].item_name, "H");
}

#[test]
fn other_files_become_one_text_chunk() {
    let chunks = chunk_file("notes.txt", "a\nb\nc\n").unwrap();
    assert_eq!(chunks.len(), 1);
    assert_eq!(chunks[0].item_name, "notes.txt");
    assert_eq!(chunks[0].language, "text");
    assert_eq!((chunks[0].start_line, chunks[0].end_line), (1, 3));
    assert_eq!(chunks[0].text, "a\nb\nc\n");
    let one = chunk_file("one.txt", "x").unwrap();
    assert_eq!(one[0].end_line, 1);
}

#[test]
fn blank_text_files_give_no_chunks() {
    assert!(chunk_file("blank.txt", " \n\t\n").unwrap().is_empty());
}

#[test]
fn long_texts_are_cut_to_the_character_limit() {
    let source = "é".repeat(50_000);
    let chunks = chunk_file("long.txt", &source).unwrap();
    assert_eq!(chunks.len(), 1);
    assert_eq!(chunks[0].text.chars().count(), rag::chunk::MAX_CHUNK_CHARS);
    assert!(source.starts_with(&chunks[0].text));
}
