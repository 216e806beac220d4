use rag::chunk::chunk_file;
use rag::preamble::collect_preamble;
use rag::text::byte_offset_for_line;

#[test]
fn rust_chunks_start_with_the_preamble() {
    let source = "use std::io;\n\nfn hello() {\n    body();\n}\n\nconst X: u8 = 1;\n";
    let chunks = chunk_file("src/a.rs", source).unwrap();
    assert_eq!(chunks.len(), 3);
    assert_eq!(chunks[0].item_name, "preamble");
    assert_eq!(chunks[0].text, "use std::io;");
    assert_eq!((chunks[0].start_line, chunks[0].end_line), (1, 1));
    assert_eq!(chunks[1].item_name, "hello");
    assert_eq!((chunks[1].start_line, chunks[1].end_line), (3, 5));
    assert_eq!(chunks[1].text, "fn hello() {\n    body();\n}");
    assert_eq!(chunks[2].item_name, "X");
    assert_eq!(chunks[2].text, "const X: u8 = 1;");
    assert!(chunks.iter().all(|c| c.language == "rust" && c.file_path == "src/a.rs"));
}

#[test]
fn small_impls_are_one_chunk() {
    let source = "impl Foo {\n    fn a() {}\n}\n";
    let chunks = chunk_file("b.rs", source).unwrap();
    assert_eq!(chunks.len(), 1);
    assert_eq!(chunks[0].text, "impl Foo {\n    fn a() {}\n}");
}

fn large_impl(header: &str) -> String {
    let mut s = String::new();
    s.push_str(header);
    s.push_str(" {\n");
    s.push_str("    fn first(&self) {\n");
    for _ in 0..100 {
        s.push_str("        step();\n");
    }
    s.push_str("    }\n");
    s.push_str("    const LIMIT: u32 = 3;\n");
    s.push_str("}\n");
    s
}

#[test]
fn large_impls_are_split_into_members() {
    let chunks = chunk_file("c.rs", &large_impl("impl Widget")).unwrap();
    assert_eq!(chunks.len(), 3);
    assert_eq!(chunks[1].item_name, "Widget::first");
    assert_eq!(chunks[1].start_line, 2);
    assert_eq!(chunks[1].end_line, 103);
    assert_eq!(chunks[2].item_name, "Widget::LIMIT");
    assert_eq!(chunks[2].text, "const LIMIT: u32 = 3;");
    assert_eq!((chunks[2].start_line, chunks[2].end_line), (104, 104));
}

#[test]
fn large_trait_impls_name_type_and_trait() {
    let chunks = chunk_file("d.rs", &large_impl("impl Display for Widget")).unwrap();
    assert_eq!(chunks[1].item_name, "Widget<Display>::first");
}

#[test]
fn the_header_of_a_split_impl_falls_to_the_preamble() {
    let chunks = chunk_file("e.rs", &large_impl("impl Widget")).unwrap();
    assert_eq!(chunks[0].item_name, "preamble");
    assert_eq!(chunks[0].text, "impl Widget {\n}");
    assert_eq!((chunks[0].start_line, chunks[0].end_line), (1, 105));
}

#[test]
fn macro_rules_are_named_after_the_macro() {
    let chunks = chunk_file("m.rs", "macro_rules! shout {\n    () => {};\n}\n").unwrap();
    assert_eq!(chunks.len(), 1);
    assert_eq!(chunks[0].item_name, "shout");
}

#[test]
fn unnamed_declarations_take_their_first_line() {
    let chunks = chunk_file("n.rs", "impl<T> Trait for T where T: Copy {\n}\n").unwrap();
    assert_eq!(chunks.len(), 1);
    assert_eq!(chunks[0].item_name, "impl<T> Trait for T where T: Copy {");
}

#[test]
fn byte_offsets_count_each_line_and_its_newline() {
    let source = "ab\né\n\nxyz";
    assert_eq!(byte_offset_for_line(source, 0), 0);
    assert_eq!(byte_offset_for_line(source, 1), 3);
    assert_eq!(byte_offset_for_line(source, 2), 6);
    assert_eq!(byte_offset_for_line(source, 3), 7);
    assert_eq!(byte_offset_for_line(source, 4), 11);
    assert_eq!(byte_offset_for_line(source, 99), 11);
}

#[test]
fn preamble_keeps_uncovered_non_blank_lines() {
    let source = "a\n\nb\nc\n";
    let p = collect_preamble("f.rs", source, &vec![(3, 4)]).unwrap();
    assert_eq!(p.text, "a\nc");
    assert_eq!((p.start_line, p.end_line), (1, 4));
    assert_eq!(p.item_name, "preamble");
    let q = collect_preamble("f.rs", source, &vec![(4, 6)]).unwrap();
    assert_eq!(q.text, "a\nb");
    assert_eq!((q.start_line, q.end_line), (1, 3));
    assert!(collect_preamble("f.rs", source, &vec![(0, 8)]).is_none());
    assert!(collect_preamble("f.rs", "  \n", &vec![]).is_none());
}

#[test]
fn rust_chunks_follow_the_source_without_overlap() {
    let source = "use a::b;\nfn one() {}\nfn two() {} fn three() {\n    x();\n}\n\nstruct S;\n";
    let chunks = chunk_file("o.rs", source).unwrap();
    let names: Vec<&str> = chunks.iter().map(|c| c.item_name.as_str()).collect();
    assert_eq!(names, vec!["preamble", "one", "two", "three", "S"]);
    let lines = (source.lines().count()).max(1);
    for c in &chunks {
        assert!(1 <= c.start_line && c.start_line <= c.end_line && c.end_line <= lines);
    }
    for w in chunks[1..].windows(2) {
        assert!(w[0].end_line <= w[1].start_line);
    }
    assert_eq!((chunks[2].start_line, chunks[2].end_line), (3, 3));
    assert_eq!((chunks[3].start_line, chunks[3].end_line), (3, 5));
}

#[test]
fn every_non_blank_line_of_a_rust_file_is_kept() {
    let source = "//! Crate docs.\nuse std::fmt;\n\n// a note\nfn f() {\n    g();\n}\n#[cfg(test)]\nmod t {}\n";
    let chunks = chunk_file("k.rs", source).unwrap();
    let preamble = chunks.iter().find(|c| c.item_name == "preamble").unwrap();
    for (i, line) in source.lines().enumerate() {
        if line.trim().is_empty() {
            continue;
        }
        let n = i + 1;
        let in_decl = chunks
            .iter()
            .any(|c| c.item_name != "preamble" && c.start_line <= n && n <= c.end_line);
        let in_preamble = preamble.text.lines().any(|l| l == line);
        assert!(in_decl || in_preamble, "line {} lost", n);
    }
}

#[test]
fn line_offsets_never_pass_the_length_plus_one() {
    let source = "ab\ncd";
    let mut last = 0;
    for i in 0..5 {
        let off = byte_offset_for_line(source, i);
        assert!(last <= off && off <= source.len() + 1);
        last = off;
    }
    assert_eq!(byte_offset_for_line(source, 2), 6);
}
