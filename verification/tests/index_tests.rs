use rag::chunk::Chunk;
use rag::index::{compile_patterns, external_id, prefix_from, prefixed_path, should_index, source_prefix};

fn strings(v: &[&str]) -> Vec<String> {
    v.iter().map(|s| s.to_string()).collect()
}

#[test]
fn files_are_selected_by_include_and_exclude_patterns() {
    let includes = compile_patterns(&strings(&["**/*.rs", "**/*.md"])).unwrap();
    let excludes = compile_patterns(&strings(&["**/target/**"])).unwrap();
    assert!(should_index("src/lib.rs", &includes, &excludes));
    assert!(should_index("README.md", &includes, &excludes));
    assert!(!should_index("src/data.json", &includes, &excludes));
    assert!(!should_index("target/debug/build.rs", &includes, &excludes));
}

#[test]
fn no_include_patterns_select_every_file_not_excluded() {
    let none = compile_patterns(&Vec::new()).unwrap();
    let excludes = compile_patterns(&strings(&["*.lock"])).unwrap();
    assert!(should_index("anything.bin", &none, &excludes));
    assert!(!should_index("Cargo.lock", &none, &excludes));
}

#[test]
fn an_invalid_pattern_is_reported_by_its_index() {
    assert_eq!(compile_patterns(&strings(&["*.rs", "a[", "b["])).err(), Some(1));
}

#[test]
fn stored_paths_are_prefixed_with_the_directory_name() {
    assert_eq!(prefixed_path("opendata", "vector/src/db.rs"), "opendata/vector/src/db.rs");
    assert_eq!(source_prefix("/Users/rohan/repos/slatedb"), "slatedb");
    assert_eq!(source_prefix("/Users/rohan/repos/slatedb/"), "slatedb");
    assert_eq!(source_prefix("/"), "/");
    assert_eq!(prefix_from("/x/y", None), "/x/y");
    assert_eq!(prefix_from("/x/y", Some("y".to_string())), "y");
}

#[test]
fn chunk_ids_name_file_and_lines() {
    let c = Chunk {
        file_path: "slatedb/src/db.rs".to_string(),
        start_line: 82,
        end_line: 106,
        item_name: "split".to_string(),
        text: "fn split() {}".to_string(),
        language: "rust".to_string(),
    };
    assert_eq!(external_id(&c), "slatedb/src/db.rs:82-106");
}

#[test]
fn chunk_ids_differ_where_places_differ() {
    let mk = |path: &str, s: usize, e: usize| Chunk {
        file_path: path.to_string(),
        start_line: s,
        end_line: e,
        item_name: String::new(),
        text: String::new(),
        language: String::new(),
    };
    let ids = [
        external_id(&mk("a:1", 2, 3)),
        external_id(&mk("a", 1, 23)),
        external_id(&mk("a", 12, 3)),
        external_id(&mk("a:1-2", 3, 0)),
    ];
    for i in 0..ids.len() {
        for j in 0..ids.len() {
            assert_eq!(i == j, ids[i] == ids[j]);
        }
    }
}
