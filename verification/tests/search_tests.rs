use rag::search::{format_hit, header, AttributeValue, SearchHit};

fn hit(attrs: Vec<(&str, AttributeValue)>) -> SearchHit {
    SearchHit {
        external_id: "vector/src/db.rs:82-106".to_string(),
        attributes: attrs.into_iter().map(|(k, v)| (k.to_string(), v)).collect(),
    }
}

#[test]
fn a_hit_shows_place_name_and_text() {
    let h = hit(vec![
        ("file_path", AttributeValue::String("vector/src/db.rs".to_string())),
        ("start_line", AttributeValue::Int64(82)),
        ("end_line", AttributeValue::Int64(106)),
        ("item_name", AttributeValue::String("VectorDb::split_centroid".to_string())),
        ("chunk_text", AttributeValue::String("async fn split() {\n    ...\n}".to_string())),
    ]);
    assert_eq!(
        format_hit(&h),
        vec![
            "  File: vector/src/db.rs:82-106",
            "  Item: VectorDb::split_centroid",
            "  ---",
            "  async fn split() {",
            "      ...",
            "  }",
            "  ---",
            "",
        ]
    );
}

#[test]
fn missing_attributes_fall_back() {
    let h = hit(vec![("start_line", AttributeValue::String("x".to_string())), ("end_line", AttributeValue::Int64(-3))]);
    assert_eq!(
        format_hit(&h),
        vec!["  File: vector/src/db.rs:82-106:0--3", "  ---", "  ---", ""]
    );
}

#[test]
fn a_header_shows_rank_and_score() {
    assert_eq!(header(1, "0.9234"), "Result 1 (score: 0.9234)");
    assert_eq!(header(10, "0.1000"), "Result 10 (score: 0.1000)");
}
