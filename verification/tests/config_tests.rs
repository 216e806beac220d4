use rag::config::{
    default_dimensions, default_embed_batch_size, default_voyage_model, DistanceMetric, FieldType,
    ObjectStoreConfig, RagConfig,
};

fn config(bucket: Option<&str>, region: Option<&str>, local: Option<&str>) -> RagConfig {
    RagConfig {
        s3_bucket: bucket.map(|s| s.to_string()),
        s3_region: region.map(|s| s.to_string()),
        s3_path: "rag-index".to_string(),
        local_path: local.map(|s| s.to_string()),
        source_dirs: Vec::new(),
        voyage_model: default_voyage_model(),
        dimensions: default_dimensions(),
        embed_batch_size: default_embed_batch_size(),
    }
}

#[test]
fn defaults_match_the_documented_configuration() {
    assert_eq!(default_voyage_model(), "voyage-code-3");
    assert_eq!(default_dimensions(), 1024);
    assert_eq!(default_embed_batch_size(), 128);
}

#[test]
fn s3_is_used_when_bucket_and_region_are_given() {
    let v = config(Some("opendata-rag"), Some("us-east-1"), Some("/tmp/x")).to_vector_config();
    assert_eq!(v.storage.path, "rag-index");
    assert_eq!(v.storage.settings_path, None);
    match v.storage.object_store {
        ObjectStoreConfig::Aws { region, bucket } => {
            assert_eq!(region, "us-east-1");
            assert_eq!(bucket, "opendata-rag");
        }
        other => panic!("unexpected store {:?}", other),
    }
    assert_eq!(v.dimensions, 1024);
    assert_eq!(v.distance_metric, DistanceMetric::Cosine);
    assert_eq!(v.flush_interval_secs, 60);
}

#[test]
fn a_local_path_is_used_without_full_s3_settings() {
    let v = config(Some("opendata-rag"), None, Some("/tmp/rag-data")).to_vector_config();
    match v.storage.object_store {
        ObjectStoreConfig::Local { path } => assert_eq!(path, "/tmp/rag-data"),
        other => panic!("unexpected store {:?}", other),
    }
}

#[test]
fn the_data_directory_is_the_last_resort() {
    let v = config(None, Some("us-east-1"), None).to_vector_config();
    match v.storage.object_store {
        ObjectStoreConfig::Local { path } => assert_eq!(path, ".data"),
        other => panic!("unexpected store {:?}", other),
    }
}

#[test]
fn every_chunk_attribute_is_a_metadata_field() {
    let v = config(None, None, None).to_vector_config();
    let fields: Vec<(&str, FieldType, bool)> = v
        .metadata_fields
        .iter()
        .map(|f| (f.name.as_str(), f.field_type, f.indexed))
        .collect();
    assert_eq!(
        fields,
        vec![
            ("file_path", FieldType::String, false),
            ("start_line", FieldType::Int64, false),
            ("end_line", FieldType::Int64, false),
            ("item_name", FieldType::String, false),
            ("chunk_text", FieldType::String, false),
            ("language", FieldType::String, false),
        ]
    );
}
