//! The configuration of indexing and search, and the vector store settings
//! derived from it.

use vstd::prelude::*;

verus! {

/// A directory to index, with the glob patterns that select its files.
#[derive(Debug, Clone)]
pub struct SourceDir {
    pub path: String,
    /// File patterns to include (e.g. `["**/*.rs", "**/*.md"]`).
    pub include_patterns: Vec<String>,
    /// File patterns to exclude (e.g. `["**/target/**"]`).
    pub exclude_patterns: Vec<String>,
}

/// The whole configuration, as the configuration file gives it.
#[derive(Debug)]
pub struct RagConfig {
    /// S3 bucket name (used together with `s3_region`).
    pub s3_bucket: Option<String>,
    /// S3 region (used together with `s3_bucket`).
    pub s3_region: Option<String>,
    /// The path prefix of the store.
    pub s3_path: String,
    /// Local object store path, used when no S3 bucket and region are given.
    pub local_path: Option<String>,
    /// Source directories to index.
    pub source_dirs: Vec<SourceDir>,
    /// Embedding model name.
    pub voyage_model: String,
    /// Embedding dimensions.
    pub dimensions: u16,
    /// Batch size for embedding requests.
    pub embed_batch_size: usize,
}

/// The embedding model used when the configuration names none.
pub fn default_voyage_model() -> (m: String)
    ensures
        m@ == "voyage-code-3"@,
{
    "voyage-code-3".to_owned()
}

/// The embedding dimensions used when the configuration gives none.
pub fn default_dimensions() -> (d: u16)
    ensures
        d == 1024,
{
    1024
}

/// The embedding batch size used when the configuration gives none.
pub fn default_embed_batch_size() -> (n: usize)
    ensures
        n == 128,
{
    128
}

/// Where the vector store keeps its objects.
#[derive(Debug)]
pub enum ObjectStoreConfig {
    Aws { region: String, bucket: String },
    Local { path: String },
}

/// The store: its path prefix and object store.
#[derive(Debug)]
pub struct StorageConfig {
    pub path: String,
    pub object_store: ObjectStoreConfig,
    /// A settings file for the store, if any.
    pub settings_path: Option<String>,
}

/// How vectors are compared.
#[derive(Debug, PartialEq, Eq, Clone, Copy)]
pub enum DistanceMetric {
    Cosine,
}

/// The type of a metadata field.
#[derive(Debug, PartialEq, Eq, Clone, Copy)]
pub enum FieldType {
    String,
    Int64,
}

/// A metadata field that each vector carries.
#[derive(Debug)]
pub struct MetadataFieldSpec {
    pub name: String,
    pub field_type: FieldType,
    pub indexed: bool,
}

/// The settings of the vector store that holds the index.
#[derive(Debug)]
pub struct VectorConfig {
    pub storage: StorageConfig,
    pub dimensions: u16,
    pub distance_metric: DistanceMetric,
    /// Seconds between flushes.
    pub flush_interval_secs: u64,
    pub metadata_fields: Vec<MetadataFieldSpec>,
}

/// The object store the configuration selects: S3 when both a bucket and a
/// region are given, else the local path, else `.data`; as
/// `(is_aws, region or path, bucket)`.
pub open spec fn selected_store(c: &RagConfig) -> (bool, Seq<char>, Seq<char>) {
    match (c.s3_bucket, c.s3_region) {
        (Some(bucket), Some(region)) => (true, region@, bucket@),
        _ => match c.local_path {
            Some(p) => (false, p@, seq![]),
            None => (false, ".data"@, seq![]),
        },
    }
}

/// The store a `StorageConfig` describes, in the form of `selected_store`.
pub open spec fn store_of(s: &StorageConfig) -> (bool, Seq<char>, Seq<char>) {
    match s.object_store {
        ObjectStoreConfig::Aws { region, bucket } => (true, region@, bucket@),
        ObjectStoreConfig::Local { path } => (false, path@, seq![]),
    }
}

/// The metadata fields of every indexed chunk, in order: name and type.
pub open spec fn chunk_metadata_fields() -> Seq<(Seq<char>, FieldType)> {
    seq![
        ("file_path"@, FieldType::String),
        ("start_line"@, FieldType::Int64),
        ("end_line"@, FieldType::Int64),
        ("item_name"@, FieldType::String),
        ("chunk_text"@, FieldType::String),
        ("language"@, FieldType::String),
    ]
}

fn field(name: &str, field_type: FieldType) -> (f: MetadataFieldSpec)
    ensures
        f.name@ == name@,
        f.field_type == field_type,
        !f.indexed,
{
    MetadataFieldSpec { name: name.to_owned(), field_type, indexed: false }
}

impl RagConfig {
    /// The vector store settings: the selected object store under the path
    /// prefix `s3_path` with no settings file, the configured dimensions,
    /// cosine distance, a flush every 60 seconds, and the six metadata fields
    /// of a chunk, none indexed.
    pub fn to_vector_config(&self) -> (v: VectorConfig)
        ensures
            v.storage.path@ == self.s3_path@,
            v.storage.settings_path is None,
            store_of(&v.storage) == selected_store(self),
            v.dimensions == self.dimensions,
            v.distance_metric == DistanceMetric::Cosine,
            v.flush_interval_secs == 60,
            v.metadata_fields@.len() == chunk_metadata_fields().len(),
            forall|k: int|
                0 <= k < v.metadata_fields@.len() ==> (#[trigger] v.metadata_fields@[k]).name@
                    == chunk_metadata_fields()[k].0 && v.metadata_fields@[k].field_type
                    == chunk_metadata_fields()[k].1 && !v.metadata_fields@[k].indexed,
    {
        let object_store = match (&self.s3_bucket, &self.s3_region) {
            (Some(bucket), Some(region)) => ObjectStoreConfig::Aws {
                region: region.clone(),
                bucket: bucket.clone(),
            },
            _ => match &self.local_path {
                Some(p) => ObjectStoreConfig::Local { path: p.clone() },
                None => ObjectStoreConfig::Local { path: ".data".to_owned() },
            },
        };
        let mut fields: Vec<MetadataFieldSpec> = Vec::new();
        fields.push(field("file_path", FieldType::String));
        fields.push(field("start_line", FieldType::Int64));
        fields.push(field("end_line", FieldType::Int64));
        fields.push(field("item_name", FieldType::String));
        fields.push(field("chunk_text", FieldType::String));
        fields.push(field("language", FieldType::String));
        VectorConfig {
            storage: StorageConfig { path: self.s3_path.clone(), object_store, settings_path: None },
            dimensions: self.dimensions,
            distance_metric: DistanceMetric::Cosine,
            flush_interval_secs: 60,
            metadata_fields: fields,
        }
    }
}

} // verus!
