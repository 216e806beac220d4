# rag

Semantic code search over source repositories: files are split into chunks,
the chunks are embedded and written to a vector store, and queries are
answered from it.

`src/` is the verified library:

- `chunk`: splitting a file into chunks (Rust by top-level declaration,
  markdown by heading, anything else whole), truncation and blank filtering.
- `declarations`, `preamble`: Rust chunking over the syntax tree, and the
  lines no declaration covers.
- `syntax`: the plain model of tree-sitter's syntax tree and the calls that
  produce it.
- `markdown_laws`: what every markdown chunking satisfies.
- `text`, `number`: line splitting, trimming, UTF-8 byte lengths and offsets,
  decimal notation.
- `config`: the configuration and the vector store settings derived from it.
- `embed`: when an embedding request is retried, and how texts are batched.
- `index`: which files are indexed, their stored paths, and chunk ids.
- `search`: how a search hit is shown.

`app/` holds the command line program: reading the configuration file and
the environment, walking directories, HTTP requests to the embedding
service, and the vector store.
