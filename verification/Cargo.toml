[package]
name = "rag"
version = "0.1.0"
edition = "2021"
publish = false

[dependencies]
tree-sitter = "*"
tree-sitter-rust = "*"
glob = "*"
serde = { version = "1", features = ["derive"] }
serde_yaml = "*"
clap = { version = "4", features = ["derive"] }
tokio = { version = "1", features = ["macros", "rt-multi-thread", "time"] }
reqwest = { version = "0.12", default-features = false, features = ["json", "rustls-tls"] }
walkdir = "*"
anyhow = "1"
