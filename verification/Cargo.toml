[package]
name = "java_lsp"
version = "0.1.0"
edition = "2021"
publish = false

[dependencies]
lsp-types = "0.97"
serde = { version = "1", features = ["derive"] }
serde_json = "1"
tokio = { version = "1", features = ["rt", "rt-multi-thread", "sync", "macros", "io-util", "io-std"] }
tree-sitter = "0.25"
tree-sitter-java = "0.23"
zip = { version = "2", default-features = false, features = ["deflate"] }
