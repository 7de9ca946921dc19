[package]
name = "codepacker"
version = "0.1.0"
edition = "2021"
publish = false

[dependencies]
anyhow = "1"
glob = "0.3"
ignore = "0.4"
serde = { version = "1", features = ["derive"] }
tokio = { version = "1", features = ["fs", "rt"] }
tree-sitter = "*"
tree-sitter-go = "*"
tree-sitter-javascript = "*"
tree-sitter-python = "*"
tree-sitter-rust = "*"
tree-sitter-typescript = "*"
uuid = { version = "1", features = ["v4"] }
