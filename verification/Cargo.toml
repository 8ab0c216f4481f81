[package]
name = "unity_asset_graph"
version = "0.1.0"
edition = "2021"
publish = false

[dependencies]
regex = "*"
uuid = "*"
serde = { version = "*", features = ["derive"] }
serde_json = "*"
rmp-serde = "*"
clap = { version = "*", features = ["derive"] }
tree-sitter = "*"
tree-sitter-c-sharp = "*"
ansi_term = "*"
const_format = "*"
