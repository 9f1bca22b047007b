[package]
name = "autocompletion_engine_core"
version = "0.1.0"
edition = "2021"
publish = false

[dependencies]
tree-sitter = "0.20"
tree-sitter-css = "0.20"
itertools = "0.10"
serde_json = "1"
log = "0.4"
napi = "2"
napi-derive = "2"
