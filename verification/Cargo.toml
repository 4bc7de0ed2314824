[package]
name = "rspack_split_chunks"
version = "0.1.0"
edition = "2021"
publish = false

[dependencies]
petgraph = "*"
xxhash-rust = { version = "*", features = ["xxh3"] }
md4 = "*"
serde = { version = "1", features = ["derive"] }
swc_core = { version = "*", features = ["ecma_ast", "ecma_visit", "common"] }
napi = "*"
napi-derive = "*"
