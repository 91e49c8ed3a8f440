[package]
name = "cjs_analysis"
version = "0.1.0"
edition = "2021"
publish = false

[dependencies]
anyhow = "1"
bincode = "2"
rustc-hash = "2"
swc_core = { version = "*", features = ["common", "ecma_ast", "ecma_utils", "ecma_visit"] }
