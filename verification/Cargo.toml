[package]
name = "chainsaw"
version = "0.1.0"
edition = "2021"
publish = false

[dependencies]
bitcode = { version = "*", features = ["serde"] }
clap = { version = "*", features = ["derive"] }
crossbeam-queue = "*"
dashmap = "*"
rayon = "*"
serde = { version = "*", features = ["derive"] }
serde_json = "*"
swc_common = "*"
swc_ecma_ast = "*"
swc_ecma_parser = "*"
