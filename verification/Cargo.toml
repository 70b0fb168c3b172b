[package]
name = "bazel_language_server"
version = "0.1.0"
edition = "2021"
publish = false

[dependencies]
anyhow = "*"
arc-swap = "*"
base64 = "*"
clap = { version = "*", features = ["derive"] }
crossbeam-channel = "*"
lsp-server = "*"
lsp-types = "*"
notify = "*"
prost = "*"
rustc-hash = "*"
serde = { version = "*", features = ["derive"] }
serde_json = "*"
shared_child = "*"
starlark-cst = "*"
tracing = "*"
tracing-subscriber = "*"
walkdir = "*"
