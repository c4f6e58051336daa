[package]
name = "throw-trace"
version = "0.1.0"
edition = "2021"
publish = false

[dependencies]
petgraph = "=0.8.3"
sha2 = "=0.11.1"
hex = "=0.4.3"
serde = { version = "=1.0.229", features = ["derive"] }
serde_json = "=1.0.154"
oxc_allocator = "=0.143.0"
oxc_ast = "=0.143.0"
oxc_ast_visit = "=0.143.0"
oxc_parser = "=0.143.0"
oxc_span = "=0.143.0"
oxc_syntax = "=0.143.0"
anyhow = "=1.0.104"
clap = { version = "=4.6.7", features = ["derive"] }
globset = "=0.4.21"
ignore = "=0.4.34"
jsonc-parser = { version = "=0.34.0", features = ["serde"] }
tempfile = "=3.27.0"
thiserror = "=2.0.21"
