[package]
name = "frontend_analyzer"
version = "0.1.0"
edition = "2021"
rust-version = "1.95"
publish = false

[dependencies]
anyhow = "1"
async-stream = "0.3"
chrono = { version = "0.4", default-features = false, features = ["clock", "std"] }
clap = { version = "4", features = ["derive"] }
glob = "0.3"
libc = "0.2"
lightningcss = { version = "=1.0.0-alpha.72", default-features = false, features = ["serde"] }
oxc_allocator = "=0.143.0"
oxc_ast = { version = "=0.143.0", features = ["serialize"] }
oxc_parser = "=0.143.0"
oxc_resolver = "=11.16.4"
oxc_span = "=0.143.0"
prost-types = "*"
regex = "=1.13.1"
reqwest = { version = "*", default-features = false, features = ["json"] }
serde = { version = "1", features = ["derive"] }
serde_json = { version = "=1.0.154", features = ["arbitrary_precision", "unbounded_depth"] }
serde_yaml = "=0.9.34"
serde_yml = "*"
sha2 = "=0.10.9"
tokio = { version = "1", features = ["full"] }
tokio-stream = { version = "0.1", features = ["net"] }
tonic = "*"
tracing = "0.1"
tracing-subscriber = { version = "0.3", features = ["env-filter"] }
walkdir = "2"
yaml_serde = "*"
