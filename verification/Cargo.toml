[package]
name = "diskern-core"
version = "0.1.0"
edition = "2021"
publish = false

[dependencies]
blake3 = { version = "1", features = ["mmap", "rayon"] }
clap = { version = "4", features = ["derive"] }
globset = "0.4"
jwalk = "0.8"
petgraph = "0.6"
rayon = "1"
serde = { version = "1", features = ["derive"] }
serde_json = "1"
tempfile = "3"
