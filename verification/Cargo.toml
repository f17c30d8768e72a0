[package]
name = "forgeql_storage"
version = "0.1.0"
edition = "2021"
publish = false

[dependencies]
roaring = "0.10"
fst = "0.4"
regex = "1"
sha1 = "0.10"
sha2 = "0.10"
anyhow = "1"
bincode = "1.3"
memmap2 = "0.9"
serde = { version = "1", features = ["derive"] }
serde_json = "1"
tracing = "0.1"

[dev-dependencies]
tempfile = "3"
