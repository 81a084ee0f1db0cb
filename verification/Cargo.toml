[package]
name = "slides_indexer"
version = "0.1.0"
edition = "2021"
publish = false

[dependencies]
flate2 = "1"
globwalk = "0.8"
hex = "0.4"
regex = "1"
serde = { version = "1", features = ["derive"] }
serde_json = "1"
sha1 = "0.10"
sha2 = "0.10"
tempfile = "3"
thiserror = "1"
zip = "0.6"
