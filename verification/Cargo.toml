[package]
name = "docsrs"
version = "0.1.0"
edition = "2021"
publish = false

[dependencies]
clap = { version = "4", features = ["derive"] }
fuzzy-matcher = "0.3"
rustdoc-types = "*"
serde_json = "1"
thiserror = "2"
ureq = "3"
url = "2"
zstd = "0.13"
