[package]
name = "word_doc_qa"
version = "0.1.0"
edition = "2021"
publish = false

[dependencies]
anyhow = "=1.0.104"
bincode = { version = "=2.0.0-rc.3", default-features = false, features = ["alloc", "serde"] }
burn = { version = "=0.13.2", default-features = false, features = ["std"] }
clap = { version = "=4.6.7", features = ["derive"] }
quick-xml = "=0.31.0"
regex = "=1.13.1"
tokenizers = { version = "=0.15.2", default-features = false, features = ["onig"] }
zip = { version = "=0.6.6", default-features = false, features = ["deflate"] }
