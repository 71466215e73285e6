[package]
name = "corelamo"
version = "0.1.0"
edition = "2021"
publish = false

[dependencies]
sha2 = "0.10"
hex = "0.4"
rand = "0.8"
chrono = "0.4"
memmap2 = "0.9"
serde = { version = "1", features = ["derive"] }
toml = "0.8"
tantivy = "0.22"
