[package]
name = "leansig"
version = "0.1.0"
edition = "2021"
publish = false

[dependencies]
blake3 = "1"
rand = "*"
rayon = "*"
serde = { version = "1", features = ["derive"] }
thiserror = "*"
