[package]
name = "trigrep_index"
version = "0.1.0"
edition = "2021"
publish = false

[dependencies]
byteorder = "1"
ignore = "0.4"
memmap2 = "0.9"
rayon = "1"
serde = { version = "1", features = ["derive"] }
serde_json = "1"
thiserror = "*"
