[package]
name = "rle_vec"
version = "0.4.1"
edition = "2021"
publish = false

[dependencies]
gapbuf = "*"
serde = { version = "1", features = ["derive"] }
