[package]
name = "rockdown"
version = "0.1.0"
edition = "2021"
publish = false

[dependencies]
anyhow = "1"
image = "0.25"
libc = "0.2"
portable-pty = "0.9"
pulldown-cmark = "0.13"
regex = "1"
serde = { version = "1", features = ["derive"] }
serde_json = "1"
sha2 = "0.10"
syntect = "5"
tempfile = "3"
toml = "0.8"
unicode-segmentation = "1"
vt100 = "0.16"
