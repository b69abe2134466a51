[package]
name = "qianyan_ime"
version = "0.1.0"
edition = "2021"
publish = false

[dependencies]
arc-swap = "1"
fst = { version = "0.4", features = ["levenshtein"] }
libc = "0.2"
log = "0.4"
memmap2 = "0.9"
rayon = "1"
rodio = { version = "*", default-features = false }
serde = { version = "1", features = ["derive"] }
serde_json = "1"
walkdir = "2"
