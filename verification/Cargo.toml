[package]
name = "safemask"
version = "0.1.0"
edition = "2021"
publish = false

[dependencies]
aho-corasick = "=1.1.5"
regex = "=1.13.1"
memchr = "=2.8.3"
bytecount = "=0.6.9"
memmap2 = "*"
crossbeam-channel = "*"
rayon = "*"
walkdir = "*"
serde = { version = "*", features = ["derive"] }
serde_yaml = "*"
clap = { version = "*", features = ["derive"] }
arboard = "*"
