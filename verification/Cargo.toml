[package]
name = "koutput_reads"
version = "0.1.0"
edition = "2021"
publish = false

[dependencies]
aho-corasick = "1"
anyhow = "1"
extendr-api = "*"
libdeflater = "1"
pprof = { version = "*", features = ["flamegraph"] }
rustc-hash = "2"
