[package]
name = "stellaris_tech_tree"
version = "0.1.0"
edition = "2021"
publish = false

[dependencies]
anyhow = "1"
inquire = "*"
itertools = "*"
jomini = "*"
log = "0.4"
log4rs = "1"
measure_time = "*"
memmap2 = "*"
mimalloc = "*"
rayon = "1"
regex = "1"
serde = { version = "1", features = ["derive"] }
serde_json = "1"
simd-json = "*"
tokio = { version = "1", features = ["fs", "io-util", "macros", "rt-multi-thread"] }
tokio-stream = { version = "0.1", features = ["fs"] }
walkdir = "2"
