[package]
name = "chunkah"
version = "0.1.0"
edition = "2021"
publish = false

[dependencies]
anyhow = "*"
camino = "=1.2.6"
cap-std = "=4.0.3"
cap-std-ext = "=5.1.2"
chrono = "*"
clap = { version = "*", features = ["derive"] }
ctrlc = "*"
flate2 = "*"
indexmap = "*"
libc = "*"
ocidir = "=0.8.0"
rpm-qa = "=0.3.1"
serde = { version = "*", features = ["derive"] }
serde_json = "*"
tar = "*"
tracing = "*"
tracing-subscriber = { version = "*", features = ["env-filter"] }
