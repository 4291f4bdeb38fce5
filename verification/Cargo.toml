[package]
name = "toutates"
version = "0.1.0"
edition = "2021"
publish = false

[dependencies]
arc-swap = "=1.9.3"
async-trait = "=0.1.92"
clap = { version = "=4.6.7", features = ["derive"] }
compio = { version = "=0.19.2", features = ["runtime", "time", "macros"] }
core_affinity = "=0.8.3"
hashbrown = "=0.16.1"
mimalloc = "=0.1.52"
ort = { version = "=2.0.0-rc.11", default-features = false, features = ["std", "load-dynamic", "cuda", "tensorrt"] }
pajamax = "=0.4.0"
prometheus = { version = "=0.14.0", default-features = false }
prost = "=0.13.5"
smallvec = "=1.16.4"
tokio = { version = "=1.54.1", features = ["sync", "macros", "rt", "time"] }
tracing = "=0.1.44"
tracing-subscriber = { version = "=0.3.23", features = ["env-filter"] }
