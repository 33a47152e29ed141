[package]
name = "rstar"
version = "0.1.0"
edition = "2021"
publish = false

[dependencies]
heapless = "0.8"
pdqselect = "0.1"
smallvec = "1"
num-traits = "0.2"
serde = { version = "1", features = ["derive"] }
threadpool = "1"

[dev-dependencies]
rand = "0.8"
rand_hc = "0.3"
