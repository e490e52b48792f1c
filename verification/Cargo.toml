[package]
name = "wacker"
version = "0.1.0"
edition = "2021"
publish = false

[dependencies]
sled = "=0.34.7"
rand = "=0.10.3"
wasmparser = "=0.261.0"
anyhow = "*"
async-trait = "*"
bytes = "*"
clap = { version = "*", features = ["derive"] }
dirs = "*"
env_logger = "*"
hyper = { version = "*", features = ["http1", "server"] }
log = "*"
reqwest = { version = "*", default-features = false }
tokio = { version = "*", features = ["full"] }
wasmtime = { version = "=48.0.5", features = ["async", "cache"] }
wasmtime-wasi = "=48.0.5"
wasmtime-wasi-http = "=48.0.5"
