[package]
name = "mlmd-core"
version = "0.1.0"
edition = "2021"
publish = false

[dependencies]
serde = { version = "=1.0.229", features = ["derive"] }
serde_json = "=1.0.154"
anyhow = "=1.0.104"
clap = { version = "=4.6.7", features = ["derive"] }
tokio = { version = "=1.54.1", features = ["rt-multi-thread", "io-std", "macros"] }
tower-lsp = "=0.20.0"
libloading = "=0.8.9"
wasmtime = "=36.0.20"
