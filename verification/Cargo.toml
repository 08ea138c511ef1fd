[package]
name = "yatsuscript"
version = "0.1.0"
edition = "2021"
publish = false

[dependencies]
rustc-hash = "=2.1.3"
rayon = "=1.12.0"
parking_lot = "=0.12.5"
tokio = { version = "=1.54.1", features = ["full"] }
reqwest = { version = "=0.13.5", default-features = false }
rustyline = "=18.0.1"
tower-lsp = "=0.20.0"
dashmap = "=6.2.1"
thiserror = "=2.0.21"
mimalloc = "=0.1.52"
pico-args = "=0.5.0"
async-recursion = "=1.2.0"
cranelift = "=0.128.4"
cranelift-jit = "=0.128.4"
cranelift-module = "=0.128.4"

[dev-dependencies]
logos = "=0.16.1"
