[package]
name = "ledger-sim"
version = "0.1.0"
edition = "2021"
publish = false

[dependencies]
blake3 = "=1.8.7"
futures = "=0.3.34"
getrandom = { version = "=0.4.3", features = ["sys_rng"] }
libc = "=0.2.191"
rand_chacha = "=0.10.0"
rand_core = "=0.10.1"
thiserror = "=2.0.21"
tokio = { version = "=1.54.1", features = ["rt", "time", "io-util"] }
walkdir = "=2.5.0"
wasmtime = { version = "46", default-features = false, features = ["runtime", "cranelift", "std", "rr", "async", "component-model"] }
wasmtime-wasi = { version = "46", default-features = false, features = ["p1"] }
