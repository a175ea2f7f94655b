[package]
name = "maplestory_union_solver_wasm"
version = "0.1.0"
edition = "2021"
publish = false

[dependencies]
rand = "0.10"
rand_xoshiro = "0.8"
rand_distr = "0.6"
web-time = "1"
serde = { version = "1", features = ["derive"] }
serde_json = "1"
thiserror = "2"
clap = { version = "4", features = ["derive"] }
flate2 = "1"
