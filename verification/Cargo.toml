[package]
name = "poker_trainer"
version = "0.1.0"
edition = "2021"
publish = false

[dependencies]
clap = { version = "=4.6.7", features = ["derive"] }
rand = "=0.10.3"
ratatui = "=0.30.2"
rs_poker = { version = "=5.0.0", default-features = false }
serde = { version = "1", features = ["derive"] }
serde_json = "=1.0.154"
toml = "1"
wasm-bindgen = "0.2"
