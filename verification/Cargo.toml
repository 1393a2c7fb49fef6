[package]
name = "fbf_wasm_api"
version = "0.1.0"
edition = "2021"
publish = false

[dependencies]
serde_json = "=1.0.154"
thiserror = "=2.0.21"
