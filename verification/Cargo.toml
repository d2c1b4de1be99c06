[package]
name = "preopt"
version = "0.1.0"
edition = "2021"
publish = false

[dependencies]
cranelift-wasm = "0.40.0"
