[package]
name = "panic-persist"
version = "0.3.0"
edition = "2021"
publish = false

[dependencies]
cortex-m = "0.7"
