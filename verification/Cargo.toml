[package]
name = "krust"
version = "0.1.0"
edition = "2021"
publish = false

[dependencies]
cortex-m = "0.7"
cortex-m-semihosting = "0.5"
lazy_static = { version = "1", features = ["spin_no_std"] }
spin = "0.9"
