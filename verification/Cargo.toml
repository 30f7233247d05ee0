[package]
name = "crash_model"
version = "0.1.0"
edition = "2021"
publish = false

[dependencies]
parity-db = { version = "=0.5.7", features = ["instrumentation"] }
libfuzzer-sys = "=0.4.13"
arbitrary = { version = "=1.5.0", features = ["derive"] }
