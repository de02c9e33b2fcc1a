[package]
name = "log_shipper"
version = "0.1.0"
edition = "2021"
publish = false

[dependencies]
notify = "=6.1.1"
reqwest = { version = "=0.12.28", features = ["json"] }
tokio = { version = "=1.54.1", features = ["rt-multi-thread", "macros", "sync", "time", "signal", "fs", "io-util"] }
