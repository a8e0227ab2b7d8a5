[package]
name = "splicetcp"
version = "0.1.0"
edition = "2021"
publish = false

[dependencies]
crossbeam-channel = "=0.5.17"
tokio = { version = "=1.54.1", features = ["rt", "rt-multi-thread", "net", "sync", "time", "io-util"] }
socket2 = { version = "=0.5.10", features = ["all"] }
