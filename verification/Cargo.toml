[package]
name = "hydra"
version = "0.1.0"
edition = "2021"
publish = false

[dependencies]
memchr = "=2.8.3"
serde_json = "=1.0.154"
tokio = { version = "=1.54.1", features = ["rt-multi-thread", "net", "io-util", "sync", "time", "fs", "macros"] }
clap = { version = "=4.6.7", features = ["derive"] }
clap_complete = "=4.6.11"
dirs = "=7.0.0"
iced = { version = "=0.14.0", default-features = false, features = ["x11", "tiny-skia", "svg", "tokio"] }
winreg = "=0.56.0"
