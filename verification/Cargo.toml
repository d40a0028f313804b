[package]
name = "mpris_ctl"
version = "0.1.0"
edition = "2021"
publish = false

[dependencies]
clap = { version = "4", features = ["derive"] }
mpris = "2"
tokio = { version = "1", features = ["rt-multi-thread", "net", "time", "macros", "io-util"] }
