[package]
name = "halo"
version = "0.1.0"
edition = "2021"
publish = false

[dependencies]
chrono = "0.4"
serde = { version = "1", features = ["derive"] }
serde_json = "1"
anyhow = "1"
reqwest = { version = "0.12", default-features = false, features = ["json", "stream", "rustls-tls"] }
tokio = { version = "1", features = ["rt-multi-thread", "macros", "fs", "io-util", "sync", "time"] }
futures-util = "0.3"
uuid = { version = "1", features = ["v4"] }
hound = "3"
cpal = "0.15"
symphonia = { version = "0.5", features = ["all"] }
