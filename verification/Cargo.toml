[package]
name = "loadcast"
version = "0.1.0"
edition = "2021"
publish = false

[dependencies]
axum = { version = "0.6", features = ["ws"] }
serde_json = "1"
sysinfo = "0.29"
tokio = { version = "1", features = ["fs", "macros", "net", "rt-multi-thread", "time"] }
