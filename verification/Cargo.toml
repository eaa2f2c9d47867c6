[package]
name = "myailocalmodel"
version = "0.2.0"
edition = "2021"
publish = false

[dependencies]
futures-util = "0.3"
regex = "1"
reqwest = { version = "0.12", default-features = false, features = ["json", "stream", "rustls-tls"] }
serde = { version = "1", features = ["derive"] }
serde_json = "1"
sysinfo = "0.33"
tokio = { version = "1", features = ["fs", "io-util", "rt", "time"] }
wmi = "0.14"
