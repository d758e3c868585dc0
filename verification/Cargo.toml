[package]
name = "novelty"
version = "0.1.0"
edition = "2021"
publish = false

[dependencies]
shakmaty = "=0.27.3"
urlencoding = "=2.1.3"
chrono = "=0.4.45"
serde = { version = "=1.0.229", features = ["derive"] }
serde_json = "=1.0.154"
reqwest = { version = "=0.13.5", default-features = false, features = ["blocking", "json"] }
tokio = { version = "=1.54.1", features = ["rt-multi-thread", "net", "io-util", "time"] }
ruci = { version = "=2.1.0", features = ["engine-sync"] }
zip = { version = "=9.2.2", default-features = false, features = ["deflate"] }
tar = "=0.4.46"
