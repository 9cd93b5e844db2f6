[package]
name = "taskforceai"
version = "0.1.0"
edition = "2021"
publish = false

[dependencies]
reqwest = { version = "*", default-features = false, features = ["json", "stream", "multipart"] }
tokio = { version = "*", features = ["rt", "time", "macros"] }
futures-util = "*"
serde = { version = "*", features = ["derive"] }
serde_json = "*"
thiserror = "*"
bytes = "*"
chrono = { version = "*", features = ["serde"] }
