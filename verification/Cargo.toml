[package]
name = "brane"
version = "0.1.0"
edition = "2021"
publish = false

[dependencies]
serde = { version = "1", features = ["derive"] }
serde_json = "1"
thiserror = "2"
clap = { version = "4", features = ["derive"] }
notify = "*"
libloading = "0.8"
websocket = { version = "0.27", default-features = false, features = ["sync"] }
syn = { version = "2", features = ["full"] }
quote = "1"
proc-macro2 = "1"
