[package]
name = "stract"
version = "0.1.0"
edition = "2021"
publish = false

[dependencies]
bincode = "1.3"
chrono = "0.4"
dashmap = "5"
hashbrown = "0.14"
rand = "0.8"
rocksdb = "0.21"
serde = { version = "1", features = ["derive"] }
thiserror = "1"
url = "2"
uuid = { version = "1", features = ["v4"] }
