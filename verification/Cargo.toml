[package]
name = "drivel"
version = "0.1.0"
edition = "2021"
publish = false

[dependencies]
chrono = "0.4"
clap = { version = "4", features = ["derive"] }
fake = { version = "2.9", features = ["chrono"] }
jemallocator = "0.5"
rand = "0.8"
rayon = "1"
regex = "1"
serde_json = "1"
url = "2"
uuid = { version = "1", features = ["v4"] }
