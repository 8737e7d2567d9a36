[package]
name = "rs_agent"
version = "0.1.0"
edition = "2021"
publish = false

[dependencies]
anyhow = "*"
async-trait = "*"
base64 = "*"
chrono = { version = "*", features = ["serde"] }
futures = "*"
parking_lot = "*"
reqwest = { version = "*", default-features = false, features = ["json"] }
serde = { version = "*", features = ["derive"] }
serde_json = "*"
thiserror = "*"
toon-format = "*"
uuid = { version = "*", features = ["serde", "v4"] }
