[package]
name = "cross_domain_log_intel"
version = "0.1.0"
edition = "2021"
publish = false

[dependencies]
regex = "1"
chrono = "0.4"
anyhow = "1"
serde = { version = "1", features = ["derive"] }
serde_json = "1"
serde_yaml = "0.9"
dirs = "5"
once_cell = "1"
ssh2 = "0.9"
actix-web = { version = "4", default-features = false, features = ["macros"] }
actix-multipart = { version = "0.6", default-features = false }
futures-util = "0.3"
uuid = { version = "1", features = ["v4"] }
