[package]
name = "wptfyi"
version = "0.1.0"
edition = "2021"
publish = false

[dependencies]
url = "*"
serde = { version = "*", features = ["derive"] }
serde_json = "*"
reqwest = { version = "*", default-features = false, features = ["blocking"] }
time = { version = "*", features = ["serde-well-known", "formatting", "parsing"] }
csv = "*"
anyhow = "*"
thiserror = "*"
