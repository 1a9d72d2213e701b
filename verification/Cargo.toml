[package]
name = "mime_guess"
version = "0.1.0"
edition = "2021"
publish = false

[dependencies]
mime = "*"
serde = { version = "*", features = ["derive"] }
reqwest = { version = "*", default-features = false, features = ["blocking", "json"] }
