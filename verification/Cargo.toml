[package]
name = "roblox_luau_env"
version = "0.1.0"
edition = "2021"
publish = false

[dependencies]
base64 = "0.22"
chrono = { version = "0.4", default-features = false, features = ["clock"] }
clap = { version = "4", default-features = false, features = ["std", "help", "usage", "error-context", "derive"] }
ctrlc = "3"
flate2 = "1.0"
mlua = { version = "0.11", features = ["luau"] }
reqwest = { version = "0.12", default-features = false, features = ["blocking", "rustls-tls"] }
serde = { version = "1", features = ["derive"] }
serde_json = "1"
tiny_http = "0.12"
