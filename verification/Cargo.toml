[package]
name = "guesswho"
version = "0.1.0"
edition = "2021"
publish = false

[dependencies]
anyhow = "1"
axum = { version = "0.8", features = ["ws", "multipart"] }
bytes = "1"
markdown = "*"
mime_guess = "2"
pin-project = "1"
rand = "0.9"
serde = { version = "1", features = ["derive"] }
serde_json = "1"
tokio = { version = "1", features = ["macros", "rt-multi-thread", "net", "sync", "time"] }
zip = { version = "*", default-features = false, features = ["deflate"] }
