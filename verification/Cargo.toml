[package]
name = "gitita"
version = "0.1.0"
edition = "2021"
publish = false

[dependencies]
clap = "4"
pulldown-cmark = { version = "0.12", default-features = false }
serde = { version = "1", features = ["derive"] }
serde_yaml = "0.9"
serde_json = "1"
reqwest = { version = "0.12", default-features = false, features = ["json", "multipart"] }
tokio = { version = "1", features = ["rt-multi-thread"] }
dotenvy = "0.15"
mime_guess = "2"
