[package]
name = "draftos"
version = "0.1.0"
edition = "2021"
publish = false

[dependencies]
zip = { version = "2", default-features = false, features = ["deflate"] }
quick-xml = "0.36"
regex = "1"
serde = { version = "1", features = ["derive"] }
serde_json = "1"
anyhow = "1"
thiserror = "1"
clap = { version = "4", features = ["derive"] }
chrono = "0.4"
uuid = { version = "1", features = ["v4"] }
directories = "5"
walkdir = "2"
sha2 = "0.10"
rusqlite = { version = "0.31", features = ["bundled"] }
sqlite-vec = "0.1"
notify = "6"
notify-debouncer-mini = "0.4"
ureq = { version = "2", features = ["json"] }
keyring = { version = "2", default-features = false, features = ["linux-no-secret-service"] }
pdf-extract = "0.7"
tracing = "0.1"
tracing-subscriber = "0.3"
