[package]
name = "journal_rs"
version = "0.1.0"
edition = "2021"
publish = false

[dependencies]
anyhow = "1"
base64 = "0.22"
chrono = "0.4"
clap = { version = "4", features = ["derive", "env"] }
fancy-regex = "*"
libc = "0.2"
rmcp = { version = "*", features = ["server", "transport-io", "macros"] }
rusqlite = { version = "*", features = ["bundled"] }
serde = { version = "1", features = ["derive"] }
serde_json = "1"
tempfile = "3"
tokio = { version = "1", features = ["rt-multi-thread", "macros"] }
unicode-segmentation = "1"
uuid = { version = "1", features = ["v4"] }
