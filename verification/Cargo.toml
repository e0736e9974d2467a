[package]
name = "jvmfast"
version = "0.1.0"
edition = "2021"
publish = false

[dependencies]
sha2 = "0.10"
sha1 = "0.10"
toml_edit = "0.22"
toml = "0.8"
serde = { version = "1", features = ["derive"] }
serde_json = "1"
thiserror = "1"
clap = { version = "4", features = ["derive"] }
tokio = { version = "1", features = ["rt-multi-thread", "macros", "sync"] }
reqwest = { version = "0.12", default-features = false }
rusqlite = { version = "0.31", features = ["bundled"] }
flate2 = "1"
tar = "0.4"
