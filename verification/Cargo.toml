[package]
name = "lez_events"
version = "0.1.0"
edition = "2021"
publish = false

[dependencies]
hex = "0.4"
borsh = { version = "1.5.0", features = ["derive"] }
thiserror = "1"
serde = { version = "1", features = ["derive"] }
serde_json = "1"
anyhow = "1"
clap = { version = "4", features = ["derive"] }
tokio = { version = "1", features = ["macros", "rt-multi-thread", "time"] }
reqwest = { version = "0.12", default-features = false, features = ["json"] }
