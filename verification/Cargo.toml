[package]
name = "arb_engine"
version = "0.1.0"
edition = "2021"
publish = false

[dependencies]
dashmap = "6"
alloy = { version = "1", default-features = false, features = ["std", "contract", "provider-http", "reqwest"] }
tokio = { version = "1", features = ["rt-multi-thread", "macros", "sync"] }
eyre = "0.6"
serde = { version = "1", features = ["derive"] }
serde_json = "1"
reqwest = { version = "0.12", default-features = false, features = ["json"] }
dotenv = "0.15"
