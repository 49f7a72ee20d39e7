[package]
name = "treebrief"
version = "0.1.0"
edition = "2021"
publish = false

[dependencies]
serde_json = "1"
serde = { version = "1", features = ["derive"] }
tokio = { version = "1", features = ["macros", "rt-multi-thread", "sync"] }
warp = "0.3"
reqwest = { version = "0.11", default-features = false, features = ["json"] }
futures = "0.3"
dotenv = "0.15"
