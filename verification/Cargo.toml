[package]
name = "syncron"
version = "0.1.0"
edition = "2021"
publish = false

[dependencies]
chrono = "*"
getrandom = "*"
serde = { version = "*", features = ["derive"] }
serde_json = "*"
sqlx = { version = "*", default-features = false, features = ["sqlite", "runtime-tokio"] }
rocket = { version = "*", features = ["json"] }
reqwest = { version = "*", default-features = false }
tokio = { version = "*", features = ["full"] }
tokio-stream = "*"
tokio-util = { version = "*", features = ["io"] }
nix = { version = "*", features = ["user"] }
serde_sqlite_jsonb = "*"
figment = "*"
