[package]
name = "tow_dispatch"
version = "0.1.0"
edition = "2021"
publish = false

[dependencies]
chrono = { version = "*", features = ["serde"] }
serde = { version = "*", features = ["derive"] }
sqlx = { version = "*", default-features = false, features = ["mysql", "runtime-tokio"] }
