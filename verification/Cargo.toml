[package]
name = "auth_core"
version = "0.1.0"
edition = "2021"
publish = false

[dependencies]
hmac = "=0.13.0"
sha2 = "=0.11.0"
actix-web = "*"
actix-http = "*"
actix-web-httpauth = "*"
futures = "*"
futures-util = "*"
chrono = "*"
time = "*"
anyhow = "*"
log = "*"
serde = { version = "*", features = ["derive"] }
sqlx = { version = "*", features = ["sqlite", "runtime-tokio"] }
sea-query = { version = "*", features = ["derive"] }
