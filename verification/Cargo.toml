[package]
name = "ducklake_batches"
version = "0.1.0"
edition = "2021"
publish = false

[dependencies]
chrono = "0.4"
duckdb = { version = "*", features = ["appender-arrow"] }
metrics = "*"
parking_lot = "0.12"
pg_escape = "*"
r2d2 = "0.8"
rand = "0.9"
serde_json = "1"
sqlx = { version = "*", default-features = false, features = ["postgres", "runtime-tokio"] }
tokio = { version = "1", features = ["rt", "sync", "time"] }
tracing = "0.1"
uuid = "1"
