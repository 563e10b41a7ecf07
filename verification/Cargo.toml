[package]
name = "bank_report"
version = "0.1.0"
edition = "2021"
publish = false

[dependencies]
encoding = "*"
anyhow = "*"
clap = { version = "*", features = ["derive"] }
dotenvy = "*"
log = "*"
log4rs = "*"
sqlx = { version = "*", features = ["sqlite", "runtime-tokio"] }
tokio = { version = "*", features = ["rt-multi-thread", "macros"] }
