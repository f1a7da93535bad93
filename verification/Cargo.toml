[package]
name = "socketdb"
version = "0.1.0"
edition = "2021"
publish = false

[dependencies]
zstd = "*"
sqlparser = "*"
serde = { version = "*", features = ["derive"] }
prettytable-rs = "*"
flume = "*"
log = "*"
env_logger = "*"
rustyline = "*"
actix = "*"
actix-web = "*"
actix-web-actors = "*"
thiserror = "*"
