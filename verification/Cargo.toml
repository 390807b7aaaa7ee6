[package]
name = "mediasort"
version = "0.1.0"
edition = "2021"
publish = false

[dependencies]
anyhow = "=1.0.104"
clap = { version = "=4.6.7", features = ["derive"] }
colored = "=3.1.1"
dotenvy = "=0.15.7"
futures = "=0.3.34"
inquire = "=0.9.4"
reqwest = { version = "=0.13.5", default-features = false, features = ["json", "query"] }
sanitize-filename = "=0.6.0"
serde = { version = "=1.0.229", features = ["derive"] }
tabled = "=0.22.0"
tokio = { version = "=1.53.2", features = ["macros", "rt-multi-thread"] }
walkdir = "=2.5.0"
