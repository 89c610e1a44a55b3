[package]
name = "toggl_sync"
version = "0.1.0"
edition = "2021"
publish = false

[dependencies]
anyhow = "=1.0.104"
chrono = "=0.4.45"
clap = { version = "=4.6.7", features = ["derive"] }
colored = "=3.1.1"
humantime = "=2.4.0"
inquire = { version = "=0.9.4", features = ["date"] }
reqwest = { version = "=0.13.5", default-features = false, features = ["json", "query"] }
savefile = "=0.20.5"
savefile-derive = "=0.20.5"
serde = { version = "=1.0.229", features = ["derive"] }
tokio = { version = "=1.53.2", features = ["rt-multi-thread", "macros"] }
