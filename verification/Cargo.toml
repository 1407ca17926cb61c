[package]
name = "rye"
version = "0.1.0"
edition = "2021"
publish = false

[dependencies]
async-trait = "=0.1.92"
clap = { version = "=4.6.7", features = ["derive"] }
crossterm = "=0.29.0"
dirs = "=7.0.0"
futures = "=0.3.34"
reqwest = { version = "=0.12.28", default-features = false, features = ["json", "stream", "rustls-tls"] }
serde = { version = "=1.0.229", features = ["derive"] }
serde_json = "=1.0.154"
skim = "=0.16.2"
termimad = "=0.35.5"
tokio = { version = "=1.54.1", features = ["macros", "rt-multi-thread"] }
uuid = { version = "=1.29.0", features = ["v4"] }
