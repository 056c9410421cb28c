[package]
name = "rnp"
version = "0.1.0"
edition = "2021"
publish = false

[dependencies]
sha1 = "*"
sha2 = "*"
serde = { version = "*", features = ["derive"] }
serde_json = "*"
clap = { version = "*", features = ["derive"] }
dirs = "*"
flate2 = "*"
tar = "*"
reqwest = { version = "*", default-features = false, features = ["json", "rustls-tls"] }
tokio = { version = "*", features = ["rt-multi-thread", "macros", "sync", "fs"] }
