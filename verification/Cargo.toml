[package]
name = "ixfeed"
version = "0.1.0"
edition = "2021"
publish = false

[dependencies]
feed-rs = "*"
urlencoding = "*"
url = "*"
reqwest = { version = "*", default-features = false, features = ["blocking", "rustls-tls"] }
rusqlite = { version = "*", features = ["bundled"] }
clap = { version = "*", features = ["derive"] }
colored = "*"
dialoguer = "*"
dirs = "*"
