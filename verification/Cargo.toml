[package]
name = "appvkek"
version = "0.1.0"
edition = "2021"
publish = false

[dependencies]
clap = { version = "*", features = ["derive"] }
evmscan = "*"
futures = "*"
tokio = { version = "*", features = ["macros", "rt-multi-thread"] }
web3 = { version = "*", default-features = false, features = ["http"] }
