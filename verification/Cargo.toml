[package]
name = "xkcd_search"
version = "0.1.0"
edition = "2021"
publish = false

[dependencies]
anyhow = "*"
clap = { version = "*", features = ["derive"] }
crossterm = "*"
futures = "*"
reqwest = { version = "*", default-features = false, features = ["json"] }
serde = { version = "*", features = ["derive"] }
tabled = "*"
tokio = { version = "*", features = ["macros", "rt-multi-thread", "sync"] }
