[package]
name = "columnar_exec"
version = "0.1.0"
edition = "2021"
publish = false

[dependencies]
ahash = "0.8"
arrow = { version = "*", default-features = false }
arrow-ord = "*"
futures = "0.3"
hashbrown = "0.16"
tokio = { version = "1", features = ["rt", "rt-multi-thread", "sync"] }
