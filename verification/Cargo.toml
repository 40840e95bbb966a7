[package]
name = "selfplay"
version = "0.1.0"
edition = "2021"
publish = false

[dependencies]
rand = "*"
rand_distr = "*"
serde = { version = "*", features = ["derive"] }
