[package]
name = "yaso"
version = "0.1.0"
edition = "2021"
publish = false

[dependencies]
clap = { version = "4", features = ["derive"] }
rquickjs = { version = "0.6", features = ["macro", "loader", "futures"] }
tokio = { version = "1", features = ["macros", "rt-multi-thread"] }
