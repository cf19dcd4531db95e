[package]
name = "yassg"
version = "0.1.0"
edition = "2021"
publish = false

[dependencies]
anyhow = "=1.0.104"
clap = { version = "=4.6.7", features = ["derive"] }
latex2mathml = "=0.2.3"
mlua = { version = "=0.12.2", features = ["lua54", "vendored"] }
regex = "=1.13.1"
toml = { version = "=1.1.8", features = ["preserve_order"] }
