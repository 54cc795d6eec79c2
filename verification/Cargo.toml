[package]
name = "card_engine"
version = "0.1.0"
edition = "2021"
publish = false

[dependencies]
rand = "0.8"
log = "0.4"
env_logger = "0.10"
mlua = { version = "0.10", features = ["lua54", "vendored"] }
