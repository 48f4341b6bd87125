[package]
name = "on_line_codes"
version = "0.1.0"
edition = "2021"
publish = false

[dependencies]
rand = { version = "0.8", default-features = false, features = ["alloc"] }
rand_core = "0.6"
rand_xoshiro = "0.6"
env_logger = { version = "*", default-features = false }
