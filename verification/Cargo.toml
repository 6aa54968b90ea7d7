[package]
name = "compgraph"
version = "0.1.0"
edition = "2021"

[dependencies]
env_logger = "*"
log = "0.4"

[dev-dependencies]
proptest = "1"
