[package]
name = "fxrates"
version = "0.1.0"
edition = "2021"
publish = false

[dependencies]
sled = "0.34"
serde = { version = "1", features = ["derive"] }
serde_json = "1"
serde-xml-rs = "*"
hyper = { version = "0.14", features = ["client", "http1", "tcp"] }
hyper-rustls = "0.24"
tokio = { version = "1", features = ["macros", "rt-multi-thread", "time"] }
warp = "0.3"
log = "0.4"
env_logger = "*"

[dev-dependencies]
tempfile = "3"
