[package]
name = "divoom_ditoo"
version = "0.1.0"
edition = "2021"
publish = false

[dependencies]
bluetooth-serial-port = "=0.6.0"
byteorder = "=1.5.0"
chrono = "=0.4.45"
clap = { version = "=4.6.7", features = ["derive"] }
env_logger = "=0.11.11"
hex = "=0.4.3"
image = { version = "=0.25.10", default-features = false, features = ["gif"] }
indexmap = "=2.14.2"
log = "=0.4.35"
tokio = { version = "=1.54.1", features = ["macros", "rt-multi-thread"] }
