[package]
name = "solver_2x2"
version = "0.1.0"
edition = "2021"
publish = false

[dependencies]
clap = { version = "*", features = ["derive"] }
crossbeam-channel = "*"
env_logger = "*"
log = "*"
serde = { version = "*", features = ["derive"] }
serde_json = "*"
serialport = { version = "*", default-features = false }
strum = { version = "*", features = ["derive"] }
enum-map = "*"
num_enum = "*"
flat_enum = "*"

[dev-dependencies]
rand = "*"
