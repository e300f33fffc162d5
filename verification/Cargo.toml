[package]
name = "sbp_settings"
version = "0.1.0"
edition = "2021"
publish = false

[dependencies]
sbp = { version = "4", features = ["link"] }
crossbeam-channel = "0.5"
crossbeam-utils = "0.8"
log = "0.4"
once_cell = "1"
parking_lot = "0.12"
serde = { version = "1", features = ["derive"] }
serde_yaml = "*"
