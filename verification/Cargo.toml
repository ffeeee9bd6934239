[package]
name = "lighthack"
version = "0.1.0"
edition = "2021"
publish = false

[dependencies]
defmt = "=0.3.101"
defmt-rtt = "=0.4.2"
embassy-executor = { version = "=0.7.0", features = ["defmt"] }
embassy-time = { version = "=0.4.0", features = ["defmt"] }
embassy-usb = { version = "=0.4.0", features = ["defmt"] }
embedded-io-async = "=0.6.1"
panic-probe = { version = "=0.3.2", features = ["print-defmt"] }
static_cell = "=2.1.1"
