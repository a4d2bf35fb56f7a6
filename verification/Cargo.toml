[package]
name = "mio_worker"
version = "0.1.0"
edition = "2021"
publish = false

[dependencies]
log = "0.4"
mio = { version = "0.8", features = ["os-poll", "net"] }
