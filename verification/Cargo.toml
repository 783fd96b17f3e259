[package]
name = "atelier_loader"
version = "0.1.0"
edition = "2021"
publish = false

[dependencies]
ccl = "=4.13.3"
crossbeam-channel = "=0.3.9"
capnp = "0.10"
futures = "0.1"
tokio = "0.1"
log = "0.4"

[dev-dependencies]
uuid = "0.8"
