[package]
name = "d2_stampede"
version = "0.1.0"
edition = "2021"
publish = false

[dependencies]
anyhow = "=1.0.104"
d2-stampede-protobufs = "=0.2.0"
prettytable-rs = { version = "=0.10.0", default-features = false }
rustc-hash = "=2.1.3"
thiserror = "=1.0.69"
