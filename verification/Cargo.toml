[package]
name = "webp_lossy"
version = "0.1.0"
edition = "2021"
publish = false

[dependencies]
byteorder-lite = "=0.1.0"

[dev-dependencies]
webp = { version = "0.3", default-features = false }
