[package]
name = "libviprs_storage"
version = "0.1.0"
edition = "2021"
publish = false

[dependencies]
chrono = "=0.4.45"
libc = "=0.2.191"
libviprs = { version = "=0.3.1", default-features = false }
serde = { version = "=1.0.229", features = ["derive"] }
serde_json = { version = "=1.0.154", features = ["preserve_order", "float_roundtrip"] }
sha2 = "=0.10.9"
