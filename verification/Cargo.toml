[package]
name = "keel"
version = "0.1.0"
edition = "2021"
publish = false

[dependencies]
clap = { version = "=4.6.7", features = ["derive"] }
crc32c = "=0.6.9"
libc = "=0.2.191"
postcard = { version = "=1.1.3", default-features = false, features = ["use-std"] }
rustix = { version = "=1.1.6", features = ["fs"] }
serde = { version = "=1.0.229", features = ["derive"] }
serde_json = "=1.0.154"
thiserror = "=2.0.21"
