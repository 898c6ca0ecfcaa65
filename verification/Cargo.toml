[package]
name = "smirk_engine"
version = "0.1.0"
edition = "2021"
publish = false

[dependencies]
quinn = { version = "=0.11.12", default-features = false, features = ["runtime-tokio", "rustls-ring", "log"] }
tokio = { version = "=1.54.1", features = ["rt", "time", "sync", "macros", "net"] }
rustls = { version = "=0.23.46", default-features = false, features = ["ring", "std", "logging", "tls12"] }
rcgen = "=0.13.2"
postcard = { version = "=1.1.3", features = ["alloc"] }
serde = { version = "=1.0.229", features = ["derive"] }
bytes = "=1.12.1"
log = "=0.4.35"
glam = "=0.30.10"
hecs = "=0.10.5"
image = { version = "0.25", default-features = false, features = ["png", "jpeg"] }
gltf = "1"
