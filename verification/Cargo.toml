[package]
name = "lbs"
version = "0.1.0"
edition = "2021"
publish = false

[dependencies]
serde = { version = "1", features = ["derive"] }
serde_json = "1"
dirs = "5"
libc = "0.2"
once_cell = "1"
lazy_static = "1"
image = { version = "0.25", default-features = false, features = ["png"] }
ksni = "0.2"
gtk4 = { version = "0.7", features = ["v4_10"] }
glib = "0.18"
