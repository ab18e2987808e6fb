[package]
name = "rustfst"
version = "0.1.0"
edition = "2021"
publish = false

[dependencies]
anyhow = "*"
downcast-rs = "*"
ffi-convert = "*"
libc = "*"
serde = { version = "*", features = ["derive"] }
serde_derive = "*"
