[package]
name = "sortmerge"
version = "0.1.0"
edition = "2021"
publish = false

[dependencies]
libc = "*"
rio = "*"
rustix = { version = "*", features = ["fs"] }
