[package]
name = "memory_server"
version = "0.1.0"
edition = "2021"
publish = false

[dependencies]
byteorder = "1"
hex = "0.4"
hyper = "0.14"
lazy_static = "1"
libc = "0.2"
lz4 = "1"
memchr = "2"
rayon = "1"
regex = "1"
serde = { version = "1", features = ["derive"] }
serde_json = "1"
warp = "0.3"
